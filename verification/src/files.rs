use vstd::prelude::*;

verus! {

/// The file extension of a STEP file, in lower case.
pub open spec fn step_lower() -> Seq<char> {
    seq!['s', 't', 'e', 'p']
}

/// The file extension of a STEP file, in upper case.
pub open spec fn step_upper() -> Seq<char> {
    seq!['S', 'T', 'E', 'P']
}

/// The short file extension of a STEP file, in lower case.
pub open spec fn stp_lower() -> Seq<char> {
    seq!['s', 't', 'p']
}

/// The short file extension of a STEP file, in upper case.
pub open spec fn stp_upper() -> Seq<char> {
    seq!['S', 'T', 'P']
}

/// The example file that breaks the constrained triangulation, left out of
/// batch runs.
pub open spec fn skipped_example() -> Seq<char> {
    seq![
        '.', '.', '/', 'e', 'x', 'a', 'm', 'p', 'l', 'e', 's', '/', 's', 'p', 'h', 'e', 'r', 'e',
        '.', 's', 't', 'e', 'p',
    ]
}

/// `s` spells the word given in lower case by `lo` and in upper case by
/// `up`, each letter in either case.
pub open spec fn same_letters(s: Seq<char>, lo: Seq<char>, up: Seq<char>) -> bool {
    &&& s.len() == lo.len()
    &&& forall|i: int| 0 <= i < s.len() ==> s[i] == lo[i] || s[i] == up[i]
}

/// A file of a batch run: its extension is `step` or `stp` in any case, and
/// it is not the example file that is left out.
pub open spec fn spec_is_batch_step_file(path: Seq<char>, ext: Option<Seq<char>>) -> bool {
    &&& ext matches Some(e) && (same_letters(e, step_lower(), step_upper()) || same_letters(
        e,
        stp_lower(),
        stp_upper(),
    ))
    &&& path != skipped_example()
}

fn letters_match(s: &Vec<char>, lo: &Vec<char>, up: &Vec<char>) -> (r: bool)
    requires
        lo.len() == up.len(),
    ensures
        r == same_letters(s@, lo@, up@),
{
    if s.len() != lo.len() {
        return false;
    }
    let n = s.len();
    let mut i: usize = 0;
    while i < n
        invariant
            n == s.len(),
            n == lo.len(),
            n == up.len(),
            0 <= i <= n,
            forall|j: int| 0 <= j < i ==> s@[j] == lo@[j] || s@[j] == up@[j],
        decreases n - i,
    {
        if s[i] != lo[i] && s[i] != up[i] {
            return false;
        }
        i = i + 1;
    }
    true
}

fn same_chars(a: &Vec<char>, b: &Vec<char>) -> (r: bool)
    ensures
        r == (a@ == b@),
{
    if a.len() != b.len() {
        return false;
    }
    let n = a.len();
    let mut i: usize = 0;
    while i < n
        invariant
            n == a.len(),
            n == b.len(),
            0 <= i <= n,
            forall|j: int| 0 <= j < i ==> a@[j] == b@[j],
        decreases n - i,
    {
        if a[i] != b[i] {
            return false;
        }
        i = i + 1;
    }
    assert(a@ =~= b@);
    true
}

/// Whether a file found in the examples directory takes part in a batch
/// run: `path` is its path and `ext` its extension, if it has one. The
/// extension is compared letter by letter in either case, which is the
/// same as comparing it in lower case with `step` and `stp`.
pub fn is_batch_step_file(path: &Vec<char>, ext: &Option<Vec<char>>) -> (r: bool)
    ensures
        r == spec_is_batch_step_file(path@, match ext {
            Some(e) => Some(e@),
            None => None,
        }),
{
    let known = match ext {
        Some(e) => {
            let step_lo = vec!['s', 't', 'e', 'p'];
            let step_up = vec!['S', 'T', 'E', 'P'];
            let stp_lo = vec!['s', 't', 'p'];
            let stp_up = vec!['S', 'T', 'P'];
            assert(step_lo@ =~= step_lower() && step_up@ =~= step_upper());
            assert(stp_lo@ =~= stp_lower() && stp_up@ =~= stp_upper());
            letters_match(e, &step_lo, &step_up) || letters_match(e, &stp_lo, &stp_up)
        },
        None => false,
    };
    if !known {
        return false;
    }
    let skipped = vec![
        '.', '.', '/', 'e', 'x', 'a', 'm', 'p', 'l', 'e', 's', '/', 's', 'p', 'h', 'e', 'r', 'e',
        '.', 's', 't', 'e', 'p',
    ];
    assert(skipped@ =~= skipped_example());
    !same_chars(path, &skipped)
}

/// A character in ASCII lower case: upper-case ASCII letters become the
/// matching lower-case letters, and every other character stays as it is.
pub open spec fn ascii_lower(c: char) -> char {
    if 'A' <= c && c <= 'Z' {
        ((c as u32) + 32) as char
    } else {
        c
    }
}

/// A text in ASCII lower case.
pub open spec fn lowered(s: Seq<char>) -> Seq<char> {
    s.map_values(|c: char| ascii_lower(c))
}

proof fn lemma_lowered_word(e: Seq<char>, lo: Seq<char>, up: Seq<char>)
    requires
        lo.len() == up.len(),
        forall|i: int|
            0 <= i < lo.len() ==> 'a' <= #[trigger] lo[i] <= 'z' && up[i] as u32 + 32 == lo[i] as u32,
    ensures
        same_letters(e, lo, up) <==> lowered(e) == lo,
{
    if same_letters(e, lo, up) {
        assert forall|i: int| 0 <= i < lo.len() implies lowered(e)[i] == lo[i] by {
            let c = e[i];
            if c == up[i] {
                assert((((c as u32) + 32) as char) == lo[i]);
            }
        }
        assert(lowered(e) =~= lo);
    }
    if lowered(e) == lo {
        assert forall|i: int| 0 <= i < e.len() implies e[i] == lo[i] || e[i] == up[i] by {
            let c = e[i];
            assert(lowered(e)[i] == ascii_lower(c));
            if 'A' <= c && c <= 'Z' {
                assert((((c as u32) + 32) as char) as u32 == c as u32 + 32);
                assert(c as u32 == up[i] as u32);
                vstd::utf8::char_u32_cast(c, c as u32);
                vstd::utf8::char_u32_cast(up[i], up[i] as u32);
            }
        }
    }
}

/// A file of the examples directory is taken by a batch run exactly when it
/// is not the example that is left out and its extension, put in ASCII
/// lower case, is `step` or `stp`: the extension's case never matters.
pub proof fn lemma_batch_extension_any_case(path: Seq<char>, e: Seq<char>)
    ensures
        spec_is_batch_step_file(path, Some(e)) <==> (path != skipped_example() && (lowered(e)
            == seq!['s', 't', 'e', 'p'] || lowered(e) == seq!['s', 't', 'p'])),
        !spec_is_batch_step_file(path, None),
{
    lemma_lowered_word(e, step_lower(), step_upper());
    lemma_lowered_word(e, stp_lower(), stp_upper());
    assert(step_lower() =~= seq!['s', 't', 'e', 'p']);
    assert(stp_lower() =~= seq!['s', 't', 'p']);
}

} // verus!
