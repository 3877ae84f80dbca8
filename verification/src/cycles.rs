use vstd::prelude::*;
use crate::maps::{TransformStack, RelationMap, stack_contents, stack_get, relation_contents, relation_get};
use crate::maps::MeshPlan;
use crate::traverse::{
    ranked, below, rel_children, EntityRole, items_valid, plan_meshes, walk, bad_free, first_bad,
    final_plan,
};
use crate::maps::plan_contents;

verus! {

/// The children of `n` in the walk: its related representations, then its
/// children in the stack.
pub open spec fn successors(
    rel: Map<usize, Seq<usize>>,
    st: Map<usize, Seq<(usize, usize)>>,
    n: usize,
) -> Seq<usize> {
    rel_children(rel, n) + (if st.dom().contains(n) {
        st[n].map_values(|e: (usize, usize)| e.0)
    } else {
        Seq::empty()
    })
}

/// The number of entries of `s` equal to `k`.
pub open spec fn count_eq(s: Seq<u8>, k: u8) -> nat
    decreases s.len(),
{
    if s.len() == 0 {
        0
    } else {
        count_eq(s.drop_last(), k) + (if s.last() == k {
            1nat
        } else {
            0nat
        })
    }
}

proof fn lemma_count_update(s: Seq<u8>, i: int, v: u8, k: u8)
    requires
        0 <= i < s.len(),
    ensures
        count_eq(s.update(i, v), k) + (if s[i] == k {
            1int
        } else {
            0int
        }) == count_eq(s, k) + (if v == k {
            1int
        } else {
            0int
        }),
    decreases s.len(),
{
    if i < s.len() - 1 {
        lemma_count_update(s.drop_last(), i, v, k);
        assert(s.update(i, v).drop_last() =~= s.drop_last().update(i, v));
    } else {
        assert(s.update(i, v).drop_last() =~= s.drop_last());
    }
}

proof fn lemma_ranked_successor(
    rank: spec_fn(usize) -> Option<nat>,
    rel: Map<usize, Seq<usize>>,
    st: Map<usize, Seq<(usize, usize)>>,
    nroles: nat,
    roots: Seq<usize>,
    n: usize,
    j: int,
)
    requires
        ranked(rank, rel, st, nroles, roots),
        rank(n) is Some,
        0 <= j < successors(rel, st, n).len(),
    ensures
        below(rank, successors(rel, st, n)[j], rank(n)->0),
{
    let kids = rel_children(rel, n);
    if j < kids.len() {
        assert(successors(rel, st, n)[j] == kids[j]);
    } else {
        assert(successors(rel, st, n)[j] == st[n][j - kids.len()].0);
    }
}

/// Entity `v` is finished by the search.
pub open spec fn is_black(color: Seq<u8>, v: usize) -> bool {
    v < color.len() && color[v as int] == 2
}

/// Entity `v` is on the search's path.
pub open spec fn is_gray(color: Seq<u8>, v: usize) -> bool {
    v < color.len() && color[v as int] == 1
}

pub open spec fn colors_valid(color: Seq<u8>) -> bool {
    forall|i: int| 0 <= i < color.len() ==> #[trigger] color[i] <= 2
}

pub open spec fn no_gray(color: Seq<u8>) -> bool {
    forall|v: usize| !#[trigger] is_gray(color, v)
}

/// Every finished node has a finishing time below `count`, and its
/// children are finished before it.
pub open spec fn finished_closed(
    color: Seq<u8>,
    fin: Map<usize, nat>,
    count: nat,
    rel: Map<usize, Seq<usize>>,
    st: Map<usize, Seq<(usize, usize)>>,
) -> bool {
    forall|v: usize| #[trigger]
        is_black(color, v) ==> {
            &&& fin.dom().contains(v)
            &&& fin[v] < count
            &&& forall|j: int|
                0 <= j < successors(rel, st, v).len() ==> {
                    &&& is_black(color, #[trigger] successors(rel, st, v)[j])
                    &&& fin[successors(rel, st, v)[j]] < fin[v]
                }
        }
}

/// The path of the search: it starts at `root`; its nodes are distinct and
/// gray, and are the only gray nodes; each node's explored children before
/// the last are finished, and the last one is the next node of the path.
pub open spec fn path_ok(
    frames: Seq<(usize, u128)>,
    color: Seq<u8>,
    rel: Map<usize, Seq<usize>>,
    st: Map<usize, Seq<(usize, usize)>>,
    root: usize,
) -> bool {
    &&& frames.len() > 0 ==> frames[0].0 == root
    &&& forall|i: int|
        0 <= i < frames.len() ==> {
            &&& is_gray(color, (#[trigger] frames[i]).0)
            &&& frames[i].1 <= successors(rel, st, frames[i].0).len()
        }
    &&& forall|i: int, k: int|
        0 <= i < k < frames.len() ==> (#[trigger] frames[i]).0 != (#[trigger] frames[k]).0
    &&& forall|v: usize|
        #[trigger] is_gray(color, v) ==> exists|i: int| 0 <= i < frames.len() && (#[trigger] frames[i]).0 == v
    &&& forall|i: int|
        0 <= i < frames.len() - 1 ==> {
            &&& (#[trigger] frames[i]).1 >= 1
            &&& successors(rel, st, frames[i].0)[frames[i].1 - 1] == frames[i + 1].0
        }
    &&& forall|i: int, j: int|
        0 <= i < frames.len() && 0 <= j < frames[i].1 && (i == frames.len() - 1 || j < frames[i].1
            - 1) ==> is_black(color, #[trigger] successors(rel, st, (#[trigger] frames[i]).0)[j])
}

proof fn lemma_path_ranks(
    rank: spec_fn(usize) -> Option<nat>,
    rel: Map<usize, Seq<usize>>,
    st: Map<usize, Seq<(usize, usize)>>,
    nroles: nat,
    roots: Seq<usize>,
    frames: Seq<(usize, u128)>,
    k: int,
)
    requires
        ranked(rank, rel, st, nroles, roots),
        frames.len() > 0,
        roots.contains(frames[0].0),
        forall|i: int|
            0 <= i < frames.len() ==> (#[trigger] frames[i]).1 <= successors(rel, st, frames[i].0).len(),
        forall|i: int|
            0 <= i < frames.len() - 1 ==> {
                &&& (#[trigger] frames[i]).1 >= 1
                &&& successors(rel, st, frames[i].0)[frames[i].1 - 1] == frames[i + 1].0
            },
        0 <= k < frames.len(),
    ensures
        rank(frames[k].0) is Some,
        forall|i: int| 0 <= i <= k ==> rank(frames[k].0)->0 <= rank(#[trigger] frames[i].0)->0,
    decreases k,
{
    if k == 0 {
        let ri = choose|ri: int| 0 <= ri < roots.len() && roots[ri] == frames[0].0;
        assert(rank(roots[ri]) is Some);
    } else {
        lemma_path_ranks(rank, rel, st, nroles, roots, frames, k - 1);
        let p = frames[k - 1];
        assert(p.1 >= 1);
        lemma_ranked_successor(rank, rel, st, nroles, roots, p.0, p.1 - 1);
    }
}

/// The search reached `c` from the last node of its path, and `c` is no
/// entity or lies on the path: then no ranking of the walk exists.
proof fn lemma_unbounded(
    rel: Map<usize, Seq<usize>>,
    st: Map<usize, Seq<(usize, usize)>>,
    nroles: nat,
    roots: Seq<usize>,
    frames: Seq<(usize, u128)>,
    c: usize,
    j: int,
)
    requires
        frames.len() > 0,
        roots.contains(frames[0].0),
        forall|i: int|
            0 <= i < frames.len() ==> (#[trigger] frames[i]).1 <= successors(rel, st, frames[i].0).len(),
        forall|i: int|
            0 <= i < frames.len() - 1 ==> {
                &&& (#[trigger] frames[i]).1 >= 1
                &&& successors(rel, st, frames[i].0)[frames[i].1 - 1] == frames[i + 1].0
            },
        0 <= j < successors(rel, st, frames[frames.len() - 1].0).len(),
        c == successors(rel, st, frames[frames.len() - 1].0)[j],
        c >= nroles || exists|i: int| 0 <= i < frames.len() && (#[trigger] frames[i]).0 == c,
    ensures
        !exists|rank: spec_fn(usize) -> Option<nat>| ranked(rank, rel, st, nroles, roots),
{
    if exists|rank: spec_fn(usize) -> Option<nat>| ranked(rank, rel, st, nroles, roots) {
        let rank = choose|rank: spec_fn(usize) -> Option<nat>| ranked(rank, rel, st, nroles, roots);
        let t = frames.len() - 1;
        lemma_path_ranks(rank, rel, st, nroles, roots, frames, t);
        lemma_ranked_successor(rank, rel, st, nroles, roots, frames[t].0, j);
        assert(rank(c) is Some);
        if c >= nroles {
            assert(rank(c) is Some);
        } else {
            let i = choose|i: int| 0 <= i < frames.len() && (#[trigger] frames[i]).0 == c;
            assert(rank(frames[t].0)->0 <= rank(frames[i].0)->0);
        }
    }
}

/// The child of `n` at `idx` in the walk, if it has that many children.
fn child_at(stack: &TransformStack, relations: &RelationMap, n: usize, idx: u128) -> (r: Option<
    usize,
>)
    ensures
        idx < successors(relation_contents(*relations), stack_contents(*stack), n).len() ==> r
            == Some(successors(relation_contents(*relations), stack_contents(*stack), n)[idx as int]),
        idx >= successors(relation_contents(*relations), stack_contents(*stack), n).len() ==> r
            is None,
        r is Some ==> idx < 2 * usize::MAX,
{
    let ghost rel = relation_contents(*relations);
    let ghost st = stack_contents(*stack);
    let rk = relation_get(relations, n);
    let rl: usize = match rk {
        Some(v) => v.len(),
        None => 0,
    };
    assert(rel_children(rel, n).len() == rl);
    if idx < rl as u128 {
        let c = rk.unwrap()[idx as usize];
        assert(successors(rel, st, n)[idx as int] == rel_children(rel, n)[idx as int]);
        Some(c)
    } else {
        match stack_get(stack, n) {
            Some(v) => {
                if idx - (rl as u128) < v.len() as u128 {
                    let k = (idx - (rl as u128)) as usize;
                    let c = v[k].0;
                    assert(successors(rel, st, n)[idx as int] == st[n][idx - rl].0);
                    Some(c)
                } else {
                    None
                }
            },
            None => None,
        }
    }
}

proof fn lemma_closed_gray(
    c0: Seq<u8>,
    fin: Map<usize, nat>,
    count: nat,
    rel: Map<usize, Seq<usize>>,
    st: Map<usize, Seq<(usize, usize)>>,
    c: usize,
)
    requires
        finished_closed(c0, fin, count, rel, st),
        c < c0.len(),
        c0[c as int] == 0,
    ensures
        finished_closed(c0.update(c as int, 1), fin, count, rel, st),
{
    let c1 = c0.update(c as int, 1);
    assert forall|v: usize| #[trigger] is_black(c1, v) == is_black(c0, v) by {
        if v < c0.len() && v != c {
            assert(c1[v as int] == c0[v as int]);
        }
    }
}

proof fn lemma_advance_ok(
    f0: Seq<(usize, u128)>,
    c0: Seq<u8>,
    rel: Map<usize, Seq<usize>>,
    st: Map<usize, Seq<(usize, usize)>>,
    root: usize,
    c: usize,
)
    requires
        path_ok(f0, c0, rel, st, root),
        f0.len() > 0,
        f0[f0.len() - 1].1 < successors(rel, st, f0[f0.len() - 1].0).len(),
        f0[f0.len() - 1].1 < u128::MAX,
        c == successors(rel, st, f0[f0.len() - 1].0)[f0[f0.len() - 1].1 as int],
        is_black(c0, c),
    ensures
        path_ok(
            f0.update(f0.len() - 1, (f0[f0.len() - 1].0, (f0[f0.len() - 1].1 + 1) as u128)),
            c0,
            rel,
            st,
            root,
        ),
{
    let t = f0.len() - 1;
    let (n, idx) = f0[t];
    let f1 = f0.update(t, (n, (idx + 1) as u128));
    assert forall|i: int| 0 <= i < f1.len() implies (#[trigger] f1[i]).0 == f0[i].0 by {}
    assert forall|i: int|
        0 <= i < f1.len() implies {
        &&& is_gray(c0, (#[trigger] f1[i]).0)
        &&& f1[i].1 <= successors(rel, st, f1[i].0).len()
    } by {
        assert(is_gray(c0, f0[i].0));
    }
    assert forall|i: int, k: int| 0 <= i < k < f1.len() implies (#[trigger] f1[i]).0 != (
    #[trigger] f1[k]).0 by {
        assert(f0[i].0 != f0[k].0);
    }
    assert forall|v: usize| #[trigger] is_gray(c0, v) implies exists|i: int|
        0 <= i < f1.len() && (#[trigger] f1[i]).0 == v by {
        let i = choose|i: int| 0 <= i < f0.len() && (#[trigger] f0[i]).0 == v;
        assert(f1[i].0 == v);
    }
    assert forall|i: int|
        0 <= i < f1.len() - 1 implies {
        &&& (#[trigger] f1[i]).1 >= 1
        &&& successors(rel, st, f1[i].0)[f1[i].1 - 1] == f1[i + 1].0
    } by {
        assert(f1[i] == f0[i]);
        assert(f0[i].1 >= 1);
    }
    assert forall|i: int, j: int|
        0 <= i < f1.len() && 0 <= j < f1[i].1 && (i == f1.len() - 1 || j < f1[i].1 - 1) implies is_black(
        c0,
        #[trigger] successors(rel, st, (#[trigger] f1[i]).0)[j],
    ) by {
        if i == t {
            if j < idx {
                assert(is_black(c0, successors(rel, st, f0[t].0)[j]));
            }
        } else {
            assert(f1[i] == f0[i]);
            assert(is_black(c0, successors(rel, st, f0[i].0)[j]));
        }
    }
}

proof fn lemma_push_ok(
    f0: Seq<(usize, u128)>,
    c0: Seq<u8>,
    rel: Map<usize, Seq<usize>>,
    st: Map<usize, Seq<(usize, usize)>>,
    root: usize,
    c: usize,
)
    requires
        path_ok(f0, c0, rel, st, root),
        f0.len() > 0,
        f0[f0.len() - 1].1 < successors(rel, st, f0[f0.len() - 1].0).len(),
        f0[f0.len() - 1].1 < u128::MAX,
        c == successors(rel, st, f0[f0.len() - 1].0)[f0[f0.len() - 1].1 as int],
        c < c0.len(),
        c0[c as int] == 0,
    ensures
        path_ok(
            f0.update(f0.len() - 1, (f0[f0.len() - 1].0, (f0[f0.len() - 1].1 + 1) as u128)).push(
                (c, 0),
            ),
            c0.update(c as int, 1),
            rel,
            st,
            root,
        ),
{
    let t = f0.len() - 1;
    let (n, idx) = f0[t];
    let f1 = f0.update(t, (n, (idx + 1) as u128)).push((c, 0u128));
    let c1 = c0.update(c as int, 1);
    assert forall|v: usize| v != c implies #[trigger] is_gray(c1, v) == is_gray(c0, v) && is_black(
        c1,
        v,
    ) == is_black(c0, v) by {
        if v < c0.len() {
            assert(c1[v as int] == c0[v as int]);
        }
    }
    assert(is_gray(c1, c));
    assert(!is_black(c1, c));
    assert forall|i: int| 0 <= i < f0.len() implies (#[trigger] f1[i]).0 == f0[i].0 && f0[i].0
        != c by {
        assert(is_gray(c0, f0[i].0));
    }
    assert(f1[f1.len() - 1] == (c, 0u128));
    assert forall|i: int|
        0 <= i < f1.len() implies {
        &&& is_gray(c1, (#[trigger] f1[i]).0)
        &&& f1[i].1 <= successors(rel, st, f1[i].0).len()
    } by {
        if i < f0.len() {
            assert(is_gray(c0, f0[i].0));
        }
    }
    assert forall|i: int, k: int| 0 <= i < k < f1.len() implies (#[trigger] f1[i]).0 != (
    #[trigger] f1[k]).0 by {
        if k < f0.len() {
            assert(f0[i].0 != f0[k].0);
        }
    }
    assert forall|v: usize| #[trigger] is_gray(c1, v) implies exists|i: int|
        0 <= i < f1.len() && (#[trigger] f1[i]).0 == v by {
        if v == c {
            assert(f1[f1.len() - 1].0 == v);
        } else {
            assert(is_gray(c0, v));
            let i = choose|i: int| 0 <= i < f0.len() && (#[trigger] f0[i]).0 == v;
            assert(f1[i].0 == v);
        }
    }
    assert forall|i: int|
        0 <= i < f1.len() - 1 implies {
        &&& (#[trigger] f1[i]).1 >= 1
        &&& successors(rel, st, f1[i].0)[f1[i].1 - 1] == f1[i + 1].0
    } by {
        if i < t {
            assert(f1[i] == f0[i]);
            assert(f0[i].1 >= 1);
            assert(f1[i + 1].0 == f0[i + 1].0);
        } else {
            assert(f1[i] == (n, (idx + 1) as u128));
            assert(f1[i + 1] == (c, 0u128));
            assert(f1[i].1 - 1 == idx);
        }
    }
    assert forall|i: int, j: int|
        0 <= i < f1.len() && 0 <= j < f1[i].1 && (i == f1.len() - 1 || j < f1[i].1 - 1) implies is_black(
        c1,
        #[trigger] successors(rel, st, (#[trigger] f1[i]).0)[j],
    ) by {
        if i < t {
            assert(f1[i] == f0[i]);
            let x = successors(rel, st, f0[i].0)[j];
            assert(is_black(c0, x));
            assert(x != c);
        } else if i == t {
            assert(j < idx);
            let x = successors(rel, st, f0[t].0)[j];
            assert(is_black(c0, x));
            assert(x != c);
        }
    }
}

proof fn lemma_finish_ok(
    f0: Seq<(usize, u128)>,
    c0: Seq<u8>,
    fin: Map<usize, nat>,
    count: nat,
    rel: Map<usize, Seq<usize>>,
    st: Map<usize, Seq<(usize, usize)>>,
    root: usize,
)
    requires
        path_ok(f0, c0, rel, st, root),
        finished_closed(c0, fin, count, rel, st),
        colors_valid(c0),
        f0.len() > 0,
        f0[f0.len() - 1].1 >= successors(rel, st, f0[f0.len() - 1].0).len(),
    ensures
        ({
            let n = f0[f0.len() - 1].0;
            let c1 = c0.update(n as int, 2);
            let f1 = f0.drop_last();
            &&& path_ok(f1, c1, rel, st, root)
            &&& finished_closed(c1, fin.insert(n, count), count + 1, rel, st)
            &&& colors_valid(c1)
            &&& f1.len() == 0 ==> is_black(c1, root)
            &&& is_gray(c0, n)
        }),
{
    let t = f0.len() - 1;
    let (n, idx) = f0[t];
    let c1 = c0.update(n as int, 2);
    let f1 = f0.drop_last();
    let fin1 = fin.insert(n, count);
    assert(is_gray(c0, n));
    assert forall|v: usize| v != n implies #[trigger] is_gray(c1, v) == is_gray(c0, v) && is_black(
        c1,
        v,
    ) == is_black(c0, v) by {
        if v < c0.len() {
            assert(c1[v as int] == c0[v as int]);
        }
    }
    assert(is_black(c1, n));
    assert forall|i: int| 0 <= i < c1.len() implies #[trigger] c1[i] <= 2 by {
        if i != n {
            assert(c1[i] == c0[i]);
        }
    }
    // The children of `n` are all finished.
    assert forall|j: int| 0 <= j < successors(rel, st, n).len() implies is_black(
        c0,
        #[trigger] successors(rel, st, n)[j],
    ) by {
        assert(is_black(c0, successors(rel, st, f0[t].0)[j]));
    }
    assert forall|v: usize| #[trigger]
        is_black(c1, v) implies {
        &&& fin1.dom().contains(v)
        &&& fin1[v] < count + 1
        &&& forall|j: int|
            0 <= j < successors(rel, st, v).len() ==> {
                &&& is_black(c1, #[trigger] successors(rel, st, v)[j])
                &&& fin1[successors(rel, st, v)[j]] < fin1[v]
            }
    } by {
        if v == n {
            assert forall|j: int| 0 <= j < successors(rel, st, v).len() implies {
                &&& is_black(c1, #[trigger] successors(rel, st, v)[j])
                &&& fin1[successors(rel, st, v)[j]] < fin1[v]
            } by {
                let x = successors(rel, st, n)[j];
                assert(is_black(c0, x));
                assert(x != n);
                assert(fin[x] < count);
            }
        } else {
            assert(is_black(c0, v));
            assert forall|j: int| 0 <= j < successors(rel, st, v).len() implies {
                &&& is_black(c1, #[trigger] successors(rel, st, v)[j])
                &&& fin1[successors(rel, st, v)[j]] < fin1[v]
            } by {
                let x = successors(rel, st, v)[j];
                assert(is_black(c0, x));
                assert(x != n);
            }
        }
    }
    assert forall|i: int| 0 <= i < f1.len() implies (#[trigger] f1[i]) == f0[i] && f0[i].0 != n by {
        assert(f0[i].0 != f0[t].0);
    }
    assert forall|i: int|
        0 <= i < f1.len() implies {
        &&& is_gray(c1, (#[trigger] f1[i]).0)
        &&& f1[i].1 <= successors(rel, st, f1[i].0).len()
    } by {
        assert(is_gray(c0, f0[i].0));
    }
    assert forall|i: int, k: int| 0 <= i < k < f1.len() implies (#[trigger] f1[i]).0 != (
    #[trigger] f1[k]).0 by {
        assert(f0[i].0 != f0[k].0);
    }
    assert forall|v: usize| #[trigger] is_gray(c1, v) implies exists|i: int|
        0 <= i < f1.len() && (#[trigger] f1[i]).0 == v by {
        assert(v != n);
        assert(is_gray(c0, v));
        let i = choose|i: int| 0 <= i < f0.len() && (#[trigger] f0[i]).0 == v;
        assert(i != t);
        assert(f1[i].0 == v);
    }
    assert forall|i: int|
        0 <= i < f1.len() - 1 implies {
        &&& (#[trigger] f1[i]).1 >= 1
        &&& successors(rel, st, f1[i].0)[f1[i].1 - 1] == f1[i + 1].0
    } by {
        assert(f0[i].1 >= 1);
        assert(f1[i + 1] == f0[i + 1]);
    }
    assert forall|i: int, j: int|
        0 <= i < f1.len() && 0 <= j < f1[i].1 && (i == f1.len() - 1 || j < f1[i].1 - 1) implies is_black(
        c1,
        #[trigger] successors(rel, st, (#[trigger] f1[i]).0)[j],
    ) by {
        assert(f1[i] == f0[i]);
        let x = successors(rel, st, f0[i].0)[j];
        if i == t - 1 && j == f0[i].1 - 1 {
            assert(f0[i].1 >= 1);
            assert(x == f0[t].0);
        } else {
            assert(is_black(c0, x));
            assert(x != n);
        }
    }
    if f1.len() == 0 {
        assert(f0[0].0 == root);
    }
}

/// The depth-first search from one root: it finishes every node that the
/// walk reaches from the root, or stops on a node that is no entity or
/// that lies on its own path.
#[verifier::rlimit(40)]
fn explore(
    stack: &TransformStack,
    relations: &RelationMap,
    color: &mut Vec<u8>,
    root: usize,
    Ghost(roots): Ghost<Seq<usize>>,
    Ghost(fin0): Ghost<Map<usize, nat>>,
    Ghost(count0): Ghost<nat>,
) -> (r: (bool, Ghost<Map<usize, nat>>, Ghost<nat>))
    requires
        root < old(color).len(),
        old(color)@[root as int] == 0,
        roots.contains(root),
        colors_valid(old(color)@),
        no_gray(old(color)@),
        finished_closed(
            old(color)@,
            fin0,
            count0,
            relation_contents(*relations),
            stack_contents(*stack),
        ),
    ensures
        final(color).len() == old(color).len(),
        r.0 ==> !exists|rank: spec_fn(usize) -> Option<nat>|
            ranked(
                rank,
                relation_contents(*relations),
                stack_contents(*stack),
                old(color).len() as nat,
                roots,
            ),
        !r.0 ==> {
            &&& colors_valid(final(color)@)
            &&& no_gray(final(color)@)
            &&& finished_closed(
                final(color)@,
                r.1@,
                r.2@,
                relation_contents(*relations),
                stack_contents(*stack),
            )
            &&& is_black(final(color)@, root)
            &&& forall|v: usize| #[trigger] is_black(old(color)@, v) ==> is_black(final(color)@, v)
        },
{
    let ghost rel = relation_contents(*relations);
    let ghost st = stack_contents(*stack);
    let ghost color0 = color@;
    let ghost mut fin = fin0;
    let ghost mut count = count0;
    let nroles = color.len();
    color.set(root, 1);
    let mut frames: Vec<(usize, u128)> = Vec::new();
    frames.push((root, 0));
    proof {
        assert(successors(rel, st, root).len() >= 0);
        assert forall|v: usize| #[trigger] is_gray(color@, v) implies exists|i: int|
            0 <= i < frames@.len() && (#[trigger] frames@[i]).0 == v by {
            if v != root {
                assert(color@[v as int] == color0[v as int]);
                assert(!is_gray(color0, v));
            }
            assert(frames@[0].0 == root);
        }
        assert forall|v: usize| #[trigger] is_black(color@, v) implies is_black(color0, v) by {
            if v != root {
                assert(color@[v as int] == color0[v as int]);
            }
        }
        assert forall|v: usize| #[trigger] is_black(color0, v) implies is_black(color@, v) by {
            assert(v != root);
        }
    }
    while frames.len() > 0
        invariant
            nroles == color.len(),
            nroles == color0.len(),
            color0 == old(color)@,
            rel == relation_contents(*relations),
            st == stack_contents(*stack),
            roots.contains(root),
            root < nroles,
            colors_valid(color@),
            finished_closed(color@, fin, count, rel, st),
            path_ok(frames@, color@, rel, st, root),
            forall|v: usize| #[trigger] is_black(color0, v) ==> is_black(color@, v),
            frames.len() == 0 ==> is_black(color@, root),
        decreases count_eq(color@, 0), count_eq(color@, 1), (if frames.len() > 0 {
            successors(rel, st, frames@[frames.len() - 1].0).len() - frames@[frames.len()
                - 1].1
        } else {
            0
        }),
    {
        let t = frames.len() - 1;
        let (n, idx) = frames[t];
        let ghost f0 = frames@;
        let ghost c0 = color@;
        match child_at(stack, relations, n, idx) {
            Some(c) => {
                if c >= nroles {
                    proof {
                        lemma_unbounded(rel, st, nroles as nat, roots, f0, c, idx as int);
                    }
                    return (true, Ghost(fin), Ghost(count));
                }
                if color[c] == 1 {
                    proof {
                        assert(is_gray(c0, c));
                        lemma_unbounded(rel, st, nroles as nat, roots, f0, c, idx as int);
                    }
                    return (true, Ghost(fin), Ghost(count));
                }
                frames.set(t, (n, idx + 1));
                if color[c] == 0 {
                    color.set(c, 1);
                    frames.push((c, 0));
                    proof {
                        lemma_count_update(c0, c as int, 1, 0);
                        lemma_count_update(c0, c as int, 1, 1);
                        lemma_push_ok(f0, c0, rel, st, root, c);
                        assert forall|v: usize| #[trigger] is_black(color0, v) implies is_black(
                            color@,
                            v,
                        ) by {
                            assert(is_black(c0, v));
                        }
                        assert(finished_closed(color@, fin, count, rel, st)) by {
                            lemma_closed_gray(c0, fin, count, rel, st, c);
                        }
                    }
                } else {
                    proof {
                        assert(is_black(c0, c));
                        lemma_advance_ok(f0, c0, rel, st, root, c);
                    }
                }
            },
            None => {
                color.set(n, 2);
                frames.pop();
                proof {
                    lemma_count_update(c0, n as int, 2, 0);
                    lemma_count_update(c0, n as int, 2, 1);
                    lemma_finish_ok(f0, c0, fin, count, rel, st, root);
                    fin = fin.insert(n, count);
                    count = count + 1;
                    assert forall|v: usize| #[trigger] is_black(color0, v) implies is_black(
                        color@,
                        v,
                    ) by {
                        assert(is_black(c0, v));
                    }
                }
            },
        }
    }
    proof {
        assert forall|v: usize| !#[trigger] is_gray(color@, v) by {
            if is_gray(color@, v) {
                let i = choose|i: int| 0 <= i < frames@.len() && (#[trigger] frames@[i]).0 == v;
            }
        }
    }
    (false, Ghost(fin), Ghost(count))
}

/// The ranking that a finished search gives: a finished node is ranked by
/// its finishing time, any other node has no rank.
pub open spec fn finish_rank(color: Seq<u8>, fin: Map<usize, nat>) -> spec_fn(usize) -> Option<nat> {
    |v: usize|
        if is_black(color, v) {
            Some(fin[v])
        } else {
            None
        }
}

proof fn lemma_finish_rank_ranked(
    color: Seq<u8>,
    fin: Map<usize, nat>,
    count: nat,
    rel: Map<usize, Seq<usize>>,
    st: Map<usize, Seq<(usize, usize)>>,
    roots: Seq<usize>,
)
    requires
        finished_closed(color, fin, count, rel, st),
        forall|k: int| 0 <= k < roots.len() ==> is_black(color, #[trigger] roots[k]),
    ensures
        ranked(finish_rank(color, fin), rel, st, color.len() as nat, roots),
{
    let rank = finish_rank(color, fin);
    assert forall|i: int| 0 <= i < roots.len() implies (#[trigger] rank(roots[i])) is Some by {
        assert(is_black(color, roots[i]));
    }
    assert forall|n: usize| #[trigger]
        rank(n) is Some implies {
        &&& n < color.len()
        &&& forall|j: int|
            0 <= j < rel_children(rel, n).len() ==> below(
                rank,
                #[trigger] rel_children(rel, n)[j],
                rank(n)->0,
            )
        &&& st.dom().contains(n) ==> forall|j: int|
            0 <= j < st[n].len() ==> below(rank, (#[trigger] st[n][j]).0, rank(n)->0)
    } by {
        assert(is_black(color, n));
        let kids = rel_children(rel, n);
        assert forall|j: int| 0 <= j < kids.len() implies below(
            rank,
            #[trigger] kids[j],
            rank(n)->0,
        ) by {
            assert(successors(rel, st, n)[j] == kids[j]);
            assert(is_black(color, successors(rel, st, n)[j]));
        }
        if st.dom().contains(n) {
            assert forall|j: int| 0 <= j < st[n].len() implies below(
                rank,
                (#[trigger] st[n][j]).0,
                rank(n)->0,
            ) by {
                assert(successors(rel, st, n)[kids.len() + j] == st[n][j].0);
                assert(is_black(color, successors(rel, st, n)[kids.len() + j]));
            }
        }
    }
}

/// Whether the walk from `roots` never ends or reads an entity that does
/// not exist: it reaches a cycle, or an id of `nroles` or more. It is false
/// exactly when the reached part of the graph can be ranked, which is what
/// the walk needs to end.
pub fn walk_is_unbounded(
    stack: &TransformStack,
    relations: &RelationMap,
    nroles: usize,
    roots: &Vec<usize>,
) -> (r: bool)
    ensures
        r <==> !exists|rank: spec_fn(usize) -> Option<nat>|
            ranked(rank, relation_contents(*relations), stack_contents(*stack), nroles as nat, roots@),
{
    let ghost rel = relation_contents(*relations);
    let ghost st = stack_contents(*stack);
    let mut color: Vec<u8> = Vec::new();
    let mut i: usize = 0;
    while i < nroles
        invariant
            0 <= i <= nroles,
            color@ == Seq::new(i as nat, |k: int| 0u8),
        decreases nroles - i,
    {
        color.push(0);
        i = i + 1;
        assert(color@ =~= Seq::new(i as nat, |k: int| 0u8));
    }
    let ghost mut fin: Map<usize, nat> = Map::empty();
    let ghost mut count: nat = 0;
    let nr = roots.len();
    let mut ri: usize = 0;
    while ri < nr
        invariant
            nr == roots.len(),
            0 <= ri <= nr,
            color.len() == nroles,
            rel == relation_contents(*relations),
            st == stack_contents(*stack),
            colors_valid(color@),
            no_gray(color@),
            finished_closed(color@, fin, count, rel, st),
            forall|k: int| 0 <= k < ri ==> is_black(color@, #[trigger] roots@[k]),
        decreases nr - ri,
    {
        let r = roots[ri];
        if r >= nroles {
            proof {
                if exists|rank: spec_fn(usize) -> Option<nat>|
                    ranked(rank, rel, st, nroles as nat, roots@) {
                    let rank = choose|rank: spec_fn(usize) -> Option<nat>|
                        ranked(rank, rel, st, nroles as nat, roots@);
                    assert(rank(roots@[ri as int]) is Some);
                }
            }
            return true;
        }
        if color[r] == 0 {
            let ghost before = color@;
            let (cyc, Ghost(f2), Ghost(c2)) = explore(
                stack,
                relations,
                &mut color,
                r,
                Ghost(roots@),
                Ghost(fin),
                Ghost(count),
            );
            if cyc {
                return true;
            }
            proof {
                fin = f2;
                count = c2;
                assert forall|k: int| 0 <= k < ri + 1 implies is_black(color@, #[trigger] roots@[k]) by {
                    if k < ri {
                        assert(is_black(before, roots@[k]));
                    }
                }
            }
        } else {
            proof {
                assert(!is_gray(color@, r));
                assert(color@[r as int] <= 2);
            }
        }
        ri = ri + 1;
    }
    proof {
        lemma_finish_rank_ranked(color@, fin, count, rel, st, roots@);
    }
    false
}

/// Whether every item of every shape is an entity id.
pub fn shape_items_valid(roles: &Vec<EntityRole>) -> (r: bool)
    ensures
        r == items_valid(roles@),
{
    let n = roles.len();
    let mut i: usize = 0;
    while i < n
        invariant
            n == roles.len(),
            0 <= i <= n,
            forall|a: int, j: int|
                0 <= a < i && #[trigger] roles@[a] is Shape && 0 <= j < roles@[a]->0@.len()
                    ==> #[trigger] roles@[a]->0@[j] < n,
        decreases n - i,
    {
        match &roles[i] {
            EntityRole::Shape(items) => {
                let m = items.len();
                let mut j: usize = 0;
                while j < m
                    invariant
                        n == roles.len(),
                        0 <= i < n,
                        roles@[i as int] is Shape,
                        items@ == roles@[i as int]->0@,
                        m == items.len(),
                        0 <= j <= m,
                        forall|k: int| 0 <= k < j ==> items@[k] < n,
                    decreases m - j,
                {
                    if items[j] >= n {
                        assert(roles@[i as int]->0@[j as int] >= n);
                        return false;
                    }
                    j = j + 1;
                }
            },
            _ => {},
        }
        i = i + 1;
    }
    true
}

/// Walks the representations as `plan_meshes` does, once it has checked
/// that the walk can run: `None` when the walk would never end or would
/// read an entity that does not exist, or when a shape lists an item that
/// is no entity.
pub fn plan_meshes_checked(
    stack: &TransformStack,
    relations: &RelationMap,
    roles: &Vec<EntityRole>,
    roots: &Vec<usize>,
    strict: bool,
) -> (r: Option<Result<MeshPlan, usize>>)
    ensures
        r is None <==> (!exists|rank: spec_fn(usize) -> Option<nat>|
            ranked(rank, relation_contents(*relations), stack_contents(*stack), roles@.len(), roots@))
            || !items_valid(roles@),
        r matches Some(res) ==> ({
            let vs = walk(relation_contents(*relations), stack_contents(*stack), roles@, roots@);
            match res {
                Ok(p) => (!strict || bad_free(vs)) && plan_contents(p) == final_plan(vs, roles@),
                Err(n) => strict && first_bad(vs, n),
            }
        }),
{
    if walk_is_unbounded(stack, relations, roles.len(), roots) {
        return None;
    }
    if !shape_items_valid(roles) {
        return None;
    }
    Some(plan_meshes(stack, relations, roles, roots, strict))
}

} // verus!
