use vstd::prelude::*;
use std::collections::HashSet;
use crate::maps::{TransformStack, Link, stack_contents, stack_new, stack_remove, stack_insert, stack_get, stack_keys};

verus! {

broadcast use {vstd::std_specs::hash::group_hash_axioms, vstd::seq_lib::group_seq_properties};

/// One mapped item of a STEP file: the representation it maps, the
/// representation it maps into, and the handle of its placing transform.
#[derive(Clone, Copy, Debug, PartialEq, Eq, Structural)]
pub struct MappedLink {
    pub source: usize,
    pub target: usize,
    pub transform: usize,
}

/// Appends `v` to the list of `k`, starting an empty list if `k` has none.
pub open spec fn push_child(
    m: Map<usize, Seq<(usize, usize)>>,
    k: usize,
    v: (usize, usize),
) -> Map<usize, Seq<(usize, usize)>> {
    m.insert(k, (if m.dom().contains(k) { m[k] } else { Seq::empty() }).push(v))
}

/// The parent/child edge that a link adds: from its source to its target,
/// or the other way round when `flip` holds.
pub open spec fn link_edge(l: MappedLink, flip: bool) -> (usize, (usize, usize)) {
    if flip {
        (l.target, (l.source, l.transform))
    } else {
        (l.source, (l.target, l.transform))
    }
}

/// The transform stack that a list of links builds, link after link.
pub open spec fn stack_of(links: Seq<MappedLink>, flip: bool) -> Map<usize, Seq<(usize, usize)>>
    decreases links.len(),
{
    if links.len() == 0 {
        Map::empty()
    } else {
        let e = link_edge(links.last(), flip);
        push_child(stack_of(links.drop_last(), flip), e.0, e.1)
    }
}

/// Builds the transform stack: each link becomes an edge from the
/// representation it maps to the one it maps into (reversed when `flip`
/// holds), labelled with its transform.
pub fn build_transform_stack(links: &Vec<MappedLink>, flip: bool) -> (m: TransformStack)
    ensures
        stack_contents(m) == stack_of(links@, flip),
{
    let mut m = stack_new();
    let n = links.len();
    let mut i: usize = 0;
    while i < n
        invariant
            n == links.len(),
            0 <= i <= n,
            stack_contents(m) == stack_of(links@.take(i as int), flip),
        decreases n - i,
    {
        let l = links[i];
        let (k, v) = if flip {
            (l.target, (l.source, l.transform))
        } else {
            (l.source, (l.target, l.transform))
        };
        let mut list = match stack_remove(&mut m, k) {
            Some(list) => list,
            None => Vec::new(),
        };
        list.push(v);
        stack_insert(&mut m, k, list);
        i = i + 1;
        assert(links@.take(i as int).drop_last() =~= links@.take((i - 1) as int));
        assert(stack_contents(m) =~= stack_of(links@.take(i as int), flip));
    }
    assert(links@.take(n as int) =~= links@);
    m
}

/// The stack built from links holds exactly one edge per link: `v` is listed
/// under `k` if and only if some link gives the edge from `k` to `v` (with
/// `flip`, each link's edge runs from its target back to its source).
pub proof fn lemma_stack_edges(links: Seq<MappedLink>, flip: bool, k: usize, v: Link)
    ensures
        (stack_of(links, flip).dom().contains(k) && stack_of(links, flip)[k].contains(v)) <==> exists|
            i: int,
        | 0 <= i < links.len() && link_edge(#[trigger] links[i], flip) == (k, v),
    decreases links.len(),
{
    if links.len() > 0 {
        let p = links.drop_last();
        lemma_stack_edges(p, flip, k, v);
        let m = stack_of(p, flip);
        let e = link_edge(links.last(), flip);
        if exists|i: int| 0 <= i < p.len() && link_edge(#[trigger] p[i], flip) == (k, v) {
            let i = choose|i: int| 0 <= i < p.len() && link_edge(#[trigger] p[i], flip) == (k, v);
            assert(links[i] == p[i]);
        }
        if exists|i: int| 0 <= i < links.len() && link_edge(#[trigger] links[i], flip) == (k, v) {
            let i = choose|i: int| 0 <= i < links.len() && link_edge(#[trigger] links[i], flip) == (k, v);
            if i < p.len() {
                assert(p[i] == links[i]);
            }
        }
    }
}

/// `c` is a child of some entry of the stack.
pub open spec fn is_child(m: Map<usize, Seq<(usize, usize)>>, c: usize) -> bool {
    exists|k: usize, j: int|
        m.dom().contains(k) && 0 <= j < m[k].len() && (#[trigger] m[k][j]).0 == c
}

/// The roots of a transform stack: the parents that are nobody's child.
pub open spec fn is_root(m: Map<usize, Seq<(usize, usize)>>, k: usize) -> bool {
    m.dom().contains(k) && !is_child(m, k)
}

/// The parents of the stack that no entry lists as a child, each once, in
/// the order in which the map walks its keys.
pub fn transform_stack_roots(m: &TransformStack) -> (roots: Vec<usize>)
    ensures
        roots@.no_duplicates(),
        forall|k: usize| roots@.contains(k) <==> is_root(stack_contents(*m), k),
{
    let ghost c = stack_contents(*m);
    let keys = stack_keys(m);
    let nk = keys.len();
    let mut children: HashSet<usize> = HashSet::new();
    let mut i: usize = 0;
    while i < nk
        invariant
            nk == keys.len(),
            c == stack_contents(*m),
            keys@.to_set() == c.dom(),
            keys@.no_duplicates(),
            0 <= i <= nk,
            forall|x: usize|
                children@.contains(x) <==> exists|a: int, j: int|
                    0 <= a < i && 0 <= j < c[keys@[a]].len() && (#[trigger] c[keys@[a]][j]).0 == x,
        decreases nk - i,
    {
        let k = keys[i];
        assert(keys@.contains(k));
        assert(keys@.to_set().contains(k));
        let list = stack_get(m, k).unwrap();
        let nl = list.len();
        let mut j: usize = 0;
        while j < nl
            invariant
                nk == keys.len(),
                0 <= i < nk,
                k == keys@[i as int],
                c == stack_contents(*m),
                c.dom().contains(k),
                list@ == c[k],
                nl == list.len(),
                0 <= j <= nl,
                forall|x: usize|
                    children@.contains(x) <==> (exists|a: int, jj: int|
                        0 <= a < i && 0 <= jj < c[keys@[a]].len() && (#[trigger] c[keys@[a]][jj]).0
                            == x) || (exists|jj: int| 0 <= jj < j && (#[trigger] list@[jj]).0 == x),
            decreases nl - j,
        {
            let (ch, _t) = list[j];
            children.insert(ch);
            j = j + 1;
            assert forall|x: usize|
                children@.contains(x) <==> (exists|a: int, jj: int|
                    0 <= a < i && 0 <= jj < c[keys@[a]].len() && (#[trigger] c[keys@[a]][jj]).0
                        == x) || (exists|jj: int| 0 <= jj < j && (#[trigger] list@[jj]).0 == x) by {
                if children@.contains(x) && x != ch {
                } else if x == ch {
                    assert(list@[j - 1].0 == x);
                }
            }
        }
        i = i + 1;
        assert forall|x: usize|
            children@.contains(x) <==> exists|a: int, jj: int|
                0 <= a < i && 0 <= jj < c[keys@[a]].len() && (#[trigger] c[keys@[a]][jj]).0 == x by {
            if children@.contains(x) {
                if exists|jj: int| 0 <= jj < nl && (#[trigger] list@[jj]).0 == x {
                    let jj = choose|jj: int| 0 <= jj < nl && (#[trigger] list@[jj]).0 == x;
                    assert(c[keys@[i - 1]][jj].0 == x);
                }
            }
        }
    }
    assert forall|x: usize| children@.contains(x) <==> is_child(c, x) by {
        if children@.contains(x) {
            let (a, jj) = choose|a: int, jj: int|
                0 <= a < nk && 0 <= jj < c[keys@[a]].len() && (#[trigger] c[keys@[a]][jj]).0 == x;
            assert(keys@.contains(keys@[a]));
            assert(keys@.to_set().contains(keys@[a]));
        }
        if is_child(c, x) {
            let (k, jj) = choose|k: usize, jj: int|
                c.dom().contains(k) && 0 <= jj < c[k].len() && (#[trigger] c[k][jj]).0 == x;
            assert(keys@.to_set().contains(k));
            assert(keys@.contains(k));
            let a = choose|a: int| 0 <= a < nk && keys@[a] == k;
            assert(c[keys@[a]][jj].0 == x);
        }
    }
    let mut roots: Vec<usize> = Vec::new();
    let mut i: usize = 0;
    while i < nk
        invariant
            nk == keys.len(),
            keys@.no_duplicates(),
            keys@.to_set() == c.dom(),
            0 <= i <= nk,
            forall|x: usize| children@.contains(x) <==> is_child(c, x),
            roots@.no_duplicates(),
            forall|x: usize|
                #[trigger] roots@.contains(x) <==> (keys@.take(i as int).contains(x) && !is_child(
                    c,
                    x,
                )),
        decreases nk - i,
    {
        let k = keys[i];
        let ghost pre = keys@.take(i as int);
        assert(keys@.take(i + 1) =~= pre.push(k));
        let is_c = children.contains(&k);
        assert(is_c == children@.contains(k));
        assert(!pre.contains(k)) by {
            if pre.contains(k) {
                let a = choose|a: int| 0 <= a < pre.len() && pre[a] == k;
                assert(keys@[a] == keys@[i as int]);
            }
        }
        let ghost r0 = roots@;
        assert(!r0.contains(k));
        if !is_c {
            roots.push(k);
        }
        assert forall|x: usize|
            #[trigger] roots@.contains(x) <==> (keys@.take(i + 1).contains(x) && !is_child(c, x)) by {
            assert(keys@.take(i + 1)[i as int] == k);
            if x != k {
                assert(keys@.take(i + 1).contains(x) <==> pre.contains(x));
                assert(roots@.contains(x) <==> r0.contains(x));
            } else {
                assert(keys@.take(i + 1).contains(x));
            }
        }
        i = i + 1;
    }
    assert(keys@.take(nk as int) =~= keys@);
    assert forall|x: usize| roots@.contains(x) <==> is_root(c, x) by {
        if c.dom().contains(x) {
            assert(keys@.to_set().contains(x));
            assert(keys@.contains(x));
        }
        if roots@.contains(x) {
            assert(keys@.take(nk as int).contains(x));
            assert(keys@.to_set().contains(x));
        }
    }
    roots
}

/// The stack has two different roots.
pub open spec fn many_roots(m: Map<usize, Seq<(usize, usize)>>) -> bool {
    exists|a: usize, b: usize| a != b && is_root(m, a) && is_root(m, b)
}

/// Builds the transform stack and lists its roots. The links are first
/// read from the mapped representation to the one it maps into; when that
/// gives more than one root, the graph is taken to run the other way and
/// the stack is built again, flipped.
pub fn oriented_transform_stack(links: &Vec<MappedLink>) -> (r: (TransformStack, Vec<usize>))
    ensures
        stack_contents(r.0) == stack_of(links@, many_roots(stack_of(links@, false))),
        r.1@.no_duplicates(),
        forall|k: usize| r.1@.contains(k) <==> is_root(stack_contents(r.0), k),
{
    let stack = build_transform_stack(links, false);
    let roots = transform_stack_roots(&stack);
    let ghost m = stack_of(links@, false);
    if roots.len() > 1 {
        proof {
            assert(roots@.contains(roots@[0]));
            assert(roots@.contains(roots@[1]));
            assert(roots@[0] != roots@[1]);
            assert(is_root(m, roots@[0]) && is_root(m, roots@[1]));
        }
        let stack = build_transform_stack(links, true);
        let roots = transform_stack_roots(&stack);
        (stack, roots)
    } else {
        proof {
            if many_roots(m) {
                let (a, b) = choose|a: usize, b: usize| a != b && is_root(m, a) && is_root(m, b);
                assert(roots@.contains(a) && roots@.contains(b));
                let ia = choose|i: int| 0 <= i < roots@.len() && roots@[i] == a;
                let ib = choose|i: int| 0 <= i < roots@.len() && roots@[i] == b;
                assert(false);
            }
        }
        (stack, roots)
    }
}

/// Flipping reverses every edge: the flipped stack lists `c` under `k` with
/// transform `h` exactly when the plain stack lists `k` under `c` with the
/// same transform.
pub proof fn lemma_flip_reverses(links: Seq<MappedLink>, k: usize, c: usize, h: usize)
    ensures
        (stack_of(links, true).dom().contains(k) && stack_of(links, true)[k].contains((c, h)))
            <==> (stack_of(links, false).dom().contains(c) && stack_of(links, false)[c].contains(
            (k, h),
        )),
{
    lemma_stack_edges(links, true, k, (c, h));
    lemma_stack_edges(links, false, c, (k, h));
    if exists|i: int| 0 <= i < links.len() && link_edge(#[trigger] links[i], true) == (k, (c, h)) {
        let i = choose|i: int| 0 <= i < links.len() && link_edge(#[trigger] links[i], true) == (k, (c, h));
        assert(link_edge(links[i], false) == (c, (k, h)));
    }
    if exists|i: int| 0 <= i < links.len() && link_edge(#[trigger] links[i], false) == (c, (k, h)) {
        let i = choose|i: int| 0 <= i < links.len() && link_edge(#[trigger] links[i], false) == (c, (k, h));
        assert(link_edge(links[i], true) == (k, (c, h)));
    }
}

/// How many times `v` occurs in `s`.
pub open spec fn occurrences<T>(s: Seq<T>, v: T) -> nat
    decreases s.len(),
{
    if s.len() == 0 {
        0
    } else {
        occurrences(s.drop_last(), v) + (if s.last() == v {
            1nat
        } else {
            0nat
        })
    }
}

/// The children listed under `k`, none when `k` is not a parent.
pub open spec fn edges_at(m: Map<usize, Seq<(usize, usize)>>, k: usize) -> Seq<(usize, usize)> {
    if m.dom().contains(k) {
        m[k]
    } else {
        Seq::empty()
    }
}

/// How many links give the edge from `k` to `v`.
pub open spec fn links_giving(links: Seq<MappedLink>, flip: bool, k: usize, v: (usize, usize)) -> nat
    decreases links.len(),
{
    if links.len() == 0 {
        0
    } else {
        links_giving(links.drop_last(), flip, k, v) + (if link_edge(links.last(), flip) == (k, v) {
            1nat
        } else {
            0nat
        })
    }
}

proof fn lemma_stack_counts(links: Seq<MappedLink>, flip: bool, k: usize, v: (usize, usize))
    ensures
        occurrences(edges_at(stack_of(links, flip), k), v) == links_giving(links, flip, k, v),
    decreases links.len(),
{
    if links.len() > 0 {
        let p = links.drop_last();
        lemma_stack_counts(p, flip, k, v);
        let e = link_edge(links.last(), flip);
        let old = edges_at(stack_of(p, flip), k);
        if e.0 == k {
            assert(edges_at(stack_of(links, flip), k) =~= old.push(e.1));
            assert(old.push(e.1).drop_last() =~= old);
        } else {
            assert(edges_at(stack_of(links, flip), k) =~= old);
        }
    }
}

proof fn lemma_links_giving_flip(links: Seq<MappedLink>, k: usize, c: usize, h: usize)
    ensures
        links_giving(links, true, k, (c, h)) == links_giving(links, false, c, (k, h)),
    decreases links.len(),
{
    if links.len() > 0 {
        lemma_links_giving_flip(links.drop_last(), k, c, h);
    }
}

/// Both orientations of a stack hold the same edges, reversed, each as
/// many times: the flipped stack lists `(c, h)` under `k` exactly as often
/// as the plain stack lists `(k, h)` under `c`, so both hold the same
/// number of edges.
pub proof fn lemma_flip_same_edges(links: Seq<MappedLink>, k: usize, c: usize, h: usize)
    ensures
        occurrences(edges_at(stack_of(links, true), k), (c, h)) == occurrences(
            edges_at(stack_of(links, false), c),
            (k, h),
        ),
{
    lemma_stack_counts(links, true, k, (c, h));
    lemma_stack_counts(links, false, c, (k, h));
    lemma_links_giving_flip(links, k, c, h);
}

/// The number of edges listed under the keys of `keys`.
pub open spec fn edges_under(m: Map<usize, Seq<(usize, usize)>>, keys: Seq<usize>) -> nat
    decreases keys.len(),
{
    if keys.len() == 0 {
        0
    } else {
        edges_under(m, keys.drop_last()) + edges_at(m, keys.last()).len()
    }
}

proof fn lemma_edges_under_push(
    m: Map<usize, Seq<(usize, usize)>>,
    keys: Seq<usize>,
    k: usize,
    v: (usize, usize),
)
    requires
        keys.no_duplicates(),
    ensures
        edges_under(push_child(m, k, v), keys) == edges_under(m, keys) + (if keys.contains(k) {
            1nat
        } else {
            0nat
        }),
    decreases keys.len(),
{
    if keys.len() > 0 {
        let p = keys.drop_last();
        assert(p.no_duplicates()) by {
            assert forall|i: int, j: int| 0 <= i < j < p.len() implies p[i] != p[j] by {
                assert(p[i] == keys[i] && p[j] == keys[j]);
            }
        }
        lemma_edges_under_push(m, p, k, v);
        let x = keys.last();
        if x == k {
            assert(edges_at(push_child(m, k, v), k) =~= edges_at(m, k).push(v));
            assert(!p.contains(k)) by {
                if p.contains(k) {
                    let i = choose|i: int| 0 <= i < p.len() && p[i] == k;
                    assert(keys[i] == keys[keys.len() - 1]);
                }
            }
        } else {
            assert(edges_at(push_child(m, k, v), x) =~= edges_at(m, x));
            assert(keys.contains(k) == p.contains(k)) by {
                if keys.contains(k) {
                    let i = choose|i: int| 0 <= i < keys.len() && keys[i] == k;
                    assert(i < keys.len() - 1);
                    assert(p[i] == k);
                }
                if p.contains(k) {
                    let i = choose|i: int| 0 <= i < p.len() && p[i] == k;
                    assert(keys[i] == k);
                }
            }
        }
    }
}

/// The stack built from `links` holds one edge per link: listed under any
/// keys that name each parent once, its edges number `links.len()`, in
/// either orientation.
pub proof fn lemma_stack_edge_total(links: Seq<MappedLink>, flip: bool, keys: Seq<usize>)
    requires
        keys.no_duplicates(),
        forall|k: usize| stack_of(links, flip).dom().contains(k) ==> keys.contains(k),
    ensures
        edges_under(stack_of(links, flip), keys) == links.len(),
    decreases links.len(),
{
    if links.len() == 0 {
        lemma_edges_under_empty(keys);
    } else {
        let p = links.drop_last();
        let e = link_edge(links.last(), flip);
        assert forall|k: usize| stack_of(p, flip).dom().contains(k) implies keys.contains(k) by {
            assert(stack_of(links, flip).dom().contains(k));
        }
        lemma_stack_edge_total(p, flip, keys);
        lemma_edges_under_push(stack_of(p, flip), keys, e.0, e.1);
        assert(stack_of(links, flip).dom().contains(e.0));
    }
}

proof fn lemma_edges_under_empty(keys: Seq<usize>)
    ensures
        edges_under(Map::<usize, Seq<(usize, usize)>>::empty(), keys) == 0,
    decreases keys.len(),
{
    if keys.len() > 0 {
        lemma_edges_under_empty(keys.drop_last());
    }
}

/// Both orientations of a stack hold the same number of edges, counted
/// under any keys that name each of their parents once.
pub proof fn lemma_flip_same_total(links: Seq<MappedLink>, plain_keys: Seq<usize>, flipped_keys: Seq<usize>)
    requires
        plain_keys.no_duplicates(),
        flipped_keys.no_duplicates(),
        forall|k: usize| stack_of(links, false).dom().contains(k) ==> plain_keys.contains(k),
        forall|k: usize| stack_of(links, true).dom().contains(k) ==> flipped_keys.contains(k),
    ensures
        edges_under(stack_of(links, true), flipped_keys) == edges_under(
            stack_of(links, false),
            plain_keys,
        ),
{
    lemma_stack_edge_total(links, false, plain_keys);
    lemma_stack_edge_total(links, true, flipped_keys);
}

} // verus!
