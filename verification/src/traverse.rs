use vstd::prelude::*;
use crate::maps::{
    TransformStack, RelationMap, MeshPlan, stack_contents, stack_get, relation_contents,
    relation_new, relation_remove, relation_insert, relation_get, plan_contents, plan_new,
    plan_remove, plan_insert, plan_is_empty,
};

verus! {

broadcast use vstd::seq_lib::group_seq_properties;

/// What a STEP entity is, as far as the walk over representations goes.
pub enum EntityRole {
    /// A shape representation (advanced B-rep, plain, or manifold surface),
    /// with the ids of its items.
    Shape(Vec<usize>),
    /// A solid to mesh: a manifold solid B-rep, a B-rep with voids, or a
    /// shell-based surface model.
    Solid,
    /// Any other entity.
    Other,
}

/// Appends `v` to the list of `k`, starting an empty list if `k` has none.
pub open spec fn push_related(m: Map<usize, Seq<usize>>, k: usize, v: usize) -> Map<
    usize,
    Seq<usize>,
> {
    m.insert(k, (if m.dom().contains(k) { m[k] } else { Seq::empty() }).push(v))
}

/// The relation map that a list of (first, second) representation pairs
/// builds, pair after pair.
pub open spec fn relations_of(pairs: Seq<(usize, usize)>) -> Map<usize, Seq<usize>>
    decreases pairs.len(),
{
    if pairs.len() == 0 {
        Map::empty()
    } else {
        push_related(relations_of(pairs.drop_last()), pairs.last().0, pairs.last().1)
    }
}

/// Builds the map of shape-representation relationships: the second
/// representation of each pair is listed under the first.
pub fn build_relation_map(pairs: &Vec<(usize, usize)>) -> (m: RelationMap)
    ensures
        relation_contents(m) == relations_of(pairs@),
{
    let mut m = relation_new();
    let n = pairs.len();
    let mut i: usize = 0;
    while i < n
        invariant
            n == pairs.len(),
            0 <= i <= n,
            relation_contents(m) == relations_of(pairs@.take(i as int)),
        decreases n - i,
    {
        let (a, b) = pairs[i];
        let mut list = match relation_remove(&mut m, a) {
            Some(list) => list,
            None => Vec::new(),
        };
        list.push(b);
        relation_insert(&mut m, a, list);
        i = i + 1;
        assert(pairs@.take(i as int).drop_last() =~= pairs@.take((i - 1) as int));
        assert(relation_contents(m) =~= relations_of(pairs@.take(i as int)));
    }
    assert(pairs@.take(n as int) =~= pairs@);
    m
}

/// One step of the walk over representations.
pub enum Visit {
    /// A representation is taken off the work list.
    Enter(usize),
    /// A solid is to be drawn under a chain of transforms.
    Record(usize, Seq<usize>),
    /// A representation with no child in the stack is not a shape.
    Bad(usize),
}

/// Entity `m` is a solid to mesh.
pub open spec fn is_solid(roles: Seq<EntityRole>, m: usize) -> bool {
    m < roles.len() && roles[m as int] is Solid
}

/// Every item of every shape is an entity id.
pub open spec fn items_valid(roles: Seq<EntityRole>) -> bool {
    forall|i: int, j: int|
        0 <= i < roles.len() && #[trigger] roles[i] is Shape && 0 <= j < roles[i]->0@.len()
            ==> #[trigger] roles[i]->0@[j] < roles.len()
}

/// The records of the solid items of a shape, in order, under chain `ch`.
pub open spec fn solid_records(roles: Seq<EntityRole>, items: Seq<usize>, ch: Seq<usize>) -> Seq<
    Visit,
>
    decreases items.len(),
{
    if items.len() == 0 {
        Seq::empty()
    } else {
        solid_records(roles, items.drop_last(), ch) + (if is_solid(roles, items.last()) {
            seq![Visit::Record(items.last(), ch)]
        } else {
            Seq::empty()
        })
    }
}

/// What reaching `n` under chain `ch` gives by itself: nothing when `n` has
/// children in the stack; else the records of the solid items of `n` when
/// it is a shape; else a bad leaf.
pub open spec fn own_visits(
    st: Map<usize, Seq<(usize, usize)>>,
    roles: Seq<EntityRole>,
    n: usize,
    ch: Seq<usize>,
) -> Seq<Visit> {
    if st.dom().contains(n) {
        Seq::empty()
    } else if n < roles.len() && roles[n as int] is Shape {
        solid_records(roles, roles[n as int]->0@, ch)
    } else {
        seq![Visit::Bad(n)]
    }
}

/// The representations related to `n`.
pub open spec fn rel_children(rel: Map<usize, Seq<usize>>, n: usize) -> Seq<usize> {
    if rel.dom().contains(n) {
        rel[n]
    } else {
        Seq::empty()
    }
}

/// The entries that reaching `n` under `ch` puts on the work list: the
/// related representations under the same chain, then the children in the
/// stack, each under the chain extended by the handle of its transform.
pub open spec fn pushed(
    rel: Map<usize, Seq<usize>>,
    st: Map<usize, Seq<(usize, usize)>>,
    n: usize,
    ch: Seq<usize>,
) -> Seq<(usize, Seq<usize>)> {
    rel_children(rel, n).map_values(|c: usize| (c, ch)) + (if st.dom().contains(n) {
        st[n].map_values(|e: (usize, usize)| (e.0, ch.push(e.1)))
    } else {
        Seq::empty()
    })
}

/// `c` has a rank, lower than `r`.
pub open spec fn below(rank: spec_fn(usize) -> Option<nat>, c: usize, r: nat) -> bool {
    rank(c) is Some && rank(c)->0 < r
}

/// `rank` ranks the part of the graph that the walk from `roots` reaches:
/// every root has a rank; every ranked node is an entity id, and its related
/// representations and its children in the stack have lower ranks. Such a
/// rank exists exactly when the walk reaches no cycle and no id of
/// `nroles` or more (see `walk_is_unbounded`).
pub open spec fn ranked(
    rank: spec_fn(usize) -> Option<nat>,
    rel: Map<usize, Seq<usize>>,
    st: Map<usize, Seq<(usize, usize)>>,
    nroles: nat,
    roots: Seq<usize>,
) -> bool {
    &&& forall|i: int| 0 <= i < roots.len() ==> (#[trigger] rank(roots[i])) is Some
    &&& forall|n: usize| #[trigger]
        rank(n) is Some ==> {
            &&& n < nroles
            &&& forall|j: int|
                0 <= j < rel_children(rel, n).len() ==> below(
                    rank,
                    #[trigger] rel_children(rel, n)[j],
                    rank(n)->0,
                )
            &&& st.dom().contains(n) ==> forall|j: int|
                0 <= j < st[n].len() ==> below(rank, (#[trigger] st[n][j]).0, rank(n)->0)
        }
}

/// The rank of `n`, zero when it has none.
pub open spec fn rank_of(rank: spec_fn(usize) -> Option<nat>, n: usize) -> nat {
    match rank(n) {
        Some(r) => r,
        None => 0,
    }
}

/// The steps of the walk from `n` under chain `ch`: `n` is entered, gives
/// its own records, then the entries it pushed are walked, the last pushed
/// first.
pub open spec fn node_visits(
    rank: spec_fn(usize) -> Option<nat>,
    rel: Map<usize, Seq<usize>>,
    st: Map<usize, Seq<(usize, usize)>>,
    roles: Seq<EntityRole>,
    n: usize,
    ch: Seq<usize>,
) -> Seq<Visit>
    decreases rank_of(rank, n), 1nat, 0nat,
{
    if rank(n) is Some {
        seq![Visit::Enter(n)] + own_visits(st, roles, n, ch) + list_visits(
            rank,
            rel,
            st,
            roles,
            rank_of(rank, n),
            pushed(rel, st, n, ch),
        )
    } else {
        seq![Visit::Enter(n)]
    }
}

/// The steps of the walk over a work list whose entries rank below `bound`,
/// taken from the end.
pub open spec fn list_visits(
    rank: spec_fn(usize) -> Option<nat>,
    rel: Map<usize, Seq<usize>>,
    st: Map<usize, Seq<(usize, usize)>>,
    roles: Seq<EntityRole>,
    bound: nat,
    work: Seq<(usize, Seq<usize>)>,
) -> Seq<Visit>
    decreases bound, 0nat, work.len(),
{
    if work.len() == 0 {
        Seq::empty()
    } else {
        (if below(rank, work.last().0, bound) {
            node_visits(rank, rel, st, roles, work.last().0, work.last().1)
        } else {
            Seq::empty()
        }) + list_visits(rank, rel, st, roles, bound, work.drop_last())
    }
}

/// The steps of the walk over a work list, taken from the end.
pub open spec fn work_visits(
    rank: spec_fn(usize) -> Option<nat>,
    rel: Map<usize, Seq<usize>>,
    st: Map<usize, Seq<(usize, usize)>>,
    roles: Seq<EntityRole>,
    work: Seq<(usize, Seq<usize>)>,
) -> Seq<Visit>
    decreases work.len(),
{
    if work.len() == 0 {
        Seq::empty()
    } else {
        node_visits(rank, rel, st, roles, work.last().0, work.last().1) + work_visits(
            rank,
            rel,
            st,
            roles,
            work.drop_last(),
        )
    }
}

/// The work list the walk starts from: each root under the empty chain.
pub open spec fn start(roots: Seq<usize>) -> Seq<(usize, Seq<usize>)> {
    roots.map_values(|n: usize| (n, Seq::<usize>::empty()))
}

/// The steps of the whole walk from `roots`, under a ranking of the reached
/// graph (any ranking gives the same steps: `lemma_walk_ranking_independent`).
pub open spec fn walk(
    rel: Map<usize, Seq<usize>>,
    st: Map<usize, Seq<(usize, usize)>>,
    roles: Seq<EntityRole>,
    roots: Seq<usize>,
) -> Seq<Visit> {
    let rank = choose|rank: spec_fn(usize) -> Option<nat>|
        ranked(rank, rel, st, roles.len(), roots);
    work_visits(rank, rel, st, roles, start(roots))
}

/// No step is a bad leaf.
pub open spec fn bad_free(vs: Seq<Visit>) -> bool {
    forall|i: int| 0 <= i < vs.len() ==> !(#[trigger] vs[i] is Bad)
}

/// The first bad leaf of the steps is `n`.
pub open spec fn first_bad(vs: Seq<Visit>, n: usize) -> bool {
    exists|i: int| 0 <= i < vs.len() && #[trigger] vs[i] == Visit::Bad(n) && bad_free(vs.take(i))
}

/// Appends chain `ch` to the chains of `k`, starting an empty list if `k`
/// has none.
pub open spec fn push_chain(m: Map<usize, Seq<Seq<usize>>>, k: usize, ch: Seq<usize>) -> Map<
    usize,
    Seq<Seq<usize>>,
> {
    m.insert(k, (if m.dom().contains(k) { m[k] } else { Seq::empty() }).push(ch))
}

/// The plan that the records among the steps build, in order.
pub open spec fn plan_of(vs: Seq<Visit>) -> Map<usize, Seq<Seq<usize>>>
    decreases vs.len(),
{
    if vs.len() == 0 {
        Map::empty()
    } else {
        match vs.last() {
            Visit::Record(s, ch) => push_chain(plan_of(vs.drop_last()), s, ch),
            _ => plan_of(vs.drop_last()),
        }
    }
}

/// Every solid of the file, each drawn once, untransformed.
pub open spec fn fallback_plan(roles: Seq<EntityRole>) -> Map<usize, Seq<Seq<usize>>> {
    Map::new(|i: usize| is_solid(roles, i), |i: usize| seq![Seq::<usize>::empty()])
}

/// The plan of the walk; when the walk records no solid, every solid of the
/// file drawn once, untransformed.
pub open spec fn final_plan(vs: Seq<Visit>, roles: Seq<EntityRole>) -> Map<usize, Seq<Seq<usize>>> {
    if plan_of(vs).dom() =~= Set::empty() {
        fallback_plan(roles)
    } else {
        plan_of(vs)
    }
}

proof fn lemma_list_is_work(
    rank: spec_fn(usize) -> Option<nat>,
    rel: Map<usize, Seq<usize>>,
    st: Map<usize, Seq<(usize, usize)>>,
    roles: Seq<EntityRole>,
    bound: nat,
    work: Seq<(usize, Seq<usize>)>,
)
    requires
        forall|i: int| 0 <= i < work.len() ==> below(rank, (#[trigger] work[i]).0, bound),
    ensures
        list_visits(rank, rel, st, roles, bound, work) == work_visits(rank, rel, st, roles, work),
    decreases work.len(),
{
    if work.len() > 0 {
        assert(below(rank, work[work.len() - 1].0, bound));
        lemma_list_is_work(rank, rel, st, roles, bound, work.drop_last());
    }
}

proof fn lemma_work_concat(
    rank: spec_fn(usize) -> Option<nat>,
    rel: Map<usize, Seq<usize>>,
    st: Map<usize, Seq<(usize, usize)>>,
    roles: Seq<EntityRole>,
    a: Seq<(usize, Seq<usize>)>,
    b: Seq<(usize, Seq<usize>)>,
)
    ensures
        work_visits(rank, rel, st, roles, a + b) == work_visits(rank, rel, st, roles, b)
            + work_visits(rank, rel, st, roles, a),
    decreases b.len(),
{
    if b.len() == 0 {
        assert(a + b =~= a);
    } else {
        lemma_work_concat(rank, rel, st, roles, a, b.drop_last());
        assert((a + b).drop_last() =~= a + b.drop_last());
        assert((a + b).last() == b.last());
    }
}

fn plan_push(plan: &mut MeshPlan, k: usize, ch: Vec<usize>)
    ensures
        plan_contents(*final(plan)) == push_chain(plan_contents(*old(plan)), k, ch@),
{
    let ghost before = plan_contents(*plan);
    let mut list = match plan_remove(plan, k) {
        Some(list) => list,
        None => Vec::new(),
    };
    let ghost old_list = list@;
    list.push(ch);
    assert(list@.map_values(|c: Vec<usize>| c@) =~= old_list.map_values(|c: Vec<usize>| c@).push(
        ch@,
    ));
    plan_insert(plan, k, list);
    assert(plan_contents(*plan) =~= push_chain(before, k, ch@));
}

pub(crate) fn copy_chain(ch: &Vec<usize>) -> (r: Vec<usize>)
    ensures
        r@ == ch@,
{
    let mut r: Vec<usize> = Vec::new();
    let n = ch.len();
    let mut i: usize = 0;
    while i < n
        invariant
            n == ch.len(),
            0 <= i <= n,
            r@ == ch@.take(i as int),
        decreases n - i,
    {
        r.push(ch[i]);
        i = i + 1;
        assert(r@ =~= ch@.take(i as int));
    }
    assert(ch@.take(n as int) =~= ch@);
    r
}

/// The work list as the walk sees it: each entry with its chain by view.
pub open spec fn work_view(work: Seq<(usize, Vec<usize>)>) -> Seq<(usize, Seq<usize>)> {
    work.map_values(|e: (usize, Vec<usize>)| (e.0, e.1@))
}


/// Every entry of the work list has a rank.
pub open spec fn all_ranked(rank: spec_fn(usize) -> Option<nat>, work: Seq<(usize, Seq<usize>)>) -> bool {
    forall|k: int| 0 <= k < work.len() ==> (#[trigger] rank(work[k].0)) is Some
}

proof fn lemma_all_ranked_concat(
    rank: spec_fn(usize) -> Option<nat>,
    a: Seq<(usize, Seq<usize>)>,
    b: Seq<(usize, Seq<usize>)>,
)
    requires
        all_ranked(rank, a),
        all_ranked(rank, b),
    ensures
        all_ranked(rank, a + b),
{
    assert forall|k: int| 0 <= k < (a + b).len() implies (#[trigger] rank((a + b)[k].0)) is Some by {
        if k < a.len() {
            assert((a + b)[k] == a[k]);
        } else {
            assert((a + b)[k] == b[k - a.len()]);
        }
    }
}

proof fn lemma_records_bad_free(roles: Seq<EntityRole>, items: Seq<usize>, ch: Seq<usize>)
    ensures
        bad_free(solid_records(roles, items, ch)),
    decreases items.len(),
{
    if items.len() > 0 {
        lemma_records_bad_free(roles, items.drop_last(), ch);
        let a = solid_records(roles, items.drop_last(), ch);
        let s = solid_records(roles, items, ch);
        assert forall|i: int| 0 <= i < s.len() implies !(#[trigger] s[i] is Bad) by {
            if i < a.len() {
                assert(s[i] == a[i]);
            }
        }
    }
}

proof fn lemma_bad_free_extend(done: Seq<Visit>, n: usize, own: Seq<Visit>)
    requires
        bad_free(done),
        bad_free(own),
    ensures
        bad_free(done + seq![Visit::Enter(n)] + own),
{
    let d = done + seq![Visit::Enter(n)] + own;
    assert forall|i: int| 0 <= i < d.len() implies !(#[trigger] d[i] is Bad) by {
        if i < done.len() {
            assert(d[i] == done[i]);
        } else if i > done.len() {
            assert(d[i] == own[i - done.len() - 1]);
        }
    }
}

proof fn lemma_first_bad(all: Seq<Visit>, done: Seq<Visit>, n: usize, tail: Seq<Visit>)
    requires
        bad_free(done),
        all == done + seq![Visit::Enter(n), Visit::Bad(n)] + tail,
    ensures
        first_bad(all, n),
{
    let q = done.len() as int + 1;
    assert(all[q] == Visit::Bad(n));
    assert(all.take(q) =~= done.push(Visit::Enter(n)));
    assert forall|i: int| 0 <= i < all.take(q).len() implies !(#[trigger] all.take(q)[i] is Bad) by {
        if i < done.len() {
            assert(all.take(q)[i] == done[i]);
        }
    }
}

proof fn lemma_step(
    rank: spec_fn(usize) -> Option<nat>,
    rel: Map<usize, Seq<usize>>,
    st: Map<usize, Seq<(usize, usize)>>,
    roles: Seq<EntityRole>,
    roots: Seq<usize>,
    rest: Seq<(usize, Seq<usize>)>,
    n: usize,
    ch: Seq<usize>,
)
    requires
        ranked(rank, rel, st, roles.len(), roots),
        rank(n) is Some,
    ensures
        work_visits(rank, rel, st, roles, rest.push((n, ch))) == seq![Visit::Enter(n)]
            + own_visits(st, roles, n, ch) + work_visits(rank, rel, st, roles, rest + pushed(rel, st, n, ch)),
        all_ranked(rank, pushed(rel, st, n, ch)),
{
    let pl = pushed(rel, st, n, ch);
    let r = rank_of(rank, n);
    let kids = rel_children(rel, n);
    assert(rest.push((n, ch)).drop_last() =~= rest);
    assert forall|q: int| 0 <= q < pl.len() implies below(rank, (#[trigger] pl[q]).0, r) by {
        if q < kids.len() {
            assert(pl[q].0 == kids[q]);
        } else {
            assert(pl[q].0 == st[n][q - kids.len()].0);
        }
    }
    lemma_list_is_work(rank, rel, st, roles, r, pl);
    lemma_work_concat(rank, rel, st, roles, rest, pl);
    assert forall|q: int| 0 <= q < pl.len() implies (#[trigger] rank(pl[q].0)) is Some by {
        assert(below(rank, pl[q].0, r));
    }
}

fn push_related_entries(work: &mut Vec<(usize, Vec<usize>)>, cs: &Vec<usize>, ch: &Vec<usize>)
    ensures
        work_view(final(work)@) == work_view(old(work)@) + cs@.map_values(|c: usize| (c, ch@)),
{
    let ghost start = work_view(work@);
    let nc = cs.len();
    let mut j: usize = 0;
    while j < nc
        invariant
            nc == cs.len(),
            0 <= j <= nc,
            work_view(work@) == start + cs@.take(j as int).map_values(|c: usize| (c, ch@)),
        decreases nc - j,
    {
        let c2 = copy_chain(ch);
        let ghost t0 = work@;
        work.push((cs[j], c2));
        assert(work_view(work@) =~= work_view(t0).push((cs@[j as int], ch@)));
        assert(cs@.take(j + 1).map_values(|c: usize| (c, ch@)) =~= cs@.take(j as int).map_values(
            |c: usize| (c, ch@),
        ).push((cs@[j as int], ch@)));
        j = j + 1;
    }
    assert(cs@.take(nc as int) =~= cs@);
}

fn push_stack_entries(
    work: &mut Vec<(usize, Vec<usize>)>,
    children: &Vec<(usize, usize)>,
    ch: &Vec<usize>,
)
    ensures
        work_view(final(work)@) == work_view(old(work)@) + children@.map_values(
            |e: (usize, usize)| (e.0, ch@.push(e.1)),
        ),
{
    let ghost start = work_view(work@);
    let nc = children.len();
    let mut j: usize = 0;
    while j < nc
        invariant
            nc == children.len(),
            0 <= j <= nc,
            work_view(work@) == start + children@.take(j as int).map_values(
                |e: (usize, usize)| (e.0, ch@.push(e.1)),
            ),
        decreases nc - j,
    {
        let (c, h) = children[j];
        let mut c2 = copy_chain(ch);
        c2.push(h);
        let ghost t0 = work@;
        work.push((c, c2));
        assert(work_view(work@) =~= work_view(t0).push((c, ch@.push(h))));
        assert(children@.take(j + 1).map_values(|e: (usize, usize)| (e.0, ch@.push(e.1)))
            =~= children@.take(j as int).map_values(|e: (usize, usize)| (e.0, ch@.push(e.1))).push(
            (c, ch@.push(h)),
        ));
        j = j + 1;
    }
    assert(children@.take(nc as int) =~= children@);
}

fn record_solids(
    plan: &mut MeshPlan,
    roles: &Vec<EntityRole>,
    items: &Vec<usize>,
    ch: &Vec<usize>,
    Ghost(done): Ghost<Seq<Visit>>,
)
    requires
        plan_contents(*old(plan)) == plan_of(done),
    ensures
        plan_contents(*final(plan)) == plan_of(done + solid_records(roles@, items@, ch@)),
{
    let ni = items.len();
    let mut k: usize = 0;
    let ghost mut d = done;
    assert(items@.take(0) =~= Seq::<usize>::empty());
    assert(d =~= done + solid_records(roles@, items@.take(0), ch@));
    while k < ni
        invariant
            ni == items.len(),
            0 <= k <= ni,
            d == done + solid_records(roles@, items@.take(k as int), ch@),
            plan_contents(*plan) == plan_of(d),
        decreases ni - k,
    {
        let m = items[k];
        let ghost dk = d;
        assert(items@.take(k + 1).drop_last() =~= items@.take(k as int));
        assert(items@.take(k + 1).last() == m);
        if m < roles.len() {
            match &roles[m] {
                EntityRole::Solid => {
                    plan_push(plan, m, copy_chain(ch));
                    proof {
                        d = d.push(Visit::Record(m, ch@));
                        assert(d.drop_last() =~= dk);
                    }
                },
                _ => {},
            }
        }
        k = k + 1;
        assert(d =~= done + solid_records(roles@, items@.take(k as int), ch@));
    }
    assert(items@.take(ni as int) =~= items@);
}

fn fallback_fill(plan: &mut MeshPlan, roles: &Vec<EntityRole>)
    requires
        plan_contents(*old(plan)).dom() =~= Set::empty(),
    ensures
        plan_contents(*final(plan)) == fallback_plan(roles@),
{
    let nroles = roles.len();
    let mut i: usize = 0;
    assert(plan_contents(*plan) =~= Map::new(
        |k: usize| k < i && is_solid(roles@, k),
        |k: usize| seq![Seq::<usize>::empty()],
    ));
    while i < nroles
        invariant
            nroles == roles.len(),
            0 <= i <= nroles,
            plan_contents(*plan) == Map::new(
                |k: usize| k < i && is_solid(roles@, k),
                |k: usize| seq![Seq::<usize>::empty()],
            ),
        decreases nroles - i,
    {
        match &roles[i] {
            EntityRole::Solid => {
                plan_push(plan, i, Vec::new());
            },
            _ => {},
        }
        i = i + 1;
        assert(plan_contents(*plan) =~= Map::new(
            |k: usize| k < i && is_solid(roles@, k),
            |k: usize| seq![Seq::<usize>::empty()],
        ));
    }
    assert(plan_contents(*plan) =~= fallback_plan(roles@));
}

fn start_work(roots: &Vec<usize>) -> (work: Vec<(usize, Vec<usize>)>)
    ensures
        work_view(work@) == start(roots@),
{
    let mut work: Vec<(usize, Vec<usize>)> = Vec::new();
    let nr = roots.len();
    let mut i: usize = 0;
    while i < nr
        invariant
            nr == roots.len(),
            0 <= i <= nr,
            work_view(work@) == start(roots@.take(i as int)),
        decreases nr - i,
    {
        let ghost t0 = work@;
        work.push((roots[i], Vec::new()));
        assert(work_view(work@) =~= work_view(t0).push((roots@[i as int], Seq::<usize>::empty())));
        assert(start(roots@.take(i + 1)) =~= start(roots@.take(i as int)).push(
            (roots@[i as int], Seq::<usize>::empty()),
        ));
        i = i + 1;
    }
    assert(roots@.take(nr as int) =~= roots@);
    work
}

/// Walks the representations from the roots, depth first with a work list
/// that starts with the roots under the empty chain and is taken from the
/// end. A representation taken off the list puts its related
/// representations on the list under its own chain, then its children in
/// the stack, each under the chain extended by its transform. One with no
/// child in the stack is a leaf: if it is a shape, each of its solid items
/// is recorded under the chain; otherwise it is a bad leaf, which stops the
/// walk with `Err` when `strict` holds and is skipped when not. The plan
/// lists, for each recorded solid, its chains in the order of the records;
/// when no solid is recorded, it lists every solid of the file once, under
/// the empty chain.
#[verifier::rlimit(40)]
pub fn plan_meshes(
    stack: &TransformStack,
    relations: &RelationMap,
    roles: &Vec<EntityRole>,
    roots: &Vec<usize>,
    strict: bool,
) -> (r: Result<MeshPlan, usize>)
    requires
        exists|rank: spec_fn(usize) -> Option<nat>|
            ranked(rank, relation_contents(*relations), stack_contents(*stack), roles@.len(), roots@),
        items_valid(roles@),
    ensures
        ({
            let vs = walk(relation_contents(*relations), stack_contents(*stack), roles@, roots@);
            match r {
                Ok(p) => (!strict || bad_free(vs)) && plan_contents(p) == final_plan(vs, roles@),
                Err(n) => strict && first_bad(vs, n),
            }
        }),
{
    let ghost rel = relation_contents(*relations);
    let ghost st = stack_contents(*stack);
    let ghost rank = choose|rank: spec_fn(usize) -> Option<nat>|
        ranked(rank, rel, st, roles@.len(), roots@);
    let ghost all = work_visits(rank, rel, st, roles@, start(roots@));
    let mut work = start_work(roots);
    proof {
        assert forall|k: int| 0 <= k < work_view(work@).len() implies (#[trigger] rank(work_view(work@)[k].0)) is Some by {
            assert(work_view(work@)[k].0 == roots@[k]);
        }
    }
    let mut plan = plan_new();
    let ghost mut done: Seq<Visit> = Seq::empty();
    assert(plan_contents(plan) =~= plan_of(done));
    while work.len() > 0
        invariant
            ranked(rank, rel, st, roles@.len(), roots@),
            items_valid(roles@),
            rel == relation_contents(*relations),
            st == stack_contents(*stack),
            all_ranked(rank, work_view(work@)),
            all == walk(rel, st, roles@, roots@),
            all == done + work_visits(rank, rel, st, roles@, work_view(work@)),
            plan_contents(plan) == plan_of(done),
            strict ==> bad_free(done),
        decreases all.len() - done.len(),
    {
        let ghost work0 = work_view(work@);
        let ghost done0 = done;
        let ghost t0 = work@;
        let (n, ch) = work.pop().unwrap();
        let ghost rest = work_view(work@);
        assert(work0 =~= rest.push((n, ch@)));
        assert(rank(work0[work0.len() - 1].0) is Some);
        assert(all_ranked(rank, rest)) by {
            assert forall|k: int| 0 <= k < rest.len() implies (#[trigger] rank(rest[k].0)) is Some by {
                assert(rest[k] == work0[k]);
            }
        }
        let ghost own = own_visits(st, roles@, n, ch@);
        let ghost pl = pushed(rel, st, n, ch@);
        proof {
            lemma_step(rank, rel, st, roles@, roots@, rest, n, ch@);
        }
        match relation_get(relations, n) {
            Some(cs) => {
                push_related_entries(&mut work, cs, &ch);
            },
            None => {
                assert(rel_children(rel, n).map_values(|c: usize| (c, ch@)) =~= Seq::<
                    (usize, Seq<usize>),
                >::empty());
                assert(work_view(work@) =~= rest + rel_children(rel, n).map_values(
                    |c: usize| (c, ch@),
                ));
            },
        }
        let mut bad = false;
        match stack_get(stack, n) {
            Some(children) => {
                push_stack_entries(&mut work, children, &ch);
                assert(work_view(work@) =~= rest + pl);
                assert(own =~= Seq::<Visit>::empty());
                proof {
                    done = done.push(Visit::Enter(n));
                }
            },
            None => {
                assert(work_view(work@) =~= rest + pl);
                bad = true;
                if n < roles.len() {
                    match &roles[n] {
                        EntityRole::Shape(items) => {
                            bad = false;
                            proof {
                                done = done.push(Visit::Enter(n));
                                assert(done.drop_last() =~= done0);
                            }
                            record_solids(&mut plan, roles, items, &ch, Ghost(done));
                            proof {
                                done = done + own;
                            }
                        },
                        _ => {},
                    }
                }
                if bad {
                    proof {
                        done = done.push(Visit::Enter(n)).push(Visit::Bad(n));
                        assert(plan_of(done) == plan_of(done.drop_last()));
                        assert(done.drop_last() =~= done0.push(Visit::Enter(n)));
                    }
                }
            },
        }
        assert(done =~= done0 + seq![Visit::Enter(n)] + own);
        assert(all =~= done + work_visits(rank, rel, st, roles@, work_view(work@)));
        assert(bad ==> own =~= seq![Visit::Bad(n)]);
        if bad && strict {
            proof {
                assert(done =~= done0 + seq![Visit::Enter(n), Visit::Bad(n)]);
                lemma_first_bad(
                    all,
                    done0,
                    n,
                    work_visits(rank, rel, st, roles@, work_view(work@)),
                );
            }
            return Err(n);
        }
        proof {
            if strict && !bad {
                if !st.dom().contains(n) {
                    lemma_records_bad_free(roles@, roles@[n as int]->0@, ch@);
                }
                lemma_bad_free_extend(done0, n, own);
            }
        }
        proof {
            lemma_all_ranked_concat(rank, rest, pl);
        }
    }
    assert(work_view(work@) =~= Seq::<(usize, Seq<usize>)>::empty());
    assert(all =~= done);
    if plan_is_empty(&plan) {
        fallback_fill(&mut plan, roles);
    }
    Ok(plan)
}

/// Every record among the steps is of a solid.
pub open spec fn records_solid(roles: Seq<EntityRole>, vs: Seq<Visit>) -> bool {
    forall|i: int| 0 <= i < vs.len() ==> match #[trigger] vs[i] {
        Visit::Record(s, _) => is_solid(roles, s),
        _ => true,
    }
}

proof fn lemma_records_solid_concat(roles: Seq<EntityRole>, a: Seq<Visit>, b: Seq<Visit>)
    requires
        records_solid(roles, a),
        records_solid(roles, b),
    ensures
        records_solid(roles, a + b),
{
    assert forall|i: int| 0 <= i < (a + b).len() implies match #[trigger] (a + b)[i] {
        Visit::Record(s, _) => is_solid(roles, s),
        _ => true,
    } by {
        if i < a.len() {
            assert((a + b)[i] == a[i]);
        } else {
            assert((a + b)[i] == b[i - a.len()]);
        }
    }
}

proof fn lemma_solid_records_solid(roles: Seq<EntityRole>, items: Seq<usize>, ch: Seq<usize>)
    ensures
        records_solid(roles, solid_records(roles, items, ch)),
    decreases items.len(),
{
    if items.len() > 0 {
        lemma_solid_records_solid(roles, items.drop_last(), ch);
        let tail = if is_solid(roles, items.last()) {
            seq![Visit::Record(items.last(), ch)]
        } else {
            Seq::empty()
        };
        assert(records_solid(roles, tail)) by {
            assert forall|i: int| 0 <= i < tail.len() implies match #[trigger] tail[i] {
                Visit::Record(s, _) => is_solid(roles, s),
                _ => true,
            } by {
                assert(tail[i] == Visit::Record(items.last(), ch));
            }
        }
        lemma_records_solid_concat(roles, solid_records(roles, items.drop_last(), ch), tail);
    }
}

proof fn lemma_node_records_solid(
    rank: spec_fn(usize) -> Option<nat>,
    rel: Map<usize, Seq<usize>>,
    st: Map<usize, Seq<(usize, usize)>>,
    roles: Seq<EntityRole>,
    n: usize,
    ch: Seq<usize>,
)
    ensures
        records_solid(roles, node_visits(rank, rel, st, roles, n, ch)),
    decreases rank_of(rank, n), 1nat, 0nat,
{
    let e = seq![Visit::Enter(n)];
    assert(records_solid(roles, e)) by {
        assert forall|i: int| 0 <= i < e.len() implies match #[trigger] e[i] {
            Visit::Record(s, _) => is_solid(roles, s),
            _ => true,
        } by {
            assert(e[i] == Visit::Enter(n));
        }
    }
    if rank(n) is Some {
        let own = own_visits(st, roles, n, ch);
        if !st.dom().contains(n) && n < roles.len() && roles[n as int] is Shape {
            lemma_solid_records_solid(roles, roles[n as int]->0@, ch);
        } else if !st.dom().contains(n) {
            assert forall|i: int| 0 <= i < own.len() implies match #[trigger] own[i] {
                Visit::Record(s, _) => is_solid(roles, s),
                _ => true,
            } by {
                assert(own[i] == Visit::Bad(n));
            }
        }
        lemma_list_records_solid(rank, rel, st, roles, rank_of(rank, n), pushed(rel, st, n, ch));
        lemma_records_solid_concat(roles, e, own);
        lemma_records_solid_concat(
            roles,
            e + own,
            list_visits(rank, rel, st, roles, rank_of(rank, n), pushed(rel, st, n, ch)),
        );
    }
}

proof fn lemma_list_records_solid(
    rank: spec_fn(usize) -> Option<nat>,
    rel: Map<usize, Seq<usize>>,
    st: Map<usize, Seq<(usize, usize)>>,
    roles: Seq<EntityRole>,
    bound: nat,
    work: Seq<(usize, Seq<usize>)>,
)
    ensures
        records_solid(roles, list_visits(rank, rel, st, roles, bound, work)),
    decreases bound, 0nat, work.len(),
{
    if work.len() > 0 {
        lemma_list_records_solid(rank, rel, st, roles, bound, work.drop_last());
        if below(rank, work.last().0, bound) {
            lemma_node_records_solid(rank, rel, st, roles, work.last().0, work.last().1);
            lemma_records_solid_concat(
                roles,
                node_visits(rank, rel, st, roles, work.last().0, work.last().1),
                list_visits(rank, rel, st, roles, bound, work.drop_last()),
            );
        } else {
            assert(list_visits(rank, rel, st, roles, bound, work) =~= list_visits(
                rank,
                rel,
                st,
                roles,
                bound,
                work.drop_last(),
            ));
        }
    }
}

proof fn lemma_work_records_solid(
    rank: spec_fn(usize) -> Option<nat>,
    rel: Map<usize, Seq<usize>>,
    st: Map<usize, Seq<(usize, usize)>>,
    roles: Seq<EntityRole>,
    work: Seq<(usize, Seq<usize>)>,
)
    ensures
        records_solid(roles, work_visits(rank, rel, st, roles, work)),
    decreases work.len(),
{
    if work.len() > 0 {
        lemma_work_records_solid(rank, rel, st, roles, work.drop_last());
        lemma_node_records_solid(rank, rel, st, roles, work.last().0, work.last().1);
        lemma_records_solid_concat(
            roles,
            node_visits(rank, rel, st, roles, work.last().0, work.last().1),
            work_visits(rank, rel, st, roles, work.drop_last()),
        );
    }
}

proof fn lemma_plan_of_solid(roles: Seq<EntityRole>, vs: Seq<Visit>, k: usize)
    requires
        records_solid(roles, vs),
    ensures
        plan_of(vs).dom().contains(k) ==> is_solid(roles, k) && plan_of(vs)[k].len() > 0,
    decreases vs.len(),
{
    if vs.len() > 0 {
        let p = vs.drop_last();
        assert(records_solid(roles, p)) by {
            assert forall|i: int| 0 <= i < p.len() implies match #[trigger] p[i] {
                Visit::Record(s, _) => is_solid(roles, s),
                _ => true,
            } by {
                assert(p[i] == vs[i]);
            }
        }
        lemma_plan_of_solid(roles, p, k);
        let last = vs[vs.len() - 1];
        assert(match last {
            Visit::Record(s, _) => is_solid(roles, s),
            _ => true,
        });
    }
}

/// Only solids are ever meshed, each under at least one chain: every key
/// of the plan that the walk gives is a manifold solid B-rep, a B-rep with
/// voids or a shell-based surface model, and lists at least one chain.
pub proof fn lemma_plan_only_solids(
    rel: Map<usize, Seq<usize>>,
    st: Map<usize, Seq<(usize, usize)>>,
    roles: Seq<EntityRole>,
    roots: Seq<usize>,
    k: usize,
)
    ensures
        final_plan(walk(rel, st, roles, roots), roles).dom().contains(k) ==> is_solid(roles, k)
            && final_plan(walk(rel, st, roles, roots), roles)[k].len() > 0,
{
    let rank = choose|rank: spec_fn(usize) -> Option<nat>|
        ranked(rank, rel, st, roles.len(), roots);
    let vs = walk(rel, st, roles, roots);
    lemma_work_records_solid(rank, rel, st, roles, start(roots));
    lemma_plan_of_solid(roles, vs, k);
}

proof fn lemma_node_visits_same(
    r1: spec_fn(usize) -> Option<nat>,
    r2: spec_fn(usize) -> Option<nat>,
    rel: Map<usize, Seq<usize>>,
    st: Map<usize, Seq<(usize, usize)>>,
    roles: Seq<EntityRole>,
    roots: Seq<usize>,
    n: usize,
    ch: Seq<usize>,
)
    requires
        ranked(r1, rel, st, roles.len(), roots),
        ranked(r2, rel, st, roles.len(), roots),
        r1(n) is Some,
        r2(n) is Some,
    ensures
        node_visits(r1, rel, st, roles, n, ch) == node_visits(r2, rel, st, roles, n, ch),
    decreases rank_of(r1, n), 1nat, 0nat,
{
    let pl = pushed(rel, st, n, ch);
    let kids = rel_children(rel, n);
    assert forall|q: int| 0 <= q < pl.len() implies below(r1, (#[trigger] pl[q]).0, rank_of(r1, n))
        && below(r2, pl[q].0, rank_of(r2, n)) by {
        if q < kids.len() {
            assert(pl[q].0 == kids[q]);
        } else {
            assert(pl[q].0 == st[n][q - kids.len()].0);
        }
    }
    lemma_list_is_work(r1, rel, st, roles, rank_of(r1, n), pl);
    lemma_list_is_work(r2, rel, st, roles, rank_of(r2, n), pl);
    lemma_list_visits_same(r1, r2, rel, st, roles, roots, rank_of(r1, n), pl);
}

proof fn lemma_list_visits_same(
    r1: spec_fn(usize) -> Option<nat>,
    r2: spec_fn(usize) -> Option<nat>,
    rel: Map<usize, Seq<usize>>,
    st: Map<usize, Seq<(usize, usize)>>,
    roles: Seq<EntityRole>,
    roots: Seq<usize>,
    bound: nat,
    work: Seq<(usize, Seq<usize>)>,
)
    requires
        ranked(r1, rel, st, roles.len(), roots),
        ranked(r2, rel, st, roles.len(), roots),
        forall|q: int|
            0 <= q < work.len() ==> below(r1, (#[trigger] work[q]).0, bound) && r2(work[q].0) is Some,
    ensures
        work_visits(r1, rel, st, roles, work) == work_visits(r2, rel, st, roles, work),
    decreases bound, 0nat, work.len(),
{
    if work.len() > 0 {
        let last = work[work.len() - 1];
        assert(below(r1, last.0, bound));
        lemma_node_visits_same(r1, r2, rel, st, roles, roots, last.0, last.1);
        lemma_list_visits_same(r1, r2, rel, st, roles, roots, bound, work.drop_last());
    }
}

/// The steps of the walk do not depend on the ranking that defines them:
/// any two rankings of the graph reached from the roots give the same
/// steps.
pub proof fn lemma_walk_ranking_independent(
    r1: spec_fn(usize) -> Option<nat>,
    r2: spec_fn(usize) -> Option<nat>,
    rel: Map<usize, Seq<usize>>,
    st: Map<usize, Seq<(usize, usize)>>,
    roles: Seq<EntityRole>,
    roots: Seq<usize>,
)
    requires
        ranked(r1, rel, st, roles.len(), roots),
        ranked(r2, rel, st, roles.len(), roots),
    ensures
        work_visits(r1, rel, st, roles, start(roots)) == work_visits(r2, rel, st, roles, start(roots)),
{
    lemma_work_same(r1, r2, rel, st, roles, roots, start(roots));
}

proof fn lemma_work_same(
    r1: spec_fn(usize) -> Option<nat>,
    r2: spec_fn(usize) -> Option<nat>,
    rel: Map<usize, Seq<usize>>,
    st: Map<usize, Seq<(usize, usize)>>,
    roles: Seq<EntityRole>,
    roots: Seq<usize>,
    work: Seq<(usize, Seq<usize>)>,
)
    requires
        ranked(r1, rel, st, roles.len(), roots),
        ranked(r2, rel, st, roles.len(), roots),
        work.len() <= roots.len(),
        forall|q: int| 0 <= q < work.len() ==> (#[trigger] work[q]).0 == roots[q],
    ensures
        work_visits(r1, rel, st, roles, work) == work_visits(r2, rel, st, roles, work),
    decreases work.len(),
{
    if work.len() > 0 {
        let q = work.len() - 1;
        assert(work[q].0 == roots[q]);
        assert(r1(roots[q]) is Some && r2(roots[q]) is Some);
        lemma_node_visits_same(r1, r2, rel, st, roles, roots, work[q].0, work[q].1);
        lemma_work_same(r1, r2, rel, st, roles, roots, work.drop_last());
    }
}

/// `ns[0] -> ns[1] -> ... -> ns[k]` is a path down the stack: each
/// `ns[i + 1]` is a child of `ns[i]` in the stack under the transform with
/// handle `hs[i]`.
pub open spec fn stack_path(
    st: Map<usize, Seq<(usize, usize)>>,
    ns: Seq<usize>,
    hs: Seq<usize>,
) -> bool {
    &&& ns.len() == hs.len() + 1
    &&& forall|i: int|
        0 <= i < hs.len() ==> st.dom().contains(#[trigger] ns[i]) && st[ns[i]].contains(
            (ns[i + 1], hs[i]),
        )
}

/// `n` is a leaf of the stack that is a shape holding the solid `s`.
pub open spec fn shape_leaf_with(
    st: Map<usize, Seq<(usize, usize)>>,
    roles: Seq<EntityRole>,
    n: usize,
    s: usize,
) -> bool {
    &&& !st.dom().contains(n)
    &&& n < roles.len()
    &&& roles[n as int] is Shape
    &&& roles[n as int]->0@.contains(s)
    &&& is_solid(roles, s)
}

proof fn lemma_solid_recorded(roles: Seq<EntityRole>, items: Seq<usize>, ch: Seq<usize>, s: usize)
    requires
        items.contains(s),
        is_solid(roles, s),
    ensures
        solid_records(roles, items, ch).contains(Visit::Record(s, ch)),
    decreases items.len(),
{
    let v = Visit::Record(s, ch);
    let rest = solid_records(roles, items.drop_last(), ch);
    let tail = if is_solid(roles, items.last()) {
        seq![Visit::Record(items.last(), ch)]
    } else {
        Seq::empty()
    };
    vstd::seq_lib::lemma_seq_concat_contains_all_elements(rest, tail, v);
    if items.last() == s {
        assert(tail[0] == v);
    } else {
        let i = choose|i: int| 0 <= i < items.len() && items[i] == s;
        assert(items.drop_last()[i] == s);
        lemma_solid_recorded(roles, items.drop_last(), ch, s);
    }
}

proof fn lemma_path_ranked(
    rank: spec_fn(usize) -> Option<nat>,
    rel: Map<usize, Seq<usize>>,
    st: Map<usize, Seq<(usize, usize)>>,
    nroles: nat,
    roots: Seq<usize>,
    ns: Seq<usize>,
    hs: Seq<usize>,
    j: int,
)
    requires
        ranked(rank, rel, st, nroles, roots),
        stack_path(st, ns, hs),
        rank(ns[0]) is Some,
        0 <= j < ns.len(),
    ensures
        rank(ns[j]) is Some,
    decreases j,
{
    if j > 0 {
        lemma_path_ranked(rank, rel, st, nroles, roots, ns, hs, j - 1);
        let p = ns[j - 1];
        assert(st.dom().contains(ns[j - 1]));
        let e = (ns[j], hs[j - 1]);
        let idx = choose|i: int| 0 <= i < st[p].len() && st[p][i] == e;
        assert(rank(p) is Some);
        assert(below(rank, st[p][idx].0, rank(p)->0));
    }
}

proof fn lemma_work_contains(
    rank: spec_fn(usize) -> Option<nat>,
    rel: Map<usize, Seq<usize>>,
    st: Map<usize, Seq<(usize, usize)>>,
    roles: Seq<EntityRole>,
    work: Seq<(usize, Seq<usize>)>,
    q: int,
    v: Visit,
)
    requires
        0 <= q < work.len(),
        node_visits(rank, rel, st, roles, work[q].0, work[q].1).contains(v),
    ensures
        work_visits(rank, rel, st, roles, work).contains(v),
    decreases work.len(),
{
    let a = node_visits(rank, rel, st, roles, work.last().0, work.last().1);
    let b = work_visits(rank, rel, st, roles, work.drop_last());
    vstd::seq_lib::lemma_seq_concat_contains_all_elements(a, b, v);
    if q < work.len() - 1 {
        assert(work.drop_last()[q] == work[q]);
        lemma_work_contains(rank, rel, st, roles, work.drop_last(), q, v);
    }
}

proof fn lemma_path_visits(
    rank: spec_fn(usize) -> Option<nat>,
    rel: Map<usize, Seq<usize>>,
    st: Map<usize, Seq<(usize, usize)>>,
    roles: Seq<EntityRole>,
    roots: Seq<usize>,
    ns: Seq<usize>,
    hs: Seq<usize>,
    s: usize,
    j: int,
    ch: Seq<usize>,
)
    requires
        ranked(rank, rel, st, roles.len(), roots),
        stack_path(st, ns, hs),
        rank(ns[0]) is Some,
        shape_leaf_with(st, roles, ns.last(), s),
        0 <= j < ns.len(),
    ensures
        node_visits(rank, rel, st, roles, ns[j], ch).contains(
            Visit::Record(s, ch + hs.subrange(j, hs.len() as int)),
        ),
    decreases ns.len() - j,
{
    lemma_path_ranked(rank, rel, st, roles.len(), roots, ns, hs, j);
    let n = ns[j];
    let v = Visit::Record(s, ch + hs.subrange(j, hs.len() as int));
    let own = own_visits(st, roles, n, ch);
    let pl = pushed(rel, st, n, ch);
    let lv = list_visits(rank, rel, st, roles, rank_of(rank, n), pl);
    assert(node_visits(rank, rel, st, roles, n, ch) == seq![Visit::Enter(n)] + own + lv);
    vstd::seq_lib::lemma_seq_concat_contains_all_elements(seq![Visit::Enter(n)] + own, lv, v);
    vstd::seq_lib::lemma_seq_concat_contains_all_elements(seq![Visit::Enter(n)], own, v);
    if j == hs.len() {
        assert(ch + hs.subrange(j, hs.len() as int) =~= ch);
        lemma_solid_recorded(roles, roles[n as int]->0@, ch, s);
    } else {
        let ch2 = ch.push(hs[j]);
        lemma_path_visits(rank, rel, st, roles, roots, ns, hs, s, j + 1, ch2);
        assert(ch2 + hs.subrange(j + 1, hs.len() as int) =~= ch + hs.subrange(j, hs.len() as int));
        assert(st.dom().contains(ns[j]));
        let kids = rel_children(rel, n);
        let idx = choose|i: int| 0 <= i < st[n].len() && st[n][i] == (ns[j + 1], hs[j]);
        let q = kids.len() + idx;
        assert(pl[q] == (ns[j + 1], ch2));
        assert forall|i: int| 0 <= i < pl.len() implies below(
            rank,
            (#[trigger] pl[i]).0,
            rank_of(rank, n),
        ) by {
            if i < kids.len() {
                assert(pl[i].0 == kids[i]);
            } else {
                assert(pl[i].0 == st[n][i - kids.len()].0);
            }
        }
        lemma_list_is_work(rank, rel, st, roles, rank_of(rank, n), pl);
        lemma_work_contains(rank, rel, st, roles, pl, q, v);
    }
}

proof fn lemma_recorded_planned(vs: Seq<Visit>, s: usize, c: Seq<usize>)
    requires
        vs.contains(Visit::Record(s, c)),
    ensures
        plan_of(vs).dom().contains(s),
        plan_of(vs)[s].contains(c),
    decreases vs.len(),
{
    let i = choose|i: int| 0 <= i < vs.len() && vs[i] == Visit::Record(s, c);
    let prev = plan_of(vs.drop_last());
    if i == vs.len() - 1 {
        let old_list = if prev.dom().contains(s) { prev[s] } else { Seq::empty() };
        assert(plan_of(vs)[s] == old_list.push(c));
        assert(plan_of(vs)[s][old_list.len() as int] == c);
    } else {
        assert(vs.drop_last()[i] == Visit::Record(s, c));
        lemma_recorded_planned(vs.drop_last(), s, c);
        match vs.last() {
            Visit::Record(s2, c2) => {
                if s2 == s {
                    assert(plan_of(vs)[s] == prev[s].push(c2));
                    let k = choose|k: int| 0 <= k < prev[s].len() && prev[s][k] == c;
                    assert(plan_of(vs)[s][k] == c);
                }
            },
            _ => {},
        }
    }
}

/// Every solid of a shape at the end of a path down the stack is meshed
/// under that path's chain of transforms, from the root down: when the
/// walk starts from a root `ns[0]` and goes down the stack through
/// `ns[1]`, ..., `ns[k]` along transforms with handles `hs[0]`, ...,
/// `hs[k - 1]`, and `ns[k]` is a leaf of the stack that is a shape holding
/// the solid `s`, the plan lists `s` with the chain `hs` among its chains,
/// the top assembly's transform first.
pub proof fn lemma_path_chain_planned(
    rel: Map<usize, Seq<usize>>,
    st: Map<usize, Seq<(usize, usize)>>,
    roles: Seq<EntityRole>,
    roots: Seq<usize>,
    ns: Seq<usize>,
    hs: Seq<usize>,
    s: usize,
)
    requires
        exists|rank: spec_fn(usize) -> Option<nat>| ranked(rank, rel, st, roles.len(), roots),
        roots.contains(ns[0]),
        stack_path(st, ns, hs),
        shape_leaf_with(st, roles, ns.last(), s),
    ensures
        final_plan(walk(rel, st, roles, roots), roles).dom().contains(s),
        final_plan(walk(rel, st, roles, roots), roles)[s].contains(hs),
{
    let rank = choose|rank: spec_fn(usize) -> Option<nat>|
        ranked(rank, rel, st, roles.len(), roots);
    let vs = walk(rel, st, roles, roots);
    let r = choose|i: int| 0 <= i < roots.len() && roots[i] == ns[0];
    assert(rank(roots[r]) is Some);
    lemma_path_visits(rank, rel, st, roles, roots, ns, hs, s, 0, Seq::empty());
    assert(Seq::<usize>::empty() + hs.subrange(0, hs.len() as int) =~= hs);
    assert(start(roots)[r] == (ns[0], Seq::<usize>::empty()));
    lemma_work_contains(rank, rel, st, roles, start(roots), r, Visit::Record(s, hs));
    lemma_recorded_planned(vs, s, hs);
    assert(!(plan_of(vs).dom() =~= Set::empty())) by {
        assert(plan_of(vs).dom().contains(s));
    }
}

} // verus!
