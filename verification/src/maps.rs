use vstd::prelude::*;
use ahash::AHashMap;

verus! {

#[verifier::external_type_specification]
#[verifier::external_body]
#[verifier::reject_recursive_types(K)]
#[verifier::reject_recursive_types(V)]
#[verifier::reject_recursive_types(S)]
pub struct ExAHashMap<K, V, S>(AHashMap<K, V, S>);

#[verifier::external_type_specification]
#[verifier::external_body]
pub struct ExRandomState(ahash::RandomState);

/// A transform stack: for each parent representation, its children, each
/// with the handle of the transform that places it.
pub type TransformStack = AHashMap<usize, Vec<Link>>;

/// A child representation with the handle of its transform.
pub type Link = (usize, usize);

/// What a transform stack holds: for each parent representation, its
/// children in insertion order, each with the handle of the transform that
/// places it.
pub uninterp spec fn stack_contents(m: TransformStack) -> Map<
    usize,
    Seq<(usize, usize)>,
>;

/// Calls `ahash::AHashMap::new`: the new map holds no entry.
#[verifier::external_body]
pub(crate) fn stack_new() -> (r: TransformStack)
    ensures
        stack_contents(r) =~= Map::empty(),
{
    AHashMap::new()
}

/// Calls `ahash::AHashMap::remove`: the entry of `k`, if any, leaves the map
/// and is handed back.
#[verifier::external_body]
pub(crate) fn stack_remove(m: &mut TransformStack, k: usize) -> (r: Option<Vec<Link>>)
    ensures
        stack_contents(*final(m)) == stack_contents(*old(m)).remove(k),
        match r {
            Some(v) => stack_contents(*old(m)).dom().contains(k) && v@ == stack_contents(*old(m))[k],
            None => !stack_contents(*old(m)).dom().contains(k),
        },
{
    m.remove(&k)
}

/// Calls `ahash::AHashMap::insert`: `k` now maps to `v`.
#[verifier::external_body]
pub(crate) fn stack_insert(m: &mut TransformStack, k: usize, v: Vec<Link>)
    ensures
        stack_contents(*final(m)) == stack_contents(*old(m)).insert(k, v@),
{
    m.insert(k, v);
}

/// Calls `ahash::AHashMap::get`: the entry of `k`, if any.
#[verifier::external_body]
pub(crate) fn stack_get(m: &TransformStack, k: usize) -> (r: Option<&Vec<Link>>)
    ensures
        match r {
            Some(v) => stack_contents(*m).dom().contains(k) && v@ == stack_contents(*m)[k],
            None => !stack_contents(*m).dom().contains(k),
        },
{
    m.get(&k)
}

/// Collects the keys of the map through `HashMap::keys`, in the order in
/// which the map walks them; that order depends on the map's random seed and
/// is not stated.
#[verifier::external_body]
pub(crate) fn stack_keys(m: &TransformStack) -> (r: Vec<usize>)
    ensures
        r@.no_duplicates(),
        r@.to_set() == stack_contents(*m).dom(),
{
    m.keys().copied().collect()
}


/// For each representation, the representations that shape-representation
/// relationships attach to it.
pub type RelationMap = AHashMap<usize, Vec<usize>>;

/// What a relation map holds: for each representation, the representations
/// related to it, in insertion order.
pub uninterp spec fn relation_contents(m: RelationMap) -> Map<usize, Seq<usize>>;

/// Calls `ahash::AHashMap::new`: the new map holds no entry.
#[verifier::external_body]
pub(crate) fn relation_new() -> (r: RelationMap)
    ensures
        relation_contents(r) =~= Map::empty(),
{
    AHashMap::new()
}

/// Calls `ahash::AHashMap::remove`: the entry of `k`, if any, leaves the map
/// and is handed back.
#[verifier::external_body]
pub(crate) fn relation_remove(m: &mut RelationMap, k: usize) -> (r: Option<Vec<usize>>)
    ensures
        relation_contents(*final(m)) == relation_contents(*old(m)).remove(k),
        match r {
            Some(v) => relation_contents(*old(m)).dom().contains(k) && v@ == relation_contents(
                *old(m),
            )[k],
            None => !relation_contents(*old(m)).dom().contains(k),
        },
{
    m.remove(&k)
}

/// Calls `ahash::AHashMap::insert`: `k` now maps to `v`.
#[verifier::external_body]
pub(crate) fn relation_insert(m: &mut RelationMap, k: usize, v: Vec<usize>)
    ensures
        relation_contents(*final(m)) == relation_contents(*old(m)).insert(k, v@),
{
    m.insert(k, v);
}

/// Calls `ahash::AHashMap::get`: the entry of `k`, if any.
#[verifier::external_body]
pub(crate) fn relation_get(m: &RelationMap, k: usize) -> (r: Option<&Vec<usize>>)
    ensures
        match r {
            Some(v) => relation_contents(*m).dom().contains(k) && v@ == relation_contents(*m)[k],
            None => !relation_contents(*m).dom().contains(k),
        },
{
    m.get(&k)
}

/// The solids to mesh: for each solid, the transform chains under which a
/// copy of it is drawn, each chain the handles of its transforms from the
/// root down.
pub type MeshPlan = AHashMap<usize, Vec<Vec<usize>>>;

/// What a mesh plan holds: for each solid, its transform chains in
/// insertion order, each chain as a sequence of transform handles.
pub uninterp spec fn plan_contents(m: MeshPlan) -> Map<usize, Seq<Seq<usize>>>;

/// Calls `ahash::AHashMap::new`: the new map holds no entry.
#[verifier::external_body]
pub(crate) fn plan_new() -> (r: MeshPlan)
    ensures
        plan_contents(r) =~= Map::empty(),
{
    AHashMap::new()
}

/// Calls `ahash::AHashMap::remove`: the entry of `k`, if any, leaves the map
/// and is handed back, each chain taken by its view.
#[verifier::external_body]
pub(crate) fn plan_remove(m: &mut MeshPlan, k: usize) -> (r: Option<Vec<Vec<usize>>>)
    ensures
        plan_contents(*final(m)) == plan_contents(*old(m)).remove(k),
        match r {
            Some(v) => plan_contents(*old(m)).dom().contains(k) && v@.map_values(
                |c: Vec<usize>| c@,
            ) == plan_contents(*old(m))[k],
            None => !plan_contents(*old(m)).dom().contains(k),
        },
{
    m.remove(&k)
}

/// Calls `ahash::AHashMap::insert`: `k` now maps to `v`, each chain taken by
/// its view.
#[verifier::external_body]
pub(crate) fn plan_insert(m: &mut MeshPlan, k: usize, v: Vec<Vec<usize>>)
    ensures
        plan_contents(*final(m)) == plan_contents(*old(m)).insert(
            k,
            v@.map_values(|c: Vec<usize>| c@),
        ),
{
    m.insert(k, v);
}

/// Calls `HashMap::is_empty`, which the map reaches through its `Deref`:
/// whether the map holds no entry.
#[verifier::external_body]
pub(crate) fn plan_is_empty(m: &MeshPlan) -> (r: bool)
    ensures
        r <==> plan_contents(*m).dom() =~= Set::empty(),
{
    m.is_empty()
}

} // verus!
