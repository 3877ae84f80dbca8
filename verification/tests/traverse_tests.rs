use foxtrot_mesh::transform::{
    build_transform_stack, oriented_transform_stack, transform_stack_roots, MappedLink,
};
use foxtrot_mesh::cycles::{plan_meshes_checked, walk_is_unbounded};
use foxtrot_mesh::traverse::{build_relation_map, plan_meshes, EntityRole};

fn link(source: usize, target: usize, transform: usize) -> MappedLink {
    MappedLink { source, target, transform }
}

fn sorted(mut v: Vec<usize>) -> Vec<usize> {
    v.sort();
    v
}

#[test]
fn stack_lists_children_in_order() {
    let links = vec![link(0, 1, 10), link(0, 2, 11), link(1, 3, 12)];
    let stack = build_transform_stack(&links, false);
    assert_eq!(stack.get(&0), Some(&vec![(1, 10), (2, 11)]));
    assert_eq!(stack.get(&1), Some(&vec![(3, 12)]));
    assert_eq!(stack.get(&2), None);
    assert_eq!(stack.len(), 2);
}

#[test]
fn flipped_stack_reverses_edges() {
    let links = vec![link(0, 1, 10), link(0, 2, 11), link(1, 3, 12)];
    let stack = build_transform_stack(&links, true);
    assert_eq!(stack.get(&1), Some(&vec![(0, 10)]));
    assert_eq!(stack.get(&2), Some(&vec![(0, 11)]));
    assert_eq!(stack.get(&3), Some(&vec![(1, 12)]));
    assert_eq!(stack.get(&0), None);
}

#[test]
fn roots_are_parents_that_are_nobodys_child() {
    let links = vec![link(0, 1, 10), link(0, 2, 11), link(1, 3, 12), link(5, 6, 13)];
    let stack = build_transform_stack(&links, false);
    assert_eq!(sorted(transform_stack_roots(&stack)), vec![0, 5]);
}

#[test]
fn roots_of_empty_stack() {
    let stack = build_transform_stack(&vec![], false);
    assert!(transform_stack_roots(&stack).is_empty());
}

#[test]
fn orientation_keeps_single_root() {
    let links = vec![link(0, 1, 10), link(0, 2, 11)];
    let (stack, roots) = oriented_transform_stack(&links);
    assert_eq!(roots, vec![0]);
    assert_eq!(stack.get(&0), Some(&vec![(1, 10), (2, 11)]));
}

#[test]
fn orientation_flips_when_many_roots() {
    // Read forwards, 1 and 2 are both roots; read backwards, 0 is the root.
    let links = vec![link(1, 0, 10), link(2, 0, 11)];
    let (stack, roots) = oriented_transform_stack(&links);
    assert_eq!(roots, vec![0]);
    assert_eq!(stack.get(&0), Some(&vec![(1, 10), (2, 11)]));
}

#[test]
fn relation_map_groups_pairs() {
    let m = build_relation_map(&vec![(4, 5), (4, 6), (7, 8)]);
    assert_eq!(m.get(&4), Some(&vec![5, 6]));
    assert_eq!(m.get(&7), Some(&vec![8]));
    assert_eq!(m.get(&5), None);
}

/// Entities: 0 assembly (shape with no solid), 1 and 2 parts (shapes),
/// 3 and 4 solids, 5 an axis placement.
fn assembly_roles() -> Vec<EntityRole> {
    vec![
        EntityRole::Shape(vec![5]),
        EntityRole::Shape(vec![3, 5]),
        EntityRole::Shape(vec![4]),
        EntityRole::Solid,
        EntityRole::Solid,
        EntityRole::Other,
    ]
}

#[test]
fn plan_follows_transform_chains() {
    let links = vec![link(0, 1, 100), link(0, 2, 101), link(0, 1, 102)];
    let (stack, roots) = oriented_transform_stack(&links);
    let relations = build_relation_map(&vec![]);
    let plan = plan_meshes(&stack, &relations, &assembly_roles(), &roots, true).unwrap();
    assert_eq!(plan.len(), 2);
    // Children are pushed in order and taken from the end: the second copy
    // of part 1 is recorded before the first.
    assert_eq!(plan.get(&3), Some(&vec![vec![102], vec![100]]));
    assert_eq!(plan.get(&4), Some(&vec![vec![101]]));
}

#[test]
fn plan_follows_relations_under_same_chain() {
    let links = vec![link(0, 1, 100)];
    let (stack, roots) = oriented_transform_stack(&links);
    let relations = build_relation_map(&vec![(1, 2)]);
    let plan = plan_meshes(&stack, &relations, &assembly_roles(), &roots, true).unwrap();
    assert_eq!(plan.get(&3), Some(&vec![vec![100]]));
    assert_eq!(plan.get(&4), Some(&vec![vec![100]]));
}

#[test]
fn strict_walk_stops_at_bad_leaf() {
    // Entity 5 is no shape, and it is a leaf of the stack.
    let links = vec![link(0, 5, 100), link(0, 1, 101)];
    let (stack, roots) = oriented_transform_stack(&links);
    let relations = build_relation_map(&vec![]);
    let r = plan_meshes(&stack, &relations, &assembly_roles(), &roots, true);
    assert_eq!(r.err(), Some(5));
}

#[test]
fn lenient_walk_skips_bad_leaf() {
    let links = vec![link(0, 5, 100), link(0, 1, 101)];
    let (stack, roots) = oriented_transform_stack(&links);
    let relations = build_relation_map(&vec![]);
    let plan = plan_meshes(&stack, &relations, &assembly_roles(), &roots, false).unwrap();
    assert_eq!(plan.len(), 1);
    assert_eq!(plan.get(&3), Some(&vec![vec![101]]));
}

#[test]
fn plan_falls_back_to_every_solid() {
    // No transform stack and no root: nothing is recorded, so every solid
    // is drawn once, untransformed.
    let (stack, roots) = oriented_transform_stack(&vec![]);
    let relations = build_relation_map(&vec![]);
    let plan = plan_meshes(&stack, &relations, &assembly_roles(), &roots, true).unwrap();
    assert_eq!(plan.len(), 2);
    assert_eq!(plan.get(&3), Some(&vec![vec![]]));
    assert_eq!(plan.get(&4), Some(&vec![vec![]]));
    assert_eq!(plan.get(&0), None);
}

#[test]
fn plan_holds_only_solids() {
    let links = vec![link(0, 1, 100), link(0, 2, 101)];
    let (stack, roots) = oriented_transform_stack(&links);
    let relations = build_relation_map(&vec![(0, 2)]);
    let roles = assembly_roles();
    let plan = plan_meshes(&stack, &relations, &roles, &roots, false).unwrap();
    for (k, chains) in plan.iter() {
        assert!(matches!(roles[*k], EntityRole::Solid));
        assert!(!chains.is_empty());
    }
    assert_eq!(plan.get(&4), Some(&vec![vec![101], vec![]]));
}

#[test]
fn assembly_walk_is_bounded() {
    let links = vec![link(0, 1, 100), link(0, 2, 101), link(0, 1, 102)];
    let (stack, roots) = oriented_transform_stack(&links);
    let relations = build_relation_map(&vec![(1, 2)]);
    assert!(!walk_is_unbounded(&stack, &relations, 6, &roots));
}

#[test]
fn cycle_makes_walk_unbounded() {
    // 0 -> 1 in the stack, and 1 -> 0 through a relationship.
    let links = vec![link(0, 1, 100)];
    let (stack, roots) = oriented_transform_stack(&links);
    let relations = build_relation_map(&vec![(1, 0)]);
    assert!(walk_is_unbounded(&stack, &relations, 6, &roots));
}

#[test]
fn missing_entity_makes_walk_unbounded() {
    let links = vec![link(0, 9, 100)];
    let (stack, roots) = oriented_transform_stack(&links);
    let relations = build_relation_map(&vec![]);
    assert!(walk_is_unbounded(&stack, &relations, 6, &roots));
    assert!(walk_is_unbounded(&stack, &relations, 0, &roots));
}

#[test]
fn unreachable_cycle_is_harmless() {
    let links = vec![link(0, 1, 100)];
    let (stack, roots) = oriented_transform_stack(&links);
    let relations = build_relation_map(&vec![(3, 4), (4, 3)]);
    assert!(!walk_is_unbounded(&stack, &relations, 6, &roots));
}

#[test]
fn both_orientations_hold_every_edge() {
    let links = vec![link(0, 1, 10), link(0, 2, 11), link(1, 2, 12), link(3, 2, 13)];
    let plain = build_transform_stack(&links, false);
    let flipped = build_transform_stack(&links, true);
    let total = |m: &foxtrot_mesh::maps::TransformStack| m.values().map(|v| v.len()).sum::<usize>();
    assert_eq!(total(&plain), 4);
    assert_eq!(total(&flipped), 4);
}

#[test]
fn checked_plan_refuses_unbounded_walks() {
    let links = vec![link(0, 1, 100)];
    let (stack, roots) = oriented_transform_stack(&links);
    let cyclic = build_relation_map(&vec![(1, 0)]);
    assert!(plan_meshes_checked(&stack, &cyclic, &assembly_roles(), &roots, true).is_none());
    let mut bad_roles = assembly_roles();
    bad_roles[1] = EntityRole::Shape(vec![42]);
    let relations = build_relation_map(&vec![]);
    assert!(plan_meshes_checked(&stack, &relations, &bad_roles, &roots, true).is_none());
    let plan = plan_meshes_checked(&stack, &relations, &assembly_roles(), &roots, true)
        .unwrap()
        .unwrap();
    assert_eq!(plan.get(&3), Some(&vec![vec![100]]));
}
