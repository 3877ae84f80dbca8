use foxtrot_mesh::files::is_batch_step_file;
use foxtrot_mesh::mesh::{Mesh, Triangle};
use foxtrot_mesh::error::Error;
use foxtrot_mesh::stats::{batch_stats, file_stats, Stats, TaskOutcome};

fn chars(s: &str) -> Vec<char> {
    s.chars().collect()
}

#[test]
fn batch_stats_count_failures() {
    let outcomes = vec![
        TaskOutcome::Meshed,
        TaskOutcome::Missing,
        TaskOutcome::Empty,
        TaskOutcome::BadSurface,
        TaskOutcome::Failed,
        TaskOutcome::Meshed,
    ];
    assert_eq!(
        batch_stats(&outcomes),
        Stats { num_shells: 0, num_faces: 6, num_errors: 3, num_panics: 0 }
    );
    assert_eq!(batch_stats(&vec![]), Stats::new());
}

#[test]
fn combine_all_appends_in_order() {
    let t = |x, y, z| Triangle { x, y, z };
    let parts = vec![
        Mesh { verts: vec![1u8, 2, 3], triangles: vec![t(0, 1, 2)] },
        Mesh { verts: vec![4u8, 5], triangles: vec![t(0, 1, 1)] },
        Mesh { verts: vec![6u8, 7, 8], triangles: vec![t(2, 1, 0), t(0, 0, 1)] },
    ];
    let m = Mesh::combine_all(parts);
    assert_eq!(m.verts, vec![1, 2, 3, 4, 5, 6, 7, 8]);
    assert_eq!(m.triangles, vec![t(0, 1, 2), t(3, 4, 4), t(7, 6, 5), t(5, 5, 6)]);
    let empty: Mesh<u8> = Mesh::combine_all(vec![]);
    assert!(empty.verts.is_empty() && empty.triangles.is_empty());
}

#[test]
fn batch_files_are_step_files() {
    assert!(is_batch_step_file(&chars("../examples/part.step"), &Some(chars("step"))));
    assert!(is_batch_step_file(&chars("./examples/PART.STP"), &Some(chars("STP"))));
    assert!(is_batch_step_file(&chars("./examples/a.StEp"), &Some(chars("StEp"))));
    assert!(!is_batch_step_file(&chars("./examples/a.stl"), &Some(chars("stl"))));
    assert!(!is_batch_step_file(&chars("./examples/README"), &None));
    assert!(!is_batch_step_file(&chars("../examples/sphere.step"), &Some(chars("step"))));
    assert!(is_batch_step_file(&chars("./examples/sphere.step"), &Some(chars("step"))));
}

#[test]
fn batch_stats_count_gpu_failures() {
    let outcomes = vec![TaskOutcome::LowerFailed, TaskOutcome::NoUvs, TaskOutcome::RaiseFailed];
    assert_eq!(
        batch_stats(&outcomes),
        Stats { num_shells: 0, num_faces: 3, num_errors: 4, num_panics: 0 }
    );
}

#[test]
fn file_stats_follow_the_failure_rule() {
    let outcomes = vec![
        None,
        Some(Error::CouldNotLower),
        Some(Error::CrossingFixedEdge),
        Some(Error::UnknownSurfaceType),
        None,
    ];
    assert_eq!(
        file_stats(2, &outcomes, false),
        Stats { num_shells: 2, num_faces: 5, num_errors: 2, num_panics: 1 }
    );
    assert_eq!(
        file_stats(2, &outcomes, true),
        Stats { num_shells: 2, num_faces: 5, num_errors: 3, num_panics: 0 }
    );
}
