use vstd::prelude::*;
use crate::error::Error;

verus! {

/// Counters kept while triangulating a model.
#[derive(Clone, Copy, Debug, PartialEq, Eq, Structural)]
pub struct Stats {
    pub num_shells: usize,
    pub num_faces: usize,
    pub num_errors: usize,
    pub num_panics: usize,
}

impl Stats {
    /// All counters at zero.
    pub fn new() -> (s: Stats)
        ensures
            s == Stats::zero(),
    {
        Stats { num_shells: 0, num_faces: 0, num_errors: 0, num_panics: 0 }
    }

    pub open spec fn zero() -> Stats {
        Stats { num_shells: 0, num_faces: 0, num_errors: 0, num_panics: 0 }
    }

    /// No counter of the sum of `a` and `b` overflows.
    pub open spec fn can_combine(a: Stats, b: Stats) -> bool {
        &&& a.num_shells + b.num_shells <= usize::MAX
        &&& a.num_faces + b.num_faces <= usize::MAX
        &&& a.num_errors + b.num_errors <= usize::MAX
        &&& a.num_panics + b.num_panics <= usize::MAX
    }

    pub open spec fn sum(a: Stats, b: Stats) -> Stats {
        Stats {
            num_shells: (a.num_shells + b.num_shells) as usize,
            num_faces: (a.num_faces + b.num_faces) as usize,
            num_errors: (a.num_errors + b.num_errors) as usize,
            num_panics: (a.num_panics + b.num_panics) as usize,
        }
    }

    /// Adds the counters of two partial runs.
    pub fn combine(a: Stats, b: Stats) -> (s: Stats)
        requires
            Stats::can_combine(a, b),
        ensures
            s == Stats::sum(a, b),
    {
        Stats {
            num_shells: a.num_shells + b.num_shells,
            num_faces: a.num_faces + b.num_faces,
            num_errors: a.num_errors + b.num_errors,
            num_panics: a.num_panics + b.num_panics,
        }
    }
}

/// A face that failed with `e` counts as an error when it could not be
/// lowered to 2D or lies on an unknown kind of surface, and as a panic
/// otherwise.
pub open spec fn spec_is_error(e: Error) -> bool {
    e == Error::CouldNotLower || e == Error::UnknownSurfaceType
}

impl Stats {
    /// Counts one face: `None` when it was triangulated, `Some(e)` when it
    /// failed with `e`.
    pub fn count_face(&mut self, outcome: Option<Error>)
        requires
            old(self).num_faces < usize::MAX,
            old(self).num_errors < usize::MAX,
            old(self).num_panics < usize::MAX,
        ensures
            final(self).num_shells == old(self).num_shells,
            final(self).num_faces == old(self).num_faces + 1,
            final(self).num_errors == old(self).num_errors + (if outcome matches Some(e)
                && spec_is_error(e) {
                1int
            } else {
                0
            }),
            final(self).num_panics == old(self).num_panics + (if outcome matches Some(e)
                && !spec_is_error(e) {
                1int
            } else {
                0
            }),
    {
        self.num_faces = self.num_faces + 1;
        match outcome {
            None => {},
            Some(Error::CouldNotLower) | Some(Error::UnknownSurfaceType) => {
                self.num_errors = self.num_errors + 1;
            },
            Some(_) => {
                self.num_panics = self.num_panics + 1;
            },
        }
    }
}

/// Adding the counters of partial runs does not depend on their order:
/// `combine` is commutative, associative and has zero as identity.
pub proof fn lemma_stats_combine_laws(a: Stats, b: Stats, c: Stats)
    ensures
        Stats::can_combine(a, b) ==> Stats::can_combine(b, a) && Stats::sum(a, b) == Stats::sum(b, a),
        Stats::can_combine(Stats::zero(), a) && Stats::sum(Stats::zero(), a) == a,
        Stats::can_combine(a, b) && Stats::can_combine(Stats::sum(a, b), c) ==> {
            &&& Stats::can_combine(b, c)
            &&& Stats::can_combine(a, Stats::sum(b, c))
            &&& Stats::sum(Stats::sum(a, b), c) == Stats::sum(a, Stats::sum(b, c))
        },
{
}

/// What became of one face task of a GPU batch.
#[derive(Clone, Copy, Debug, PartialEq, Eq, Structural)]
pub enum TaskOutcome {
    /// The face could not be found in the file.
    Missing,
    /// The face's surface could not be read.
    BadSurface,
    /// The face could not be triangulated.
    Failed,
    /// The face was triangulated into no vertex.
    Empty,
    /// The face was triangulated, but lowering it on the GPU failed, which
    /// also leaves it with no surface coordinates.
    LowerFailed,
    /// The face was triangulated, but the GPU lowered it to no surface
    /// coordinates.
    NoUvs,
    /// The face was triangulated, but raising and transforming it on the
    /// GPU failed.
    RaiseFailed,
    /// The face was triangulated and, where it had transforms, placed by
    /// the GPU.
    Meshed,
}

/// The errors a task adds: one when its face, surface or mesh could not be
/// had, or when the GPU gave no surface coordinates or failed to raise it;
/// two when lowering failed (the failure itself, then the missing surface
/// coordinates).
pub open spec fn task_error_weight(o: TaskOutcome) -> nat {
    match o {
        TaskOutcome::Missing | TaskOutcome::BadSurface | TaskOutcome::Failed => 1,
        TaskOutcome::NoUvs | TaskOutcome::RaiseFailed => 1,
        TaskOutcome::LowerFailed => 2,
        TaskOutcome::Empty | TaskOutcome::Meshed => 0,
    }
}

/// The number of errors of a batch of tasks.
pub open spec fn task_errors(os: Seq<TaskOutcome>) -> nat
    decreases os.len(),
{
    if os.len() == 0 {
        0
    } else {
        task_errors(os.drop_last()) + task_error_weight(os.last())
    }
}

proof fn lemma_task_errors_bound(os: Seq<TaskOutcome>)
    ensures
        task_errors(os) <= 2 * os.len(),
    decreases os.len(),
{
    if os.len() > 0 {
        lemma_task_errors_bound(os.drop_last());
    }
}

/// The counters of a GPU batch: one face per task, the errors that each
/// task adds, and no shell or panic.
pub fn batch_stats(outcomes: &Vec<TaskOutcome>) -> (s: Stats)
    requires
        2 * outcomes.len() <= usize::MAX,
    ensures
        s == (Stats {
            num_shells: 0,
            num_faces: outcomes.len(),
            num_errors: task_errors(outcomes@) as usize,
            num_panics: 0,
        }),
{
    let n = outcomes.len();
    let mut errors: usize = 0;
    let mut i: usize = 0;
    while i < n
        invariant
            n == outcomes.len(),
            0 <= i <= n,
            2 * n <= usize::MAX,
            errors == task_errors(outcomes@.take(i as int)),
        decreases n - i,
    {
        proof {
            lemma_task_errors_bound(outcomes@.take(i as int));
        }
        let o = outcomes[i];
        assert(outcomes@.take(i + 1).drop_last() =~= outcomes@.take(i as int));
        match o {
            TaskOutcome::Missing | TaskOutcome::BadSurface | TaskOutcome::Failed
            | TaskOutcome::NoUvs | TaskOutcome::RaiseFailed => {
                errors = errors + 1;
            },
            TaskOutcome::LowerFailed => {
                errors = errors + 2;
            },
            _ => {},
        }
        i = i + 1;
    }
    assert(outcomes@.take(n as int) =~= outcomes@);
    Stats { num_shells: 0, num_faces: n, num_errors: errors, num_panics: 0 }
}

/// The failures of a file's faces that count as errors: under the split
/// rule, the faces that could not be lowered or lie on an unknown surface;
/// otherwise every failed face.
pub open spec fn face_errors(os: Seq<Option<Error>>, all_errors: bool) -> nat
    decreases os.len(),
{
    if os.len() == 0 {
        0
    } else {
        face_errors(os.drop_last(), all_errors) + (if os.last() matches Some(e) && (all_errors
            || spec_is_error(e)) {
            1nat
        } else {
            0nat
        })
    }
}

/// The failures of a file's faces that count as panics: under the split
/// rule, every other failed face; otherwise none.
pub open spec fn face_panics(os: Seq<Option<Error>>, all_errors: bool) -> nat
    decreases os.len(),
{
    if os.len() == 0 {
        0
    } else {
        face_panics(os.drop_last(), all_errors) + (if os.last() matches Some(e) && !all_errors
            && !spec_is_error(e) {
            1nat
        } else {
            0nat
        })
    }
}

proof fn lemma_face_counts_bound(os: Seq<Option<Error>>, all_errors: bool)
    ensures
        face_errors(os, all_errors) + face_panics(os, all_errors) <= os.len(),
    decreases os.len(),
{
    if os.len() > 0 {
        lemma_face_counts_bound(os.drop_last(), all_errors);
    }
}

/// The counters of a file: one shell per solid meshed, one face per face
/// task, and each failed face counted as an error or a panic, `None`
/// standing for a face that was triangulated. With `all_errors`, every
/// failure is an error; otherwise the faces that could not be lowered or
/// lie on an unknown surface are errors and the rest are panics.
pub fn file_stats(solids: usize, outcomes: &Vec<Option<Error>>, all_errors: bool) -> (s: Stats)
    ensures
        s == (Stats {
            num_shells: solids,
            num_faces: outcomes.len(),
            num_errors: face_errors(outcomes@, all_errors) as usize,
            num_panics: face_panics(outcomes@, all_errors) as usize,
        }),
{
    let n = outcomes.len();
    let mut s = Stats { num_shells: solids, num_faces: 0, num_errors: 0, num_panics: 0 };
    let mut i: usize = 0;
    while i < n
        invariant
            n == outcomes.len(),
            0 <= i <= n,
            s == (Stats {
                num_shells: solids,
                num_faces: i,
                num_errors: face_errors(outcomes@.take(i as int), all_errors) as usize,
                num_panics: face_panics(outcomes@.take(i as int), all_errors) as usize,
            }),
            face_errors(outcomes@.take(i as int), all_errors) + face_panics(
                outcomes@.take(i as int),
                all_errors,
            ) <= i,
        decreases n - i,
    {
        proof {
            lemma_face_counts_bound(outcomes@.take(i + 1), all_errors);
        }
        assert(outcomes@.take(i + 1).drop_last() =~= outcomes@.take(i as int));
        let o = outcomes[i];
        if all_errors {
            match o {
                Some(_) => {
                    s.num_errors = s.num_errors + 1;
                },
                None => {},
            }
            s.num_faces = s.num_faces + 1;
        } else {
            s.count_face(o);
        }
        i = i + 1;
    }
    assert(outcomes@.take(n as int) =~= outcomes@);
    s
}

} // verus!
