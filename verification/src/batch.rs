use vstd::prelude::*;
use crate::mesh::{Triangle, replicated, tris_fit, lemma_fit_smaller, push_shifted};

verus! {

/// The sum of the first `i` counts.
pub open spec fn prefix_sum(counts: Seq<usize>, i: int) -> int
    decreases i,
{
    if i <= 0 {
        0
    } else {
        prefix_sum(counts, i - 1) + counts[i - 1]
    }
}

proof fn lemma_prefix_sum_monotone(counts: Seq<usize>, i: int, j: int)
    requires
        0 <= i <= j <= counts.len(),
    ensures
        0 <= prefix_sum(counts, i) <= prefix_sum(counts, j),
    decreases j,
{
    if i < j {
        lemma_prefix_sum_monotone(counts, i, j - 1);
    } else {
        if i > 0 {
            lemma_prefix_sum_monotone(counts, 0, i - 1);
        }
    }
}

/// The owner list of a batch: entry `k` is the number of the face whose
/// vertices hold position `k` of the batch.
pub open spec fn owners(counts: Seq<usize>) -> Seq<u32>
    decreases counts.len(),
{
    if counts.len() == 0 {
        Seq::empty()
    } else {
        let i = counts.len() - 1;
        owners(counts.drop_last()) + Seq::new(counts[i] as nat, |k: int| i as u32)
    }
}

/// Lays out the vertices of many faces one after the other in a single
/// buffer: the offset of each face's first vertex, and for every vertex the
/// number of its face (both kept to their low 32 bits).
pub fn batch_layout(counts: &Vec<usize>) -> (r: (Vec<u32>, Vec<u32>))
    requires
        prefix_sum(counts@, counts.len() as int) <= usize::MAX,
    ensures
        r.0@ == Seq::new(counts.len() as nat, |i: int| prefix_sum(counts@, i) as u32),
        r.1@ == owners(counts@),
        r.1@.len() == prefix_sum(counts@, counts.len() as int),
{
    let n = counts.len();
    let mut offsets: Vec<u32> = Vec::new();
    let mut faces: Vec<u32> = Vec::new();
    let mut total: usize = 0;
    let mut i: usize = 0;
    while i < n
        invariant
            n == counts.len(),
            prefix_sum(counts@, n as int) <= usize::MAX,
            0 <= i <= n,
            total == prefix_sum(counts@, i as int),
            offsets@ == Seq::new(i as nat, |j: int| prefix_sum(counts@, j) as u32),
            faces@ == owners(counts@.take(i as int)),
            faces@.len() == total,
        decreases n - i,
    {
        proof {
            lemma_prefix_sum_monotone(counts@, i + 1, n as int);
        }
        offsets.push(total as u32);
        let c = counts[i];
        let ghost before = faces@;
        let mut k: usize = 0;
        while k < c
            invariant
                0 <= k <= c,
                faces@ == before + Seq::new(k as nat, |kk: int| i as u32),
            decreases c - k,
        {
            faces.push(i as u32);
            k = k + 1;
            assert(faces@ =~= before + Seq::new(k as nat, |kk: int| i as u32));
        }
        total = total + c;
        i = i + 1;
        assert(counts@.take(i as int).drop_last() =~= counts@.take((i - 1) as int));
        assert(offsets@ =~= Seq::new(i as nat, |j: int| prefix_sum(counts@, j) as u32));
    }
    assert(counts@.take(n as int) =~= counts@);
    (offsets, faces)
}

/// How many copies a face gets: one per transform, and one (untransformed)
/// when it has none.
pub open spec fn copy_count(transforms: int) -> int {
    if transforms == 0 {
        1
    } else {
        transforms
    }
}

/// Where the data of one face sits in a batch.
#[derive(Clone, Copy, Debug, PartialEq, Eq, Structural)]
pub struct FaceSlot {
    pub start_index: usize,
    pub vertex_count: usize,
    pub transforms_start: usize,
    pub transforms_count: usize,
}

/// A face in a batch: its vertex count and the handles of its transforms.
pub struct FaceEntry {
    pub vertex_count: usize,
    pub transforms: Vec<usize>,
}

pub open spec fn vertex_counts(faces: Seq<FaceEntry>) -> Seq<usize> {
    faces.map_values(|f: FaceEntry| f.vertex_count)
}

pub open spec fn copy_counts(faces: Seq<FaceEntry>) -> Seq<usize> {
    faces.map_values(|f: FaceEntry| copy_count(f.transforms.len() as int) as usize)
}

/// The transform list of a batch: each face's transforms in turn, with an
/// identity (`None`) standing in for a face that has none.
pub open spec fn batch_transforms(faces: Seq<FaceEntry>) -> Seq<Option<usize>>
    decreases faces.len(),
{
    if faces.len() == 0 {
        Seq::empty()
    } else {
        let f = faces.last();
        batch_transforms(faces.drop_last()) + (if f.transforms.len() == 0 {
            seq![None]
        } else {
            f.transforms@.map_values(|h: usize| Some(h))
        })
    }
}

proof fn lemma_batch_transforms_len(faces: Seq<FaceEntry>)
    ensures
        batch_transforms(faces).len() == prefix_sum(copy_counts(faces), faces.len() as int),
    decreases faces.len(),
{
    if faces.len() > 0 {
        let p = faces.drop_last();
        lemma_batch_transforms_len(p);
        assert(copy_counts(p) =~= copy_counts(faces).drop_last());
        lemma_prefix_sum_prefix(copy_counts(faces), copy_counts(p), p.len() as int);
    }
}

proof fn lemma_prefix_sum_prefix(a: Seq<usize>, b: Seq<usize>, i: int)
    requires
        0 <= i <= b.len() <= a.len(),
        forall|j: int| 0 <= j < b.len() ==> a[j] == b[j],
    ensures
        prefix_sum(a, i) == prefix_sum(b, i),
    decreases i,
{
    if i > 0 {
        lemma_prefix_sum_prefix(a, b, i - 1);
    }
}

/// Gathers the faces of a batch into one layout: where each face's
/// vertices and transforms start, and the flat list of transforms.
pub fn batch_slots(faces: &Vec<FaceEntry>) -> (r: (Vec<FaceSlot>, Vec<Option<usize>>))
    requires
        prefix_sum(vertex_counts(faces@), faces.len() as int) <= usize::MAX,
        prefix_sum(copy_counts(faces@), faces.len() as int) <= usize::MAX,
    ensures
        r.0@.len() == faces.len(),
        forall|i: int|
            0 <= i < faces.len() ==> #[trigger] r.0@[i] == (FaceSlot {
                start_index: prefix_sum(vertex_counts(faces@), i) as usize,
                vertex_count: faces@[i].vertex_count,
                transforms_start: prefix_sum(copy_counts(faces@), i) as usize,
                transforms_count: copy_count(faces@[i].transforms.len() as int) as usize,
            }),
        r.1@ == batch_transforms(faces@),
{
    let n = faces.len();
    let ghost vc = vertex_counts(faces@);
    let ghost cc = copy_counts(faces@);
    let mut slots: Vec<FaceSlot> = Vec::new();
    let mut handles: Vec<Option<usize>> = Vec::new();
    let mut vstart: usize = 0;
    let mut tstart: usize = 0;
    let mut i: usize = 0;
    while i < n
        invariant
            n == faces.len(),
            vc == vertex_counts(faces@),
            cc == copy_counts(faces@),
            prefix_sum(vc, n as int) <= usize::MAX,
            prefix_sum(cc, n as int) <= usize::MAX,
            0 <= i <= n,
            vstart == prefix_sum(vc, i as int),
            tstart == prefix_sum(cc, i as int),
            slots@.len() == i,
            forall|j: int|
                0 <= j < i ==> #[trigger] slots@[j] == (FaceSlot {
                    start_index: prefix_sum(vc, j) as usize,
                    vertex_count: faces@[j].vertex_count,
                    transforms_start: prefix_sum(cc, j) as usize,
                    transforms_count: copy_count(faces@[j].transforms.len() as int) as usize,
                }),
            handles@ == batch_transforms(faces@.take(i as int)),
        decreases n - i,
    {
        proof {
            lemma_prefix_sum_monotone(vc, i + 1, n as int);
            lemma_prefix_sum_monotone(cc, i + 1, n as int);
        }
        let f = &faces[i];
        let count: usize = if f.transforms.len() == 0 {
            1
        } else {
            f.transforms.len()
        };
        slots.push(
            FaceSlot {
                start_index: vstart,
                vertex_count: f.vertex_count,
                transforms_start: tstart,
                transforms_count: count,
            },
        );
        let ghost before = handles@;
        if f.transforms.len() == 0 {
            handles.push(None);
        } else {
            let m = f.transforms.len();
            let mut k: usize = 0;
            while k < m
                invariant
                    m == f.transforms.len(),
                    0 <= k <= m,
                    handles@ == before + f.transforms@.take(k as int).map_values(|h: usize| Some(h)),
                decreases m - k,
            {
                handles.push(Some(f.transforms[k]));
                k = k + 1;
                assert(handles@ =~= before + f.transforms@.take(k as int).map_values(
                    |h: usize| Some(h),
                ));
            }
            assert(f.transforms@.take(m as int) =~= f.transforms@);
        }
        vstart = vstart + f.vertex_count;
        tstart = tstart + count;
        i = i + 1;
        assert(faces@.take(i as int).drop_last() =~= faces@.take((i - 1) as int));
        assert(handles@ =~= batch_transforms(faces@.take(i as int)));
    }
    assert(faces@.take(n as int) =~= faces@);
    (slots, handles)
}

/// Repeats the triangles of a face once per copy of its vertices; copy `i`
/// is numbered from `i * verts_per_copy`. A face without transforms counts
/// as one copy.
pub fn replicate_for_transforms(ts: &Vec<Triangle>, verts_per_copy: u32, transforms: usize) -> (out: Vec<
    Triangle,
>)
    requires
        (copy_count(transforms as int) - 1) * verts_per_copy <= u32::MAX,
        tris_fit(ts@, (copy_count(transforms as int) - 1) * verts_per_copy),
    ensures
        out@ == replicated(ts@, verts_per_copy as int, copy_count(transforms as int) as nat),
{
    let copies: usize = if transforms == 0 {
        1
    } else {
        transforms
    };
    let ghost n = verts_per_copy as int;
    let mut out: Vec<Triangle> = Vec::new();
    let mut i: usize = 0;
    while i < copies
        invariant
            copies == copy_count(transforms as int),
            (copies - 1) * n <= u32::MAX,
            tris_fit(ts@, (copies - 1) * n),
            n == verts_per_copy,
            0 <= i <= copies,
            out@ == replicated(ts@, n, i as nat),
        decreases copies - i,
    {
        proof {
            vstd::arithmetic::mul::lemma_mul_inequality(i as int, copies - 1, n);
            lemma_fit_smaller(ts@, i * n, (copies - 1) * n);
        }
        let off: u32 = if verts_per_copy == 0 {
            assert(i * n == 0) by (nonlinear_arith)
                requires
                    n == 0,
            ;
            0
        } else {
            proof {
                assert(i <= u32::MAX) by (nonlinear_arith)
                    requires
                        i * n <= (copies - 1) * n,
                        (copies - 1) * n <= u32::MAX,
                        n >= 1,
                        i >= 0,
                ;
            }
            (i as u32) * verts_per_copy
        };
        assert(off == i * n);
        push_shifted(&mut out, ts, off);
        i = i + 1;
    }
    out
}

/// The number of workgroups of `group` threads needed to cover `n` items.
pub fn dispatch_groups(n: u32, group: u32) -> (r: u32)
    requires
        group > 0,
    ensures
        r == (n + group - 1) / (group as int),
        (r - 1) * group < n <= r * group || (n == 0 && r == 0),
{
    let q = n / group;
    proof {
        vstd::arithmetic::div_mod::lemma_fundamental_div_mod(n as int, group as int);
        assert(n % group != 0 ==> q < u32::MAX) by (nonlinear_arith)
            requires
                n == group * q + n % group,
                0 <= n % group < group,
                group > 0,
                q >= 0,
                n <= u32::MAX,
        ;
    }
    let r = if n % group != 0 {
        q + 1
    } else {
        q
    };
    proof {
        vstd::arithmetic::div_mod::lemma_fundamental_div_mod(n as int, group as int);
        vstd::arithmetic::div_mod::lemma_fundamental_div_mod((n + group - 1) as int, group as int);
        assert(r == (n + group - 1) / (group as int)) by (nonlinear_arith)
            requires
                n == group * q + n % group,
                0 <= n % group < group,
                (n + group - 1) == group * ((n + group - 1) / (group as int)) + (n + group - 1) % (
                group as int),
                0 <= (n + group - 1) % (group as int) < group,
                r == (if n % group != 0 {
                    q + 1
                } else {
                    q as int
                }),
                group > 0,
        ;
        assert((r - 1) * group < n <= r * group || (n == 0 && r == 0)) by (nonlinear_arith)
            requires
                n == group * q + n % group,
                0 <= n % group < group,
                r == (if n % group != 0 {
                    q + 1
                } else {
                    q as int
                }),
                group > 0,
                q >= 0,
        ;
    }
    r
}

/// The kinds of surface that a face can lie on.
#[derive(Clone, Copy, Debug, PartialEq, Eq, Structural)]
pub enum SurfaceKind {
    Plane,
    Cylinder,
    Sphere,
    Torus,
    Cone,
    BSpline,
    Nurbs,
}

/// The number by which the GPU shader tells surface kinds apart.
pub open spec fn spec_surface_code(k: SurfaceKind) -> u32 {
    match k {
        SurfaceKind::Plane => 0,
        SurfaceKind::Cylinder => 1,
        SurfaceKind::Sphere => 2,
        SurfaceKind::Torus => 3,
        SurfaceKind::Cone => 4,
        SurfaceKind::BSpline => 5,
        SurfaceKind::Nurbs => 6,
    }
}

/// The shader's number for a surface kind; distinct kinds get distinct
/// numbers.
pub fn surface_code(k: SurfaceKind) -> (c: u32)
    ensures
        c == spec_surface_code(k),
        c < 7,
{
    match k {
        SurfaceKind::Plane => 0,
        SurfaceKind::Cylinder => 1,
        SurfaceKind::Sphere => 2,
        SurfaceKind::Torus => 3,
        SurfaceKind::Cone => 4,
        SurfaceKind::BSpline => 5,
        SurfaceKind::Nurbs => 6,
    }
}

/// Distinct surface kinds get distinct shader numbers.
pub proof fn lemma_surface_code_injective(a: SurfaceKind, b: SurfaceKind)
    ensures
        spec_surface_code(a) == spec_surface_code(b) ==> a == b,
{
}

/// Whether the copies of a template fit a persistent GPU vertex buffer:
/// `template` vertices placed under `transforms` transforms take
/// `template * transforms` slots, which must not exceed `max_vertices`.
pub fn fits_vertex_buffer(template: usize, transforms: usize, max_vertices: usize) -> (r: bool)
    requires
        template * transforms <= usize::MAX,
    ensures
        r == (template * transforms <= max_vertices),
{
    template * transforms <= max_vertices
}

} // verus!
