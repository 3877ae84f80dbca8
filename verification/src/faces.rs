use vstd::prelude::*;
use crate::traverse::copy_chain;

verus! {

/// A shell of a shell-based surface model, with the faces it lists.
pub enum ShellFaces {
    Closed(Vec<usize>),
    Open(Vec<usize>),
    /// Any other entity: it gives no face.
    Other,
}

/// A void of a solid: its orientation, and the faces of its closed shell
/// when that shell could be read.
pub struct VoidShell {
    pub orientation: bool,
    pub faces: Option<Vec<usize>>,
}

/// What a representation item holds, as far as its faces go. `None`
/// stands for a shell that could not be read.
pub enum BrepShape {
    ManifoldSolid { outer: Option<Vec<usize>> },
    ShellBased { shells: Vec<ShellFaces> },
    WithVoids { outer: Option<Vec<usize>>, voids: Vec<Option<VoidShell>> },
    /// Any other item: it gives no face.
    Other,
}

/// The faces of a list, none of them flipped, or none when it is missing.
pub open spec fn plain_faces(fs: Option<Vec<usize>>, flip: bool) -> Seq<(usize, bool)> {
    match fs {
        Some(v) => v@.map_values(|f: usize| (f, flip)),
        None => Seq::empty(),
    }
}

pub open spec fn shell_faces(s: ShellFaces) -> Seq<(usize, bool)> {
    match s {
        ShellFaces::Closed(v) => v@.map_values(|f: usize| (f, false)),
        ShellFaces::Open(v) => v@.map_values(|f: usize| (f, false)),
        ShellFaces::Other => Seq::empty(),
    }
}

pub open spec fn shells_faces(ss: Seq<ShellFaces>) -> Seq<(usize, bool)>
    decreases ss.len(),
{
    if ss.len() == 0 {
        Seq::empty()
    } else {
        shells_faces(ss.drop_last()) + shell_faces(ss.last())
    }
}

/// The faces of a void: flipped when the void is oriented against its solid.
pub open spec fn void_faces(v: Option<VoidShell>) -> Seq<(usize, bool)> {
    match v {
        Some(vs) => plain_faces(vs.faces, !vs.orientation),
        None => Seq::empty(),
    }
}

pub open spec fn voids_faces(vs: Seq<Option<VoidShell>>) -> Seq<(usize, bool)>
    decreases vs.len(),
{
    if vs.len() == 0 {
        Seq::empty()
    } else {
        voids_faces(vs.drop_last()) + void_faces(vs.last())
    }
}

/// The faces to triangulate for a representation item, each with whether
/// its normals must be flipped.
pub open spec fn brep_faces(b: BrepShape) -> Seq<(usize, bool)> {
    match b {
        BrepShape::ManifoldSolid { outer } => plain_faces(outer, false),
        BrepShape::ShellBased { shells } => shells_faces(shells@),
        BrepShape::WithVoids { outer, voids } => plain_faces(outer, false) + voids_faces(voids@),
        BrepShape::Other => Seq::empty(),
    }
}

fn push_all(out: &mut Vec<(usize, bool)>, fs: &Vec<usize>, flip: bool)
    ensures
        final(out)@ == old(out)@ + fs@.map_values(|f: usize| (f, flip)),
{
    let ghost start = out@;
    let n = fs.len();
    let mut i: usize = 0;
    while i < n
        invariant
            n == fs.len(),
            0 <= i <= n,
            out@ == start + fs@.take(i as int).map_values(|f: usize| (f, flip)),
        decreases n - i,
    {
        out.push((fs[i], flip));
        i = i + 1;
        assert(out@ =~= start + fs@.take(i as int).map_values(|f: usize| (f, flip)));
    }
    assert(fs@.take(n as int) =~= fs@);
}

/// Lists the faces of a representation item: the faces of its outer
/// shell, of each of its shells, then those of each of its voids, flipped
/// when the void is oriented against its solid.
pub fn collect_faces_from_brep(b: &BrepShape) -> (out: Vec<(usize, bool)>)
    ensures
        out@ == brep_faces(*b),
{
    let mut out: Vec<(usize, bool)> = Vec::new();
    match b {
        BrepShape::ManifoldSolid { outer } => {
            if let Some(fs) = outer {
                push_all(&mut out, fs, false);
            }
            assert(out@ =~= brep_faces(*b));
        },
        BrepShape::ShellBased { shells } => {
            let n = shells.len();
            let mut i: usize = 0;
            while i < n
                invariant
                    n == shells.len(),
                    0 <= i <= n,
                    out@ == shells_faces(shells@.take(i as int)),
                decreases n - i,
            {
                match &shells[i] {
                    ShellFaces::Closed(fs) => push_all(&mut out, fs, false),
                    ShellFaces::Open(fs) => push_all(&mut out, fs, false),
                    ShellFaces::Other => {},
                }
                i = i + 1;
                assert(shells@.take(i as int).drop_last() =~= shells@.take((i - 1) as int));
                assert(out@ =~= shells_faces(shells@.take(i as int)));
            }
            assert(shells@.take(n as int) =~= shells@);
        },
        BrepShape::WithVoids { outer, voids } => {
            if let Some(fs) = outer {
                push_all(&mut out, fs, false);
            }
            let ghost first = out@;
            assert(first =~= plain_faces(*outer, false));
            let n = voids.len();
            let mut i: usize = 0;
            while i < n
                invariant
                    n == voids.len(),
                    0 <= i <= n,
                    out@ == first + voids_faces(voids@.take(i as int)),
                decreases n - i,
            {
                if let Some(v) = &voids[i] {
                    if let Some(fs) = &v.faces {
                        push_all(&mut out, fs, !v.orientation);
                    }
                }
                i = i + 1;
                assert(voids@.take(i as int).drop_last() =~= voids@.take((i - 1) as int));
                assert(out@ =~= first + voids_faces(voids@.take(i as int)));
            }
            assert(voids@.take(n as int) =~= voids@);
        },
        BrepShape::Other => {},
    }
    out
}

/// A face to triangulate: the solid it belongs to, the face, the transform
/// chains under which its solid is drawn, and whether its normals are
/// flipped.
pub struct FaceTask {
    pub solid: usize,
    pub face: usize,
    pub transforms: Vec<Vec<usize>>,
    pub flip_normal: bool,
}

/// A list of transform chains, each by its view.
pub open spec fn chains_view(cs: Seq<Vec<usize>>) -> Seq<Seq<usize>> {
    cs.map_values(|c: Vec<usize>| c@)
}

/// A face task as plain values.
pub open spec fn task_view(t: FaceTask) -> (usize, usize, Seq<Seq<usize>>, bool) {
    (t.solid, t.face, chains_view(t.transforms@), t.flip_normal)
}

/// The tasks of one solid: one per face of its shape, each under all the
/// solid's chains.
pub open spec fn solid_tasks(solid: usize, chains: Seq<Seq<usize>>, b: BrepShape) -> Seq<
    (usize, usize, Seq<Seq<usize>>, bool),
> {
    brep_faces(b).map_values(|p: (usize, bool)| (solid, p.0, chains, p.1))
}

/// The tasks of a list of solids, solid after solid.
pub open spec fn all_tasks(solids: Seq<(usize, Vec<Vec<usize>>)>, shapes: Seq<BrepShape>) -> Seq<
    (usize, usize, Seq<Seq<usize>>, bool),
>
    decreases solids.len(),
{
    if solids.len() == 0 || shapes.len() == 0 {
        Seq::empty()
    } else {
        all_tasks(solids.drop_last(), shapes.drop_last()) + solid_tasks(
            solids.last().0,
            chains_view(solids.last().1@),
            shapes.last(),
        )
    }
}

fn copy_chains(cs: &Vec<Vec<usize>>) -> (r: Vec<Vec<usize>>)
    ensures
        chains_view(r@) == chains_view(cs@),
{
    let mut r: Vec<Vec<usize>> = Vec::new();
    let n = cs.len();
    let mut i: usize = 0;
    while i < n
        invariant
            n == cs.len(),
            0 <= i <= n,
            chains_view(r@) == chains_view(cs@.take(i as int)),
        decreases n - i,
    {
        let c = copy_chain(&cs[i]);
        let ghost r0 = r@;
        r.push(c);
        assert(chains_view(r@) =~= chains_view(r0).push(cs@[i as int]@));
        assert(cs@.take(i + 1) =~= cs@.take(i as int).push(cs@[i as int]));
        assert(chains_view(cs@.take(i + 1)) =~= chains_view(cs@.take(i as int)).push(cs@[i as int]@));
        i = i + 1;
    }
    assert(cs@.take(n as int) =~= cs@);
    r
}

/// Lists the faces to triangulate: for each solid of the plan, taken with
/// the shape at the same position in `shapes`, one task per face of the
/// shape, under all the transform chains of the solid.
pub fn face_tasks(solids: &Vec<(usize, Vec<Vec<usize>>)>, shapes: &Vec<BrepShape>) -> (tasks: Vec<
    FaceTask,
>)
    requires
        solids.len() == shapes.len(),
    ensures
        tasks@.map_values(|t: FaceTask| task_view(t)) == all_tasks(solids@, shapes@),
{
    let n = solids.len();
    let mut tasks: Vec<FaceTask> = Vec::new();
    let mut i: usize = 0;
    while i < n
        invariant
            n == solids.len(),
            n == shapes.len(),
            0 <= i <= n,
            tasks@.map_values(|t: FaceTask| task_view(t)) == all_tasks(
                solids@.take(i as int),
                shapes@.take(i as int),
            ),
        decreases n - i,
    {
        let solid = solids[i].0;
        let chains = &solids[i].1;
        let faces = collect_faces_from_brep(&shapes[i]);
        let ghost before = tasks@.map_values(|t: FaceTask| task_view(t));
        let m = faces.len();
        let mut j: usize = 0;
        while j < m
            invariant
                m == faces.len(),
                0 <= j <= m,
                tasks@.map_values(|t: FaceTask| task_view(t)) == before + faces@.take(
                    j as int,
                ).map_values(|p: (usize, bool)| (solid, p.0, chains_view(chains@), p.1)),
            decreases m - j,
        {
            let (f, flip) = faces[j];
            let ghost t0 = tasks@;
            let copies = copy_chains(chains);
            tasks.push(FaceTask { solid, face: f, transforms: copies, flip_normal: flip });
            j = j + 1;
            assert(tasks@.map_values(|t: FaceTask| task_view(t)) =~= t0.map_values(
                |t: FaceTask| task_view(t),
            ).push((solid, f, chains_view(chains@), flip)));
            assert(faces@.take(j as int).map_values(
                |p: (usize, bool)| (solid, p.0, chains_view(chains@), p.1),
            ) =~= faces@.take(j - 1).map_values(
                |p: (usize, bool)| (solid, p.0, chains_view(chains@), p.1),
            ).push((solid, f, chains_view(chains@), flip)));
        }
        assert(faces@.take(m as int) =~= faces@);
        i = i + 1;
        assert(solids@.take(i as int).drop_last() =~= solids@.take(i - 1));
        assert(shapes@.take(i as int).drop_last() =~= shapes@.take(i - 1));
        assert(tasks@.map_values(|t: FaceTask| task_view(t)) =~= all_tasks(
            solids@.take(i as int),
            shapes@.take(i as int),
        ));
    }
    assert(solids@.take(n as int) =~= solids@);
    assert(shapes@.take(n as int) =~= shapes@);
    tasks
}

} // verus!
