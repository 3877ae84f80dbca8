use vstd::prelude::*;

verus! {

/// A triangle given by three indices into the vertex list of its mesh.
#[derive(Clone, Copy, Debug, PartialEq, Eq, Structural)]
pub struct Triangle {
    pub x: u32,
    pub y: u32,
    pub z: u32,
}

/// A triangle mesh: vertices of any type, and triangles indexing them.
pub struct Mesh<V> {
    pub verts: Vec<V>,
    pub triangles: Vec<Triangle>,
}

/// The mathematical model of a mesh.
pub struct MeshView<V> {
    pub verts: Seq<V>,
    pub triangles: Seq<Triangle>,
}

impl<V> View for Mesh<V> {
    type V = MeshView<V>;

    open spec fn view(&self) -> MeshView<V> {
        MeshView { verts: self.verts@, triangles: self.triangles@ }
    }
}

/// Every index of `t`, raised by `d`, still fits in a `u32`.
pub open spec fn tri_fits(t: Triangle, d: int) -> bool {
    &&& 0 <= d
    &&& t.x + d <= u32::MAX
    &&& t.y + d <= u32::MAX
    &&& t.z + d <= u32::MAX
}

/// `t` with every index raised by `d`.
pub open spec fn tri_shift(t: Triangle, d: int) -> Triangle {
    Triangle { x: (t.x + d) as u32, y: (t.y + d) as u32, z: (t.z + d) as u32 }
}

/// Every index of `t` is below `n`.
pub open spec fn tri_below(t: Triangle, n: int) -> bool {
    t.x < n && t.y < n && t.z < n
}

pub open spec fn tris_fit(ts: Seq<Triangle>, d: int) -> bool {
    forall|i: int| 0 <= i < ts.len() ==> #[trigger] tri_fits(ts[i], d)
}

pub open spec fn tris_below(ts: Seq<Triangle>, n: int) -> bool {
    forall|i: int| 0 <= i < ts.len() ==> #[trigger] tri_below(ts[i], n)
}

/// All triangles of `ts`, each raised by `d`.
pub open spec fn shift_all(ts: Seq<Triangle>, d: int) -> Seq<Triangle> {
    Seq::new(ts.len(), |i: int| tri_shift(ts[i], d))
}

impl<V> MeshView<V> {
    /// Every triangle index points at a vertex of the mesh.
    pub open spec fn wf(self) -> bool {
        tris_below(self.triangles, self.verts.len() as int)
    }

    /// The empty mesh.
    pub open spec fn empty() -> MeshView<V> {
        MeshView { verts: Seq::empty(), triangles: Seq::empty() }
    }

    /// `b` can be appended to `self`: the shifted indices of `b` fit in a `u32`.
    pub open spec fn can_combine(self, b: MeshView<V>) -> bool {
        &&& self.verts.len() <= u32::MAX
        &&& tris_fit(b.triangles, self.verts.len() as int)
    }

    /// `b` appended to `self`, with the triangles of `b` moved past the
    /// vertices of `self`.
    pub open spec fn combine(self, b: MeshView<V>) -> MeshView<V> {
        MeshView {
            verts: self.verts + b.verts,
            triangles: self.triangles + shift_all(b.triangles, self.verts.len() as int),
        }
    }
}

/// `k` copies of `ts`, copy `i` raised by `i * n`.
pub open spec fn replicated(ts: Seq<Triangle>, n: int, k: nat) -> Seq<Triangle>
    decreases k,
{
    if k == 0 {
        Seq::empty()
    } else {
        replicated(ts, n, (k - 1) as nat) + shift_all(ts, (k - 1) * n)
    }
}

/// The contents of a list of vectors, one after the other.
pub open spec fn concat_vecs<V>(vs: Seq<Vec<V>>) -> Seq<V> {
    vs.map_values(|v: Vec<V>| v@).flatten()
}

/// Appends `ts`, each raised by `d`, to `dst`.
pub(crate) fn push_shifted(dst: &mut Vec<Triangle>, ts: &Vec<Triangle>, d: u32)
    requires
        tris_fit(ts@, d as int),
    ensures
        final(dst)@ == old(dst)@ + shift_all(ts@, d as int),
{
    let n = ts.len();
    let ghost start = dst@;
    let mut i: usize = 0;
    while i < n
        invariant
            n == ts.len(),
            0 <= i <= n,
            tris_fit(ts@, d as int),
            dst@ == start + shift_all(ts@.take(i as int), d as int),
        decreases n - i,
    {
        let t = ts[i];
        assert(tri_fits(ts@[i as int], d as int));
        dst.push(Triangle { x: t.x + d, y: t.y + d, z: t.z + d });
        i = i + 1;
        assert(shift_all(ts@.take(i as int), d as int) =~= shift_all(
            ts@.take((i - 1) as int),
            d as int,
        ).push(tri_shift(ts@[i - 1], d as int)));
    }
    assert(ts@.take(n as int) =~= ts@);
}

/// A raise that fits also fits when it is smaller.
pub proof fn lemma_fit_smaller(ts: Seq<Triangle>, d: int, e: int)
    requires
        tris_fit(ts, e),
        0 <= d <= e,
    ensures
        tris_fit(ts, d),
{
    assert forall|i: int| 0 <= i < ts.len() implies #[trigger] tri_fits(ts[i], d) by {
        assert(tri_fits(ts[i], e));
    }
}

/// `t` with its winding reversed.
pub open spec fn tri_flip(t: Triangle) -> Triangle {
    Triangle { x: t.x, y: t.z, z: t.y }
}

pub open spec fn flipped(ts: Seq<Triangle>) -> Seq<Triangle> {
    Seq::new(ts.len(), |i: int| tri_flip(ts[i]))
}

/// The triangles that a planar triangulation `(a, b, c)` gives, numbered
/// from `offset`, wound as given when `same_sense` and reversed otherwise.
pub open spec fn face_triangle(abc: (usize, usize, usize), offset: int, same_sense: bool) -> Triangle {
    let a = (abc.0 + offset) as u32;
    let b = (abc.1 + offset) as u32;
    let c = (abc.2 + offset) as u32;
    if same_sense {
        Triangle { x: a, y: b, z: c }
    } else {
        Triangle { x: a, y: c, z: b }
    }
}

/// Turns the triangles of a planar triangulation into mesh triangles:
/// every corner is moved by `offset` and kept to its low 32 bits, and the
/// winding is reversed when the face is not `same_sense`.
pub fn face_triangles(tris: &Vec<(usize, usize, usize)>, offset: usize, same_sense: bool) -> (out: Vec<
    Triangle,
>)
    requires
        forall|i: int|
            0 <= i < tris.len() ==> {
                &&& (#[trigger] tris@[i]).0 + offset <= usize::MAX
                &&& tris@[i].1 + offset <= usize::MAX
                &&& tris@[i].2 + offset <= usize::MAX
            },
    ensures
        out@ == Seq::new(tris.len() as nat, |i: int| face_triangle(tris@[i], offset as int, same_sense)),
{
    let n = tris.len();
    let mut out: Vec<Triangle> = Vec::new();
    let mut i: usize = 0;
    while i < n
        invariant
            n == tris.len(),
            0 <= i <= n,
            forall|j: int|
                0 <= j < tris.len() ==> {
                    &&& (#[trigger] tris@[j]).0 + offset <= usize::MAX
                    &&& tris@[j].1 + offset <= usize::MAX
                    &&& tris@[j].2 + offset <= usize::MAX
                },
            out@ == Seq::new(i as nat, |j: int| face_triangle(tris@[j], offset as int, same_sense)),
        decreases n - i,
    {
        let (a, b, c) = tris[i];
        assert(tris@[i as int] == (a, b, c));
        let a = (a + offset) as u32;
        let b = (b + offset) as u32;
        let c = (c + offset) as u32;
        let t = if same_sense {
            Triangle { x: a, y: b, z: c }
        } else {
            Triangle { x: a, y: c, z: b }
        };
        out.push(t);
        i = i + 1;
        assert(out@ =~= Seq::new(i as nat, |j: int| face_triangle(tris@[j], offset as int, same_sense)));
    }
    out
}

/// Reversing the winding twice restores every triangle.
pub proof fn lemma_flip_involution(ts: Seq<Triangle>)
    ensures
        flipped(flipped(ts)) == ts,
{
    assert(flipped(flipped(ts)) =~= ts);
}

/// Reversing the winding keeps every triangle inside the vertex list.
pub proof fn lemma_flip_wf<V>(m: MeshView<V>)
    requires
        m.wf(),
    ensures
        (MeshView { verts: m.verts, triangles: flipped(m.triangles) }).wf(),
{
    assert forall|i: int| 0 <= i < m.triangles.len() implies #[trigger] tri_below(
        flipped(m.triangles)[i],
        m.verts.len() as int,
    ) by {
        assert(tri_below(m.triangles[i], m.verts.len() as int));
    }
}

/// The repeated triangles of well-formed copies point inside the copies.
pub proof fn lemma_replicated_below(ts: Seq<Triangle>, n: int, k: nat)
    requires
        tris_below(ts, n),
        k > 0 ==> tris_fit(ts, (k - 1) * n),
        0 <= n,
    ensures
        tris_below(replicated(ts, n, k), k * n),
    decreases k,
{
    if k > 0 {
        let k1 = (k - 1) as nat;
        if k1 > 0 {
            vstd::arithmetic::mul::lemma_mul_inequality(k1 - 1, k1 as int, n);
            lemma_fit_smaller(ts, (k1 - 1) * n, k1 * n);
        }
        lemma_replicated_below(ts, n, k1);
        vstd::arithmetic::mul::lemma_mul_is_distributive_add(n, k1 as int, 1);
        assert(k * n == k1 * n + n) by (nonlinear_arith)
            requires
                k == k1 + 1,
        ;
        let r = replicated(ts, n, k);
        assert forall|i: int| 0 <= i < r.len() implies #[trigger] tri_below(r[i], k * n) by {
            let r1 = replicated(ts, n, k1);
            if i < r1.len() {
                assert(tri_below(r1[i], k1 * n));
            } else {
                let j = i - r1.len();
                assert(tri_below(ts[j], n));
                assert(tri_fits(ts[j], k1 * n));
            }
        }
    }
}

/// The corners of all triangles, three per triangle, in order.
pub open spec fn flat_indices(ts: Seq<Triangle>) -> Seq<u32> {
    Seq::new(
        ts.len() * 3,
        |p: int|
            if p % 3 == 0 {
                ts[p / 3].x
            } else if p % 3 == 1 {
                ts[p / 3].y
            } else {
                ts[p / 3].z
            },
    )
}

/// The triangles made of each full group of three consecutive indices; a
/// trailing group of one or two indices is left out.
pub open spec fn grouped_triangles(idx: Seq<u32>) -> Seq<Triangle> {
    Seq::new(
        idx.len() / 3,
        |i: int| Triangle { x: idx[3 * i], y: idx[3 * i + 1], z: idx[3 * i + 2] },
    )
}

/// Lists the corners of all triangles, three per triangle.
pub fn triangle_indices(ts: &Vec<Triangle>) -> (idx: Vec<u32>)
    requires
        ts.len() * 3 <= usize::MAX,
    ensures
        idx@ == flat_indices(ts@),
{
    let n = ts.len();
    let mut idx: Vec<u32> = Vec::new();
    let mut i: usize = 0;
    while i < n
        invariant
            n == ts.len(),
            n * 3 <= usize::MAX,
            0 <= i <= n,
            idx@ == flat_indices(ts@).take(3 * i),
        decreases n - i,
    {
        let t = ts[i];
        idx.push(t.x);
        idx.push(t.y);
        idx.push(t.z);
        i = i + 1;
        assert forall|p: int| 0 <= p < 3 * i implies #[trigger] idx@[p] == flat_indices(ts@)[p] by {
            if p >= 3 * (i - 1) {
                assert(p / 3 == i - 1);
            }
        }
        assert(idx@ =~= flat_indices(ts@).take(3 * i));
    }
    assert(flat_indices(ts@).take(3 * n) =~= flat_indices(ts@));
    idx
}

/// Groups a flat index list three by three into triangles; a trailing
/// group of one or two indices is dropped.
pub fn triangles_from_indices(idx: &Vec<u32>) -> (ts: Vec<Triangle>)
    ensures
        ts@ == grouped_triangles(idx@),
{
    let k = idx.len() / 3;
    let mut ts: Vec<Triangle> = Vec::new();
    let mut i: usize = 0;
    while i < k
        invariant
            k == idx.len() / 3,
            0 <= i <= k,
            ts@ == grouped_triangles(idx@).take(i as int),
        decreases k - i,
    {
        ts.push(Triangle { x: idx[3 * i], y: idx[3 * i + 1], z: idx[3 * i + 2] });
        i = i + 1;
        assert(ts@ =~= grouped_triangles(idx@).take(i as int));
    }
    assert(grouped_triangles(idx@).take(k as int) =~= grouped_triangles(idx@));
    ts
}

/// The triangles made of each full group of three consecutive wide
/// indices, each kept to its low 32 bits; a trailing group of one or two
/// indices is left out.
pub open spec fn grouped_wide_triangles(idx: Seq<usize>) -> Seq<Triangle> {
    Seq::new(
        idx.len() / 3,
        |i: int|
            Triangle { x: idx[3 * i] as u32, y: idx[3 * i + 1] as u32, z: idx[3 * i + 2] as u32 },
    )
}

/// Groups a flat list of wide indices three by three into triangles,
/// keeping each index to its low 32 bits; a trailing group of one or two
/// indices is dropped.
pub fn triangles_from_wide_indices(idx: &Vec<usize>) -> (ts: Vec<Triangle>)
    ensures
        ts@ == grouped_wide_triangles(idx@),
{
    let k = idx.len() / 3;
    let mut ts: Vec<Triangle> = Vec::new();
    let mut i: usize = 0;
    while i < k
        invariant
            k == idx.len() / 3,
            0 <= i <= k,
            ts@ == grouped_wide_triangles(idx@).take(i as int),
        decreases k - i,
    {
        ts.push(
            Triangle { x: idx[3 * i] as u32, y: idx[3 * i + 1] as u32, z: idx[3 * i + 2] as u32 },
        );
        i = i + 1;
        assert(ts@ =~= grouped_wide_triangles(idx@).take(i as int));
    }
    assert(grouped_wide_triangles(idx@).take(k as int) =~= grouped_wide_triangles(idx@));
    ts
}

/// Grouping the corner list of a set of triangles gives the triangles back.
pub proof fn lemma_indices_roundtrip(ts: Seq<Triangle>)
    ensures
        grouped_triangles(flat_indices(ts)) == ts,
{
    let f = flat_indices(ts);
    assert(f.len() / 3 == ts.len());
    assert forall|i: int| 0 <= i < ts.len() implies #[trigger] grouped_triangles(f)[i] == ts[i] by {
        assert((3 * i) / 3 == i && (3 * i) % 3 == 0);
        assert((3 * i + 1) / 3 == i && (3 * i + 1) % 3 == 1);
        assert((3 * i + 2) / 3 == i && (3 * i + 2) % 3 == 2);
    }
    assert(grouped_triangles(f) =~= ts);
}

/// A corner list whose length is a multiple of three survives grouping into
/// triangles and listing their corners again.
pub proof fn lemma_grouping_roundtrip(idx: Seq<u32>)
    requires
        idx.len() % 3 == 0,
    ensures
        flat_indices(grouped_triangles(idx)) == idx,
{
    let g = grouped_triangles(idx);
    assert(g.len() * 3 == idx.len());
    assert forall|p: int| 0 <= p < idx.len() implies #[trigger] flat_indices(g)[p] == idx[p] by {
        let i = p / 3;
        assert(p == 3 * i + p % 3);
    }
    assert(flat_indices(g) =~= idx);
}

proof fn lemma_concat_len<V>(copies: Seq<Vec<V>>, n: int)
    requires
        forall|i: int| 0 <= i < copies.len() ==> (#[trigger] copies[i]).len() == n,
    ensures
        concat_vecs(copies).len() == copies.len() * n,
    decreases copies.len(),
{
    if copies.len() > 0 {
        let pre = copies.drop_last();
        assert forall|i: int| 0 <= i < pre.len() implies (#[trigger] pre[i]).len() == n by {
            assert(pre[i] == copies[i]);
        }
        lemma_concat_len(pre, n);
        assert(copies.map_values(|v: Vec<V>| v@) =~= pre.map_values(|v: Vec<V>| v@).push(
            copies.last()@,
        ));
        pre.map_values(|v: Vec<V>| v@).lemma_flatten_push(copies.last()@);
        assert(copies[copies.len() - 1].len() == n);
        let k = copies.len() as int;
        assert(concat_vecs(pre).len() == (k - 1) * n);
        assert((k - 1) * n + n == k * n) by (nonlinear_arith);
    } else {
        assert(copies.map_values(|v: Vec<V>| v@) =~= Seq::<Seq<V>>::empty());
        assert(copies.len() * n == 0) by (nonlinear_arith)
            requires
                copies.len() == 0,
        ;
    }
}

/// The vertices of an instanced mesh are laid out copy after copy: with `n`
/// vertices per copy, position `p` holds vertex `p % n` of copy `p / n`
/// (the indexing of the GPU transform pass).
pub proof fn lemma_instance_layout<V>(copies: Seq<Vec<V>>, n: int, p: int)
    requires
        n > 0,
        forall|i: int| 0 <= i < copies.len() ==> (#[trigger] copies[i]).len() == n,
        0 <= p < copies.len() * n,
    ensures
        concat_vecs(copies).len() == copies.len() * n,
        concat_vecs(copies)[p] == copies[p / n]@[p % n],
    decreases copies.len(),
{
    lemma_concat_len(copies, n);
    let k = copies.len() as int;
    let pre = copies.drop_last();
    assert(k > 0) by (nonlinear_arith)
        requires
            0 <= p < k * n,
            n > 0,
    ;
    assert forall|i: int| 0 <= i < pre.len() implies (#[trigger] pre[i]).len() == n by {
        assert(pre[i] == copies[i]);
    }
    lemma_concat_len(pre, n);
    assert(copies.map_values(|v: Vec<V>| v@) =~= pre.map_values(|v: Vec<V>| v@).push(
        copies.last()@,
    ));
    pre.map_values(|v: Vec<V>| v@).lemma_flatten_push(copies.last()@);
    if p < (k - 1) * n {
        lemma_instance_layout(pre, n, p);
        assert(0 <= p / n < k - 1) by {
            vstd::arithmetic::div_mod::lemma_div_pos_is_pos(p, n);
            vstd::arithmetic::div_mod::lemma_fundamental_div_mod(p, n);
            vstd::arithmetic::div_mod::lemma_mod_pos_bound(p, n);
            if p / n >= k - 1 {
                vstd::arithmetic::mul::lemma_mul_inequality(k - 1, p / n, n);
                vstd::arithmetic::mul::lemma_mul_is_commutative(n, p / n);
            }
        }
        assert(pre[p / n] == copies[p / n]);
    } else {
        let j = p - (k - 1) * n;
        assert(0 <= j < n) by (nonlinear_arith)
            requires
                (k - 1) * n <= p < k * n,
                j == p - (k - 1) * n,
        ;
        assert(p / n == k - 1 && p % n == j) by {
            vstd::arithmetic::div_mod::lemma_fundamental_div_mod_converse(p, n, k - 1, j);
        }
    }
}

/// Meshes appended one after the other, from the empty mesh.
pub open spec fn combined<V>(vs: Seq<MeshView<V>>) -> MeshView<V>
    decreases vs.len(),
{
    if vs.len() == 0 {
        MeshView::empty()
    } else {
        combined(vs.drop_last()).combine(vs.last())
    }
}

/// Each mesh can be appended to those before it.
pub open spec fn all_combinable<V>(vs: Seq<MeshView<V>>) -> bool {
    forall|i: int| 0 <= i < vs.len() ==> #[trigger] combined(vs.take(i)).can_combine(vs[i])
}

/// The sum of the triangle counts of the meshes.
pub open spec fn total_triangles<V>(vs: Seq<MeshView<V>>) -> nat
    decreases vs.len(),
{
    if vs.len() == 0 {
        0
    } else {
        total_triangles(vs.drop_last()) + vs.last().triangles.len()
    }
}

/// The views of a list of meshes.
pub open spec fn mesh_views<V>(ms: Seq<Mesh<V>>) -> Seq<MeshView<V>> {
    ms.map_values(|m: Mesh<V>| m@)
}

/// A batch of meshes appended one after the other holds every triangle of
/// every mesh, and, when each mesh is well formed, its triangles point
/// inside its vertices.
pub proof fn lemma_combined_batch<V>(vs: Seq<MeshView<V>>)
    requires
        all_combinable(vs),
    ensures
        combined(vs).triangles.len() == total_triangles(vs),
        (forall|i: int| 0 <= i < vs.len() ==> (#[trigger] vs[i]).wf()) ==> combined(vs).wf(),
    decreases vs.len(),
{
    if vs.len() > 0 {
        let p = vs.drop_last();
        assert forall|i: int| 0 <= i < p.len() implies #[trigger] combined(p.take(i)).can_combine(
            p[i],
        ) by {
            assert(p.take(i) =~= vs.take(i));
            assert(combined(vs.take(i)).can_combine(vs[i]));
        }
        lemma_combined_batch(p);
        assert(vs.take(vs.len() - 1) =~= p);
        assert(combined(vs.take(vs.len() - 1)).can_combine(vs[vs.len() - 1]));
        if forall|i: int| 0 <= i < vs.len() ==> (#[trigger] vs[i]).wf() {
            assert forall|i: int| 0 <= i < p.len() implies (#[trigger] p[i]).wf() by {
                assert(vs[i].wf());
            }
            assert(vs[vs.len() - 1].wf());
            lemma_combine_wf(combined(p), vs.last());
        }
    }
}

/// A face that is not `same_sense` gets the triangles of the same face in
/// `same_sense`, with their winding reversed.
pub proof fn lemma_face_winding(tris: Seq<(usize, usize, usize)>, offset: int)
    ensures
        Seq::new(tris.len(), |i: int| face_triangle(tris[i], offset, false)) == flipped(
            Seq::new(tris.len(), |i: int| face_triangle(tris[i], offset, true)),
        ),
{
    assert(Seq::new(tris.len(), |i: int| face_triangle(tris[i], offset, false)) =~= flipped(
        Seq::new(tris.len(), |i: int| face_triangle(tris[i], offset, true)),
    ));
}

impl<V> Mesh<V> {
    /// An empty mesh.
    pub fn new() -> (m: Mesh<V>)
        ensures
            m@ == MeshView::<V>::empty(),
    {
        Mesh { verts: Vec::new(), triangles: Vec::new() }
    }

    /// Appends `b` to `a`; the triangles of `b` are renumbered to point at
    /// the copies of its vertices.
    pub fn combine(a: Mesh<V>, b: Mesh<V>) -> (m: Mesh<V>)
        requires
            a@.can_combine(b@),
        ensures
            m@ == a@.combine(b@),
    {
        let ghost av = a@;
        let ghost bv = b@;
        let mut a = a;
        let mut b = b;
        let dv: u32 = a.verts.len() as u32;
        push_shifted(&mut a.triangles, &b.triangles, dv);
        a.verts.append(&mut b.verts);
        assert(a@.verts =~= av.combine(bv).verts);
        assert(a@.triangles =~= av.combine(bv).triangles);
        a
    }

    /// Appends the meshes of a batch one after the other, from the empty
    /// mesh, each renumbered to point at its own vertices.
    pub fn combine_all(parts: Vec<Mesh<V>>) -> (m: Mesh<V>)
        requires
            all_combinable(mesh_views(parts@)),
        ensures
            m@ == combined(mesh_views(parts@)),
    {
        let ghost vs = mesh_views(parts@);
        let k = parts.len();
        let mut rest = parts;
        let mut rev: Vec<Mesh<V>> = Vec::new();
        while rest.len() > 0
            invariant
                k == vs.len(),
                rest.len() + rev.len() == k,
                forall|j: int| 0 <= j < rest.len() ==> (#[trigger] rest@[j])@ == vs[j],
                forall|j: int| 0 <= j < rev.len() ==> (#[trigger] rev@[j])@ == vs[k - 1 - j],
            decreases rest.len(),
        {
            let x = rest.pop().unwrap();
            rev.push(x);
        }
        let mut acc: Mesh<V> = Mesh::new();
        let mut i: usize = 0;
        assert(vs.take(0) =~= Seq::<MeshView<V>>::empty());
        while i < k
            invariant
                k == vs.len(),
                0 <= i <= k,
                rev.len() == k - i,
                forall|j: int| 0 <= j < rev.len() ==> (#[trigger] rev@[j])@ == vs[k - 1 - j],
                all_combinable(vs),
                acc@ == combined(vs.take(i as int)),
            decreases k - i,
        {
            let x = rev.pop().unwrap();
            assert(x@ == vs[i as int]);
            assert(combined(vs.take(i as int)).can_combine(vs[i as int]));
            acc = Mesh::combine(acc, x);
            i = i + 1;
            assert(vs.take(i as int).drop_last() =~= vs.take(i - 1));
        }
        assert(vs.take(k as int) =~= vs);
        acc
    }

    /// Builds one mesh holding a copy of `template` per entry of `copies`:
    /// entry `i` holds the vertices of copy `i` (the template's vertices,
    /// moved into place by the caller), and the template's triangles are
    /// repeated for every copy, renumbered to point at that copy.
    pub fn instance(template: &Mesh<V>, copies: Vec<Vec<V>>) -> (m: Mesh<V>)
        requires
            template.verts.len() <= u32::MAX,
            forall|i: int| 0 <= i < copies.len() ==> (#[trigger] copies@[i]).len()
                == template.verts.len(),
            copies.len() > 0 ==> (copies.len() - 1) * template.verts.len() <= u32::MAX,
            copies.len() > 0 ==> tris_fit(
                template.triangles@,
                (copies.len() - 1) * template.verts.len(),
            ),
        ensures
            m.verts@ == concat_vecs(copies@),
            m.verts@.len() == copies.len() * template.verts.len(),
            m.triangles@ == replicated(
                template.triangles@,
                template.verts.len() as int,
                copies.len() as nat,
            ),
    {
        let ghost cs = copies@;
        let ghost n = template.verts.len() as int;
        let k = copies.len();
        let mut m: Mesh<V> = Mesh::new();
        let mut rest = copies;
        let mut copies: Vec<Vec<V>> = Vec::new();
        while rest.len() > 0
            invariant
                k == cs.len(),
                rest.len() + copies.len() == k,
                forall|j: int| 0 <= j < rest.len() ==> rest@[j] == cs[j],
                forall|j: int| 0 <= j < copies.len() ==> copies@[j] == cs[k - 1 - j],
            decreases rest.len(),
        {
            let c = rest.pop().unwrap();
            copies.push(c);
        }
        let mut i: usize = 0;
        while i < k
            invariant
                0 <= i <= k,
                k == cs.len(),
                copies.len() == k - i,
                forall|j: int| 0 <= j < k - i ==> copies@[j] == cs[k - 1 - j],
                n == template.verts.len(),
                n <= u32::MAX,
                forall|j: int| 0 <= j < k ==> (#[trigger] cs[j]).len() == n,
                k > 0 ==> (k - 1) * n <= u32::MAX,
                k > 0 ==> tris_fit(template.triangles@, (k - 1) * n),
                m.verts@ == concat_vecs(cs.take(i as int)),
                m.verts@.len() == i * n,
                m.triangles@ == replicated(template.triangles@, n, i as nat),
            decreases k - i,
        {
            let mut c = copies.pop().unwrap();
            assert(c == cs[i as int]);
            proof {
                vstd::arithmetic::mul::lemma_mul_inequality(i as int, k - 1, n);
                lemma_fit_smaller(template.triangles@, i * n, (k - 1) * n);
            }
            let off: u32 = m.verts.len() as u32;
            push_shifted(&mut m.triangles, &template.triangles, off);
            m.verts.append(&mut c);
            proof {
                let vs = cs.map_values(|v: Vec<V>| v@);
                assert(cs.take(i + 1).map_values(|v: Vec<V>| v@) =~= cs.take(
                    i as int,
                ).map_values(|v: Vec<V>| v@).push(cs[i as int]@));
                cs.take(i as int).map_values(|v: Vec<V>| v@).lemma_flatten_push(cs[i as int]@);
                vstd::arithmetic::mul::lemma_mul_is_distributive_add(n, i as int, 1);
            }
            i = i + 1;
            assert(m.verts@.len() == i * n) by (nonlinear_arith)
                requires
                    m.verts@.len() == (i - 1) * n + n,
            ;
        }
        assert(cs.take(k as int) =~= cs);
        m
    }

    /// Reverses the winding of every triangle (swaps its last two corners),
    /// as is done for the faces of a void shell oriented against its solid.
    pub fn flip_triangles(&mut self)
        ensures
            final(self).verts@ == old(self).verts@,
            final(self).triangles@ == flipped(old(self).triangles@),
    {
        let n = self.triangles.len();
        let ghost start = self.triangles@;
        let mut out: Vec<Triangle> = Vec::new();
        let mut i: usize = 0;
        while i < n
            invariant
                n == self.triangles.len(),
                self.triangles@ == start,
                0 <= i <= n,
                out@ == flipped(start.take(i as int)),
            decreases n - i,
        {
            let t = self.triangles[i];
            out.push(Triangle { x: t.x, y: t.z, z: t.y });
            i = i + 1;
            assert(flipped(start.take(i as int)) =~= flipped(start.take((i - 1) as int)).push(
                tri_flip(start[i - 1]),
            ));
        }
        assert(start.take(n as int) =~= start);
        self.triangles = out;
    }
}


/// Raising every index twice is raising it once by the sum.
pub proof fn lemma_shift_shift(ts: Seq<Triangle>, d1: int, d2: int)
    requires
        0 <= d2,
        tris_fit(ts, d1 + d2),
        0 <= d1,
    ensures
        tris_fit(ts, d1),
        tris_fit(shift_all(ts, d1), d2),
        shift_all(shift_all(ts, d1), d2) == shift_all(ts, d1 + d2),
{
    assert forall|i: int| 0 <= i < ts.len() implies #[trigger] tri_fits(ts[i], d1) by {
        assert(tri_fits(ts[i], d1 + d2));
    }
    assert forall|i: int| 0 <= i < ts.len() implies #[trigger] tri_fits(shift_all(ts, d1)[i], d2) by {
        assert(tri_fits(ts[i], d1 + d2));
    }
    assert(shift_all(shift_all(ts, d1), d2) =~= shift_all(ts, d1 + d2)) by {
        assert forall|i: int| 0 <= i < ts.len() implies #[trigger] shift_all(shift_all(ts, d1), d2)[i]
            == shift_all(ts, d1 + d2)[i] by {
            assert(tri_fits(ts[i], d1 + d2));
        }
    }
}

/// Raising by zero changes nothing.
pub proof fn lemma_shift_zero(ts: Seq<Triangle>)
    ensures
        tris_fit(ts, 0),
        shift_all(ts, 0) == ts,
{
    assert(shift_all(ts, 0) =~= ts);
}

/// Appending one well-formed mesh to another gives a well-formed mesh.
pub proof fn lemma_combine_wf<V>(a: MeshView<V>, b: MeshView<V>)
    requires
        a.wf(),
        b.wf(),
        a.can_combine(b),
    ensures
        a.combine(b).wf(),
{
    let c = a.combine(b);
    let n = a.verts.len() as int;
    assert forall|i: int| 0 <= i < c.triangles.len() implies #[trigger] tri_below(
        c.triangles[i],
        c.verts.len() as int,
    ) by {
        if i >= a.triangles.len() {
            let j = i - a.triangles.len();
            assert(tri_below(b.triangles[j], b.verts.len() as int));
            assert(tri_fits(b.triangles[j], n));
        } else {
            assert(tri_below(a.triangles[i], n));
        }
    }
}

/// The empty mesh is a left identity of `combine`.
pub proof fn lemma_combine_empty_left<V>(b: MeshView<V>)
    ensures
        MeshView::<V>::empty().can_combine(b),
        MeshView::<V>::empty().combine(b) == b,
{
    lemma_shift_zero(b.triangles);
    assert(MeshView::<V>::empty().combine(b).verts =~= b.verts);
    assert(MeshView::<V>::empty().combine(b).triangles =~= b.triangles);
}

/// The empty mesh is a right identity of `combine`.
pub proof fn lemma_combine_empty_right<V>(a: MeshView<V>)
    requires
        a.verts.len() <= u32::MAX,
    ensures
        a.can_combine(MeshView::<V>::empty()),
        a.combine(MeshView::<V>::empty()) == a,
{
    assert(a.combine(MeshView::<V>::empty()).verts =~= a.verts);
    assert(a.combine(MeshView::<V>::empty()).triangles =~= a.triangles);
}

/// `combine` is associative: appending three meshes gives the same mesh
/// whichever pair is appended first.
pub proof fn lemma_combine_assoc<V>(a: MeshView<V>, b: MeshView<V>, c: MeshView<V>)
    requires
        a.can_combine(b),
        a.combine(b).can_combine(c),
    ensures
        b.can_combine(c),
        a.can_combine(b.combine(c)),
        a.combine(b).combine(c) == a.combine(b.combine(c)),
{
    let na = a.verts.len() as int;
    let nb = b.verts.len() as int;
    lemma_shift_shift(c.triangles, nb, na);
    assert(tris_fit(c.triangles, nb));
    let bc = b.combine(c);
    assert forall|i: int| 0 <= i < bc.triangles.len() implies #[trigger] tri_fits(
        bc.triangles[i],
        na,
    ) by {
        if i < b.triangles.len() {
            assert(tri_fits(b.triangles[i], na));
        } else {
            let j = i - b.triangles.len();
            assert(tri_fits(c.triangles[j], nb + na));
        }
    }
    let l = a.combine(b).combine(c);
    let r = a.combine(bc);
    assert(l.verts =~= r.verts);
    assert(shift_all(bc.triangles, na) =~= shift_all(b.triangles, na) + shift_all(
        shift_all(c.triangles, nb),
        na,
    ));
    assert(shift_all(c.triangles, na + nb) == shift_all(c.triangles, nb + na));
    assert(l.triangles =~= r.triangles);
}

} // verus!
