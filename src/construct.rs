//! Building faces from vertex rings, and meshes from polygon lists.
use vstd::prelude::*;
use crate::mesh::{FaceId, HalfEdge, HalfEdgeId, HalfEdgeMesh, MeshError, MeshModel, VertexId};

verus! {

/// Records, while faces are being built, which half-edge runs from one
/// vertex to another, so that later faces can find the twins of earlier ones.
pub struct PairMap {
    entries: Vec<(VertexId, VertexId, HalfEdgeId)>,
}

/// The half-edge recorded last for the pair `(a, b)` among `s`.
pub open spec fn pair_lookup(s: Seq<(VertexId, VertexId, HalfEdgeId)>, a: VertexId, b: VertexId) -> Option<
    HalfEdgeId,
>
    decreases s.len(),
{
    if s.len() == 0 {
        None
    } else if s.last().0 == a && s.last().1 == b {
        Some(s.last().2)
    } else {
        pair_lookup(s.drop_last(), a, b)
    }
}

pub open spec fn same_pair(x: (VertexId, VertexId, HalfEdgeId), y: (VertexId, VertexId, HalfEdgeId)) -> bool {
    x.0 == y.0 && x.1 == y.1
}

/// A later entry records the same pair as entry `j`.
pub open spec fn shadowed(s: Seq<(VertexId, VertexId, HalfEdgeId)>, j: int) -> bool {
    exists|q: int| j < q < s.len() && same_pair(s[q], s[j])
}

/// A lookup that succeeds gives the half-edge of the last entry for the pair.
pub proof fn lemma_pair_lookup_in(s: Seq<(VertexId, VertexId, HalfEdgeId)>, a: VertexId, b: VertexId)
    ensures
        pair_lookup(s, a, b) is Some ==> exists|j: int|
            0 <= j < s.len() && s[j].0 == a && s[j].1 == b && !shadowed(s, j) && s[j].2 == pair_lookup(s, a, b)->Some_0,
    decreases s.len(),
{
    if s.len() > 0 {
        let t = s.drop_last();
        lemma_pair_lookup_in(t, a, b);
        if pair_lookup(s, a, b) is Some {
            if s.last().0 == a && s.last().1 == b {
                let j = s.len() - 1;
                assert(!shadowed(s, j));
            } else {
                let j = choose|j: int|
                    0 <= j < t.len() && t[j].0 == a && t[j].1 == b && !shadowed(t, j) && t[j].2 == pair_lookup(t, a, b)->Some_0;
                assert(s[j] == t[j]);
                assert(!shadowed(s, j)) by {
                    if shadowed(s, j) {
                        let q = choose|q: int| j < q < s.len() && same_pair(s[q], s[j]);
                        if q < t.len() {
                            assert(same_pair(t[q], t[j]));
                        }
                    }
                }
            }
        }
    }
}

/// The entry at index `i` is found for its pair unless a later entry
/// records the same pair; either way the pair is recorded. The last entry
/// recording the pair is what a lookup gives.
pub proof fn lemma_pair_lookup_last(s: Seq<(VertexId, VertexId, HalfEdgeId)>, i: int)
    requires
        0 <= i < s.len(),
    ensures
        pair_lookup(s, s[i].0, s[i].1) is Some,
        (forall|j: int| i < j < s.len() ==> !(s[j].0 == s[i].0 && s[j].1 == s[i].1)) ==> pair_lookup(
            s,
            s[i].0,
            s[i].1,
        ) == Some(s[i].2),
    decreases s.len(),
{
    if i < s.len() - 1 {
        lemma_pair_lookup_last(s.drop_last(), i);
    }
}

impl View for PairMap {
    type V = Map<(VertexId, VertexId), HalfEdgeId>;

    closed spec fn view(&self) -> Map<(VertexId, VertexId), HalfEdgeId> {
        Map::new(
            |k: (VertexId, VertexId)| pair_lookup(self.entries@, k.0, k.1) is Some,
            |k: (VertexId, VertexId)| pair_lookup(self.entries@, k.0, k.1)->Some_0,
        )
    }
}

impl PairMap {
    pub fn new() -> (r: Self)
        ensures
            r@ == Map::<(VertexId, VertexId), HalfEdgeId>::empty(),
    {
        let r = PairMap { entries: Vec::new() };
        assert(r@ =~= Map::<(VertexId, VertexId), HalfEdgeId>::empty());
        r
    }

    pub fn get(&self, a: VertexId, b: VertexId) -> (r: Option<HalfEdgeId>)
        ensures
            r == (if self@.contains_key((a, b)) {
                Some(self@[(a, b)])
            } else {
                None
            }),
    {
        let mut i = self.entries.len();
        assert(self.entries@.take(i as int) =~= self.entries@);
        while i > 0
            invariant
                i <= self.entries@.len(),
                pair_lookup(self.entries@, a, b) == pair_lookup(self.entries@.take(i as int), a, b),
            decreases i,
        {
            let e = self.entries[i - 1];
            assert(self.entries@.take(i as int).drop_last() =~= self.entries@.take(i - 1));
            if e.0 == a && e.1 == b {
                return Some(e.2);
            }
            i -= 1;
        }
        None
    }

    /// Whether every recorded half-edge is live in `mesh`.
    pub fn all_live<P: Copy>(&self, mesh: &HalfEdgeMesh<P>) -> (r: bool)
        ensures
            r == (forall|k: (VertexId, VertexId)| #[trigger] self@.contains_key(k) ==> mesh@.hes.contains_key(self@[k])),
    {
        let n = self.entries.len();
        let mut i: usize = 0;
        while i < n
            invariant
                n == self.entries@.len(),
                i <= n,
                forall|j: int| 0 <= j < i && !shadowed(self.entries@, j) ==> mesh@.hes.contains_key(#[trigger] self.entries@[j].2),
            decreases n - i,
        {
            let e = self.entries[i];
            let mut later = false;
            let mut j: usize = i + 1;
            while j < n
                invariant
                    n == self.entries@.len(),
                    i < j <= n,
                    e == self.entries@[i as int],
                    later == (exists|q: int| i < q < j && same_pair(self.entries@[q], e)),
                decreases n - j,
            {
                let x = self.entries[j];
                if x.0 == e.0 && x.1 == e.1 {
                    later = true;
                }
                j += 1;
            }
            if !later && !mesh.contains_halfedge(e.2) {
                proof {
                    lemma_pair_lookup_last(self.entries@, i as int);
                    assert(self@.contains_key((e.0, e.1)));
                }
                return false;
            }
            i += 1;
        }
        proof {
            assert forall|k: (VertexId, VertexId)| #[trigger] self@.contains_key(k) implies mesh@.hes.contains_key(self@[k]) by {
                lemma_pair_lookup_in(self.entries@, k.0, k.1);
            }
        }
        true
    }

    pub fn insert(&mut self, a: VertexId, b: VertexId, h: HalfEdgeId)
        ensures
            final(self)@ == old(self)@.insert((a, b), h),
    {
        let ghost pre = self@;
        self.entries.push((a, b, h));
        assert(self.entries@.drop_last() =~= old(self).entries@);
        assert(self@ =~= pre.insert((a, b), h));
    }
}

/// Index `i` of a ring of `n` entries, where index `n` is index `0` again.
pub open spec fn ring_succ(i: nat, n: nat) -> int {
    if i < n {
        i as int
    } else {
        0
    }
}

/// The first pass of `add_face` over the first `i` vertices of the ring
/// `vs`: each side's half-edge is the one recorded for its pair (now put on
/// face `f`), or else the next unused handle of `fresh`, newly added; the
/// pair is recorded and the side's start vertex takes it as its half-edge.
/// Gives the mesh, the pairs, the sides' half-edges, and how many handles
/// of `fresh` were used.
pub open spec fn ring_pass<P>(
    m: MeshModel<P>,
    pairs: Map<(VertexId, VertexId), HalfEdgeId>,
    vs: Seq<VertexId>,
    f: FaceId,
    fresh: Seq<HalfEdgeId>,
    i: nat,
) -> (MeshModel<P>, Map<(VertexId, VertexId), HalfEdgeId>, Seq<HalfEdgeId>, nat)
    decreases i,
{
    if i == 0 {
        (m, pairs, Seq::empty(), 0)
    } else {
        let (mi, pi, hs, used) = ring_pass(m, pairs, vs, f, fresh, (i - 1) as nat);
        let a = vs[i - 1];
        let b = vs[ring_succ(i, vs.len())];
        if pi.contains_key((a, b)) {
            let h = pi[(a, b)];
            (mi.set_face(h, Some(f)).set_vertex_he(a, Some(h)), pi.insert((a, b), h), hs.push(h), used)
        } else {
            let h = fresh[used as int];
            (
                mi.with_he(h, HalfEdge { vertex: Some(a), face: Some(f), twin: None, next: None }).set_vertex_he(
                    a,
                    Some(h),
                ),
                pi.insert((a, b), h),
                hs.push(h),
                used + 1,
            )
        }
    }
}

/// `ring_pass` reads only the handles of `fresh` that it uses.
pub proof fn lemma_ring_pass_prefix<P>(
    m: MeshModel<P>,
    pairs: Map<(VertexId, VertexId), HalfEdgeId>,
    vs: Seq<VertexId>,
    f: FaceId,
    fresh: Seq<HalfEdgeId>,
    fresh2: Seq<HalfEdgeId>,
    i: nat,
)
    requires
        fresh.len() <= fresh2.len(),
        forall|k: int| 0 <= k < fresh.len() ==> fresh[k] == fresh2[k],
        ring_pass(m, pairs, vs, f, fresh, i).3 <= fresh.len(),
    ensures
        ring_pass(m, pairs, vs, f, fresh2, i) == ring_pass(m, pairs, vs, f, fresh, i),
    decreases i,
{
    if i > 0 {
        lemma_ring_pass_used(m, pairs, vs, f, fresh, (i - 1) as nat);
        lemma_ring_pass_prefix(m, pairs, vs, f, fresh, fresh2, (i - 1) as nat);
    }
}

/// `ring_pass` uses no more handles as it goes.
pub proof fn lemma_ring_pass_used<P>(
    m: MeshModel<P>,
    pairs: Map<(VertexId, VertexId), HalfEdgeId>,
    vs: Seq<VertexId>,
    f: FaceId,
    fresh: Seq<HalfEdgeId>,
    i: nat,
)
    ensures
        ring_pass(m, pairs, vs, f, fresh, i).3 <= ring_pass(m, pairs, vs, f, fresh, i + 1).3,
{
}

/// Links each of the first `i` half-edges of the ring `hs` to the following one.
pub open spec fn link_nexts<P>(m: MeshModel<P>, hs: Seq<HalfEdgeId>, i: nat) -> MeshModel<P>
    decreases i,
{
    if i == 0 {
        m
    } else {
        link_nexts(m, hs, (i - 1) as nat).set_next(hs[i - 1], Some(hs[ring_succ(i, hs.len())]))
    }
}

/// Twins each of the first `i` sides of the ring with the half-edge
/// recorded for the reverse pair, where there is one.
pub open spec fn link_twins<P>(
    m: MeshModel<P>,
    pairs: Map<(VertexId, VertexId), HalfEdgeId>,
    vs: Seq<VertexId>,
    hs: Seq<HalfEdgeId>,
    i: nat,
) -> MeshModel<P>
    decreases i,
{
    if i == 0 {
        m
    } else {
        let mi = link_twins(m, pairs, vs, hs, (i - 1) as nat);
        let a = vs[i - 1];
        let b = vs[ring_succ(i, vs.len())];
        if pairs.contains_key((b, a)) {
            let t = pairs[(b, a)];
            mi.set_twin(t, Some(hs[i - 1])).set_twin(hs[i - 1], Some(t))
        } else {
            mi
        }
    }
}

/// The passes of `add_face` over half-edges leave the faces as they are.
pub proof fn lemma_ring_pass_faces<P>(
    m: MeshModel<P>,
    pairs: Map<(VertexId, VertexId), HalfEdgeId>,
    vs: Seq<VertexId>,
    f: FaceId,
    fresh: Seq<HalfEdgeId>,
    i: nat,
)
    ensures
        ring_pass(m, pairs, vs, f, fresh, i).0.faces == m.faces,
    decreases i,
{
    if i > 0 {
        lemma_ring_pass_faces(m, pairs, vs, f, fresh, (i - 1) as nat);
    }
}

pub proof fn lemma_link_faces<P>(
    m: MeshModel<P>,
    pairs: Map<(VertexId, VertexId), HalfEdgeId>,
    vs: Seq<VertexId>,
    hs: Seq<HalfEdgeId>,
    i: nat,
)
    ensures
        link_nexts(m, hs, i).faces == m.faces,
        link_twins(m, pairs, vs, hs, i).faces == m.faces,
    decreases i,
{
    if i > 0 {
        lemma_link_faces(m, pairs, vs, hs, (i - 1) as nat);
    }
}

/// What `add_face(vs)` makes of mesh `m` and pairs `pairs`, given the new
/// face `f` and the handles `fresh` of the half-edges it adds, in order.
pub open spec fn add_face_model<P>(
    m: MeshModel<P>,
    pairs: Map<(VertexId, VertexId), HalfEdgeId>,
    vs: Seq<VertexId>,
    f: FaceId,
    fresh: Seq<HalfEdgeId>,
) -> (MeshModel<P>, Map<(VertexId, VertexId), HalfEdgeId>, nat) {
    let n = vs.len();
    let m0 = m.with_face(f, crate::mesh::Face { halfedge: None });
    let (m1, pairs1, hs, used) = ring_pass(m0, pairs, vs, f, fresh, n);
    let m2 = link_nexts(m1, hs, n).set_face_he(f, Some(hs[0]));
    (link_twins(m2, pairs1, vs, hs, n), pairs1, used)
}

/// `after` and `pairs_after` are what `add_face(vs)` made of `m` and
/// `pairs` when it returned face `f`: `f` and the half-edges it added are
/// fresh and distinct.
pub open spec fn face_added<P>(
    m: MeshModel<P>,
    pairs: Map<(VertexId, VertexId), HalfEdgeId>,
    vs: Seq<VertexId>,
    f: FaceId,
    after: MeshModel<P>,
    pairs_after: Map<(VertexId, VertexId), HalfEdgeId>,
) -> bool {
    exists|fresh: Seq<HalfEdgeId>|
        {
            &&& !m.faces.contains_key(f)
            &&& forall|i: int| 0 <= i < fresh.len() ==> !m.hes.contains_key(#[trigger] fresh[i])
            &&& forall|i: int, j: int| 0 <= i < j < fresh.len() ==> fresh[i] != fresh[j]
            &&& add_face_model(m, pairs, vs, f, fresh) == (after, pairs_after, fresh.len())
        }
}

/// Creates a face on the ring of vertices `vs`, given in winding order. A
/// side whose pair of vertices `pairs` already records reuses that
/// half-edge; the others are new. The sides are linked in order, and each
/// side twins with the half-edge recorded for its reverse pair, if any.
pub fn add_face<P: Copy>(mesh: &mut HalfEdgeMesh<P>, vs: &Vec<VertexId>, pairs: &mut PairMap) -> (r: Result<
    FaceId,
    MeshError,
>)
    requires
        old(mesh).wf(),
        old(mesh).has_room(vs@.len() + 1),
        vs@.len() > 0,
    ensures
        final(mesh).wf(),
        r is Ok ==> final(mesh)@.faces.dom() == old(mesh)@.faces.dom().insert(r->Ok_0),
        final(mesh)@.verts.dom() == old(mesh)@.verts.dom(),
        forall|u: VertexId|
            #[trigger] old(mesh)@.verts.contains_key(u) ==> final(mesh)@.verts[u].position
                == old(mesh)@.verts[u].position,
        r is Ok ==> forall|k: (VertexId, VertexId)|
            #[trigger] final(pairs)@.contains_key(k) ==> final(mesh)@.hes.contains_key(final(pairs)@[k]),
        final(mesh).caps().0 == old(mesh).caps().0,
        final(mesh).caps().1 <= old(mesh).caps().1 + vs@.len(),
        final(mesh).caps().2 <= old(mesh).caps().2 + 1,
        sides_readable(old(mesh)@) ==> sides_readable(final(mesh)@),
        match r {
            Ok(f) => face_added(old(mesh)@, old(pairs)@, vs@, f, final(mesh)@, final(pairs)@),
            Err(e) => e == MeshError::StaleHandle && final(mesh)@ == old(mesh)@ && final(pairs)@ == old(
                pairs,
            )@ && !ring_ready(old(mesh)@, old(pairs)@, vs@),
        },
{
    if !check_ring(mesh, vs, pairs) {
        return Err(MeshError::StaleHandle);
    }
    let ghost m = mesh@;
    let ghost pairs0 = pairs@;
    let n = vs.len();
    let f = mesh.alloc_face(None);
    let ghost m0 = mesh@;
    let mut hs: Vec<HalfEdgeId> = Vec::new();
    let ghost mut fresh: Seq<HalfEdgeId> = Seq::empty();
    let mut i: usize = 0;
    while i < n
        invariant
            mesh.wf(),
            n == vs@.len(),
            i <= n,
            m0 == m.with_face(f, crate::mesh::Face { halfedge: None }),
            !m.faces.contains_key(f),
            ring_ready(m, pairs0, vs@),
            mesh.caps().0 == old(mesh).caps().0,
            mesh.caps().1 <= old(mesh).caps().1 + i,
            mesh.caps().2 <= old(mesh).caps().2 + 1,
            old(mesh).has_room(vs@.len() + 1),
            ring_pass(m0, pairs0, vs@, f, fresh, i as nat) == (mesh@, pairs@, hs@, fresh.len()),
            forall|k: int| 0 <= k < fresh.len() ==> !m.hes.contains_key(#[trigger] fresh[k]),
            forall|k: int| 0 <= k < fresh.len() ==> mesh@.hes.contains_key(#[trigger] fresh[k]),
            forall|k: int, j: int| 0 <= k < j < fresh.len() ==> fresh[k] != fresh[j],
            forall|k: int| 0 <= k < hs@.len() ==> mesh@.hes.contains_key(#[trigger] hs@[k]),
            hs@.len() == i,
            forall|x: VertexId| m.verts.contains_key(x) ==> mesh@.verts.contains_key(x),
            forall|x: HalfEdgeId| m.hes.contains_key(x) ==> mesh@.hes.contains_key(x),
            mesh@.faces.contains_key(f),
            forall|k: (VertexId, VertexId)| #[trigger] pairs@.contains_key(k) ==> mesh@.hes.contains_key(pairs@[k]),
            mesh@.verts.dom() == m.verts.dom(),
            forall|u: VertexId| #[trigger] m.verts.contains_key(u) ==> mesh@.verts[u].position == m.verts[u].position,
            m == old(mesh)@,
            sides_readable(m) ==> forall|h: HalfEdgeId|
                #[trigger] mesh@.hes.contains_key(h) ==> mesh@.vertex_of(h) is Ok && (mesh@.next_of(h) is Ok
                    || hs@.contains(h)),
        decreases n - i,
    {
        let a = vs[i];
        let b = if i + 1 < n { vs[i + 1] } else { vs[0] };
        let h = match pairs.get(a, b) {
            Some(h) => {
                mesh.write_face_of(h, Some(f));
                h
            },
            None => {
                let h = mesh.alloc_halfedge(HalfEdge { vertex: Some(a), face: Some(f), twin: None, next: None });
                proof {
                    lemma_ring_pass_prefix(m0, pairs0, vs@, f, fresh, fresh.push(h), i as nat);
                    fresh = fresh.push(h);
                }
                h
            },
        };
        pairs.insert(a, b, h);
        let ghost hs0 = hs@;
        mesh.write_vertex_halfedge(a, Some(h));
        hs.push(h);
        proof {
            if sides_readable(m) {
                assert forall|g: HalfEdgeId| #[trigger] mesh@.hes.contains_key(g) implies mesh@.vertex_of(g) is Ok
                    && (mesh@.next_of(g) is Ok || hs@.contains(g)) by {
                    if g != h {
                        if hs0.contains(g) {
                            let q = choose|q: int| 0 <= q < hs0.len() && hs0[q] == g;
                            assert(hs@[q] == g);
                        }
                    } else {
                        assert(hs@[hs@.len() - 1] == h);
                    }
                }
            }
        }
        i += 1;
    }
    let ghost m1 = mesh@;
    let ghost c1 = mesh.caps();
    assert(hs@.subrange(0, n as int) =~= hs@);
    let ghost pairs1 = pairs@;
    let mut j: usize = 0;
    while j < n
        invariant
            mesh.wf(),
            n == vs@.len(),
            hs@.len() == n,
            j <= n,
            mesh@ == link_nexts(m1, hs@, j as nat),
            pairs@ == pairs1,
            forall|k: int| 0 <= k < hs@.len() ==> mesh@.hes.contains_key(#[trigger] hs@[k]),
            mesh@.faces.contains_key(f),
            mesh@.hes.dom() == m1.hes.dom(),
            forall|k: (VertexId, VertexId)| #[trigger] pairs@.contains_key(k) ==> mesh@.hes.contains_key(pairs@[k]),
            mesh@.verts == m1.verts,
            mesh.caps() == c1,
            sides_readable(m) ==> forall|h: HalfEdgeId|
                #[trigger] mesh@.hes.contains_key(h) ==> mesh@.vertex_of(h) is Ok && (mesh@.next_of(h) is Ok
                    || hs@.subrange(j as int, n as int).contains(h)),
        decreases n - j,
    {
        let next = if j + 1 < n { hs[j + 1] } else { hs[0] };
        let ghost before = mesh@;
        mesh.write_next(hs[j], Some(next));
        proof {
            if sides_readable(m) {
                assert forall|g: HalfEdgeId| #[trigger] mesh@.hes.contains_key(g) implies mesh@.vertex_of(g) is Ok
                    && (mesh@.next_of(g) is Ok || hs@.subrange(j + 1, n as int).contains(g)) by {
                    assert(before.hes.contains_key(g));
                    if g != hs@[j as int] && hs@.subrange(j as int, n as int).contains(g) {
                        let q = choose|q: int| 0 <= q < n - j && hs@.subrange(j as int, n as int)[q] == g;
                        assert(q != 0);
                        assert(hs@.subrange(j + 1, n as int)[q - 1] == g);
                    }
                }
            }
        }
        j += 1;
    }
    assert(mesh@.faces.contains_key(f));
    mesh.write_face_halfedge(f, Some(hs[0]));
    let ghost m2 = mesh@;
    assert(hs@.subrange(n as int, n as int) =~= Seq::<HalfEdgeId>::empty());
    let mut k: usize = 0;
    while k < n
        invariant
            mesh.wf(),
            n == vs@.len(),
            hs@.len() == n,
            k <= n,
            mesh@ == link_twins(m2, pairs@, vs@, hs@, k as nat),
            pairs@ == pairs1,
            forall|q: int| 0 <= q < hs@.len() ==> mesh@.hes.contains_key(#[trigger] hs@[q]),
            mesh@.hes.dom() == m2.hes.dom(),
            forall|q: (VertexId, VertexId)| #[trigger] pairs@.contains_key(q) ==> mesh@.hes.contains_key(pairs@[q]),
            mesh@.verts == m2.verts,
            mesh.caps() == c1,
            sides_readable(m) ==> sides_readable(mesh@),
        decreases n - k,
    {
        let a = vs[k];
        let b = if k + 1 < n { vs[k + 1] } else { vs[0] };
        match pairs.get(b, a) {
            Some(t) => {
                mesh.write_twin(t, Some(hs[k]));
                mesh.write_twin(hs[k], Some(t));
            },
            None => {},
        }
        k += 1;
    }
    assert(add_face_model(m, pairs0, vs@, f, fresh) == (mesh@, pairs@, fresh.len()));
    proof {
        lemma_ring_pass_faces(m0, pairs0, vs@, f, fresh, n as nat);
        lemma_link_faces(m1, pairs1, vs@, hs@, n as nat);
        lemma_link_faces(m2, pairs1, vs@, hs@, n as nat);
        assert(mesh@.faces.dom() =~= m.faces.dom().insert(f));
    }
    assert(face_added(m, pairs0, vs@, f, mesh@, pairs@));
    Ok(f)
}

/// The ring's vertices are live and every recorded pair names a live
/// half-edge.
pub open spec fn ring_ready<P>(m: MeshModel<P>, pairs: Map<(VertexId, VertexId), HalfEdgeId>, vs: Seq<VertexId>) -> bool {
    &&& forall|i: int| 0 <= i < vs.len() ==> m.verts.contains_key(#[trigger] vs[i])
    &&& forall|k: (VertexId, VertexId)| #[trigger] pairs.contains_key(k) ==> m.hes.contains_key(pairs[k])
}

fn check_ring<P: Copy>(mesh: &HalfEdgeMesh<P>, vs: &Vec<VertexId>, pairs: &PairMap) -> (r: bool)
    ensures
        r == ring_ready(mesh@, pairs@, vs@),
{
    let mut i: usize = 0;
    while i < vs.len()
        invariant
            i <= vs@.len(),
            forall|k: int| 0 <= k < i ==> mesh@.verts.contains_key(#[trigger] vs@[k]),
        decreases vs@.len() - i,
    {
        if !mesh.contains_vertex(vs[i]) {
            return false;
        }
        i += 1;
    }
    pairs.all_live(mesh)
}

/// Builds a mesh from vertex positions and polygons, each a ring of indices
/// into `positions` in winding order. Every side that no polygon shares gets
/// a boundary twin without a face, and boundary half-edges are linked into
/// loops. An index that names no position, or an empty polygon, is
/// `StaleHandle`.
pub fn from_polygons<P: Copy>(positions: &Vec<P>, polygons: &Vec<Vec<usize>>) -> (r: Result<
    HalfEdgeMesh<P>,
    MeshError,
>)
    ensures
        r is Ok ==> r->Ok_0.wf(),
        r is Ok ==> forall|h: HalfEdgeId| #[trigger] r->Ok_0@.hes.contains_key(h) ==> r->Ok_0@.hes[h].twin is Some,
        (exists|p: int, k: int|
            0 <= p < polygons@.len() && 0 <= k < polygons@[p]@.len() && #[trigger] polygons@[p]@[k]
                >= positions@.len()) ==> r is Err,
        polygons_fit(positions@.len(), polygons@) ==> r is Ok,
        r is Ok ==> polygons_built(positions@, polygons@, r->Ok_0@),
{
    let ghost fit = polygons_fit(positions@.len(), polygons@);
    let mut mesh: HalfEdgeMesh<P> = HalfEdgeMesh::new();
    let mut ids: Vec<VertexId> = Vec::new();
    proof {
        assert(ids@.to_set() =~= Set::<VertexId>::empty());
        assert(mesh@.verts.dom() =~= Set::<VertexId>::empty());
    }
    let mut i: usize = 0;
    while i < positions.len()
        invariant
            mesh.wf(),
            i <= positions@.len(),
            ids@.len() == i,
            mesh.caps().0 <= i,
            mesh.caps().1 == 0,
            mesh.caps().2 == 0,
            mesh@.hes.is_empty(),
            forall|q: int| 0 <= q < i ==> mesh@.verts.contains_key(#[trigger] ids@[q]),
            fit == polygons_fit(positions@.len(), polygons@),
            vertices_placed(positions@.take(i as int), ids@, mesh@),
        decreases positions@.len() - i,
    {
        if !mesh.room_for(1) {
            return Err(MeshError::CapacityExhausted);
        }
        let ghost before = mesh@;
        let ghost ids0 = ids@;
        let v = mesh.alloc_vertex(positions[i], None);
        ids.push(v);
        proof {
            assert(mesh@.hes =~= Map::<HalfEdgeId, HalfEdge>::empty());
            ids0.lemma_push_to_set_commute(v);
            assert(mesh@.verts.dom() =~= ids@.to_set());
            assert(positions@.take(i as int + 1) =~= positions@.take(i as int).push(positions@[i as int]));
            assert(!ids0.contains(v)) by {
                if ids0.contains(v) {
                    let q = choose|q: int| 0 <= q < ids0.len() && ids0[q] == v;
                    assert(before.verts.contains_key(ids0[q]));
                }
            }
            assert forall|q: int| 0 <= q < ids@.len() implies #[trigger] mesh@.verts[ids@[q]] == (crate::mesh::Vertex {
                position: positions@.take(i as int + 1)[q],
                halfedge: None,
            }) by {
                if q < i {
                    assert(ids@[q] == ids0[q]);
                    assert(before.verts.contains_key(ids0[q]));
                }
            }
            assert forall|a: int, c: int| 0 <= a < c < ids@.len() implies ids@[a] != ids@[c] by {
                if c == i {
                    assert(ids0.contains(ids@[a]));
                }
            }
        }
        i += 1;
    }
    let mut pairs = PairMap::new();
    assert(polygons@.take(0) =~= Seq::<Vec<usize>>::empty());
    assert(positions@.take(positions@.len() as int) =~= positions@);
    let ghost m1 = mesh@;
    let ghost mut ms: Seq<MeshModel<P>> = seq![m1];
    let ghost mut ps: Seq<Map<(VertexId, VertexId), HalfEdgeId>> = seq![pairs@];
    let ghost mut fs: Seq<FaceId> = Seq::empty();
    let mut p: usize = 0;
    while p < polygons.len()
        invariant
            mesh.wf(),
            p <= polygons@.len(),
            ids@.len() == positions@.len(),
            forall|q: int, k: int|
                0 <= q < p && 0 <= k < polygons@[q]@.len() ==> #[trigger] polygons@[q]@[k] < positions@.len(),
            fit == polygons_fit(positions@.len(), polygons@),
            mesh.caps().0 <= positions@.len(),
            mesh.caps().1 <= total_len(polygons@.take(p as int)),
            mesh.caps().2 <= p,
            sides_readable(mesh@),
            forall|q: int| 0 <= q < ids@.len() ==> mesh@.verts.contains_key(#[trigger] ids@[q]),
            forall|key: (VertexId, VertexId)| #[trigger] pairs@.contains_key(key) ==> mesh@.hes.contains_key(pairs@[key]),
            vertices_placed(positions@, ids@, m1),
            faces_built(ids@, polygons@, ms, ps, fs, p as int),
            ms[0] == m1,
            ps[0] == Map::<(VertexId, VertexId), HalfEdgeId>::empty(),
            ms[p as int] == mesh@,
            ps[p as int] == pairs@,
        decreases polygons@.len() - p,
    {
        let poly = &polygons[p];
        let mut ring: Vec<VertexId> = Vec::new();
        let mut k: usize = 0;
        while k < poly.len()
            invariant
                k <= poly@.len(),
                ids@.len() == positions@.len(),
                poly@ == polygons@[p as int]@,
                forall|j: int| 0 <= j < k ==> #[trigger] poly@[j] < positions@.len(),
                ring@.len() == k,
                ring@ == ring_of(ids@, poly@).take(k as int),
                forall|q: int| 0 <= q < ids@.len() ==> mesh@.verts.contains_key(#[trigger] ids@[q]),
                forall|j: int| 0 <= j < k ==> mesh@.verts.contains_key(#[trigger] ring@[j]),
                fit == polygons_fit(positions@.len(), polygons@),
                p < polygons@.len(),
            decreases poly@.len() - k,
        {
            if poly[k] >= ids.len() {
                return Err(MeshError::StaleHandle);
            }
            ring.push(ids[poly[k]]);
            k += 1;
        }
        if ring.len() == 0 {
            return Err(MeshError::StaleHandle);
        }
        proof {
            assert(polygons@.take(p as int + 1).drop_last() =~= polygons@.take(p as int));
            assert(polygons@.take(p as int + 1).last() == polygons@[p as int]);
            lemma_total_len_prefix(polygons@, p as int + 1);
        }
        if ring.len() >= usize::MAX - 1 || !mesh.room_for(ring.len() + 1) {
            return Err(MeshError::CapacityExhausted);
        }
        assert(ring@ =~= ring_of(ids@, polygons@[p as int]@));
        let ghost pre_m = mesh@;
        let ghost pre_p = pairs@;
        let f = add_face(&mut mesh, &ring, &mut pairs)?;
        proof {
            let ms0 = ms;
            let ps0 = ps;
            let fs0 = fs;
            ms = ms.push(mesh@);
            ps = ps.push(pairs@);
            fs = fs.push(f);
            assert forall|q: int| 0 <= q < p + 1 implies #[trigger] face_added(
                ms[q],
                ps[q],
                ring_of(ids@, polygons@[q]@),
                fs[q],
                ms[q + 1],
                ps[q + 1],
            ) by {
                if q < p {
                    assert(ms[q] == ms0[q] && ms[q + 1] == ms0[q + 1] && ps[q] == ps0[q] && ps[q + 1] == ps0[q + 1] && fs[q] == fs0[q]);
                    assert(face_added(ms0[q], ps0[q], ring_of(ids@, polygons@[q]@), fs0[q], ms0[q + 1], ps0[q + 1]));
                }
            }
        }
        p += 1;
    }
    proof {
        assert forall|q: int, k: int|
            0 <= q < polygons@.len() && 0 <= k < polygons@[q]@.len() implies #[trigger] polygons@[q]@[k]
                < positions@.len() by {}
    }
    proof {
        assert(polygons@.take(polygons@.len() as int) =~= polygons@);
        assert forall|h: HalfEdgeId| #[trigger] mesh@.hes.contains_key(h) implies open_side_ok(mesh@, h) by {
            if mesh@.hes[h].twin is None {
                assert(mesh@.hes.contains_key(mesh@.next_of(h)->Ok_0));
            }
        }
    }
    let ghost built = mesh@;
    close_boundary(&mut mesh)?;
    assert(polygons_built(positions@, polygons@, mesh@)) by {
        assert(ms[polygons@.len() as int] == built);
    }
    Ok(mesh)
}

/// `n` holds exactly the vertices `ids`, distinct, vertex `i` at
/// `positions[i]` with no half-edge, and nothing else.
pub open spec fn vertices_placed<P>(positions: Seq<P>, ids: Seq<VertexId>, n: MeshModel<P>) -> bool {
    &&& ids.len() == positions.len()
    &&& forall|a: int, c: int| 0 <= a < c < ids.len() ==> ids[a] != ids[c]
    &&& n.verts.dom() == ids.to_set()
    &&& forall|q: int|
        0 <= q < ids.len() ==> #[trigger] n.verts[ids[q]] == (crate::mesh::Vertex { position: positions[q], halfedge: None })
    &&& n.hes.is_empty()
    &&& n.faces.is_empty()
}

/// The ring of vertices that polygon `poly` names.
pub open spec fn ring_of(ids: Seq<VertexId>, poly: Seq<usize>) -> Seq<VertexId> {
    Seq::new(poly.len(), |k: int| ids[poly[k] as int])
}

/// The first `k` polygons added in turn as faces `fs`, through the states
/// `ms` and pair records `ps`.
pub open spec fn faces_built<P>(
    ids: Seq<VertexId>,
    polys: Seq<Vec<usize>>,
    ms: Seq<MeshModel<P>>,
    ps: Seq<Map<(VertexId, VertexId), HalfEdgeId>>,
    fs: Seq<FaceId>,
    k: int,
) -> bool {
    &&& 0 <= k <= polys.len()
    &&& ms.len() == k + 1
    &&& ps.len() == k + 1
    &&& fs.len() == k
    &&& forall|q: int|
        0 <= q < k ==> #[trigger] face_added(ms[q], ps[q], ring_of(ids, polys[q]@), fs[q], ms[q + 1], ps[q + 1])
}

/// `n` is the mesh that `from_polygons` builds: one vertex per position,
/// each polygon added in turn as a face by `add_face` (face `fs[p]` for
/// polygon `p`), and the boundary then closed.
pub open spec fn polygons_built<P>(positions: Seq<P>, polys: Seq<Vec<usize>>, n: MeshModel<P>) -> bool {
    exists|
        ids: Seq<VertexId>,
        ms: Seq<MeshModel<P>>,
        ps: Seq<Map<(VertexId, VertexId), HalfEdgeId>>,
        fs: Seq<FaceId>,
    |
        #![trigger faces_built(ids, polys, ms, ps, fs, polys.len() as int)]
        vertices_placed(positions, ids, ms[0]) && ps[0] == Map::<(VertexId, VertexId), HalfEdgeId>::empty()
            && faces_built(ids, polys, ms, ps, fs, polys.len() as int) && boundary_closed(ms[polys.len() as int], n)
}

/// Every index of `polys` names one of `n` positions, no polygon is empty,
/// and the elements they make fit in the arenas with room to spare.
pub open spec fn polygons_fit(n: nat, polys: Seq<Vec<usize>>) -> bool {
    &&& forall|p: int, k: int| 0 <= p < polys.len() && 0 <= k < polys[p]@.len() ==> #[trigger] polys[p]@[k] < n
    &&& forall|p: int| 0 <= p < polys.len() ==> (#[trigger] polys[p])@.len() > 0
    &&& n + 2 * total_len(polys) + polys.len() + 4 < usize::MAX
}

/// Every half-edge's start and successor read.
pub open spec fn sides_readable<P>(m: MeshModel<P>) -> bool {
    forall|h: HalfEdgeId| #[trigger] m.hes.contains_key(h) ==> m.vertex_of(h) is Ok && m.next_of(h) is Ok
}

/// The number of indices in all of `polys`.
pub open spec fn total_len(polys: Seq<Vec<usize>>) -> nat
    decreases polys.len(),
{
    if polys.len() == 0 {
        0
    } else {
        total_len(polys.drop_last()) + polys.last()@.len()
    }
}

pub proof fn lemma_total_len_prefix(polys: Seq<Vec<usize>>, k: int)
    requires
        0 <= k <= polys.len(),
    ensures
        total_len(polys.take(k)) <= total_len(polys),
    decreases polys.len() - k,
{
    if k < polys.len() {
        assert(polys.drop_last().take(k) =~= polys.take(k));
        lemma_total_len_prefix(polys.drop_last(), k);
    } else {
        assert(polys.take(k) =~= polys);
    }
}

/// A half-edge without a twin can be given one: its start, its successor
/// and its successor's start all read.
pub open spec fn open_side_ok<P>(m: MeshModel<P>, h: HalfEdgeId) -> bool {
    m.hes[h].twin is None ==> {
        &&& m.vertex_of(h) is Ok
        &&& m.next_of(h) is Ok
        &&& m.vertex_of(m.next_of(h)->Ok_0) is Ok
    }
}

/// A new half-edge `g` of `n` (not in `m`) is followed by a new half-edge
/// that starts where `g` ends, whenever some new half-edge starts there.
pub open spec fn boundary_linked<P>(m: MeshModel<P>, n: MeshModel<P>, g: HalfEdgeId) -> bool {
    let end = n.hes[n.hes[g].twin->Some_0].vertex;
    (exists|g2: HalfEdgeId| #[trigger] n.hes.contains_key(g2) && !m.hes.contains_key(g2) && n.hes[g2].vertex == end)
        ==> n.hes[g].next is Some && n.hes.contains_key(n.hes[g].next->Some_0) && !m.hes.contains_key(
        n.hes[g].next->Some_0,
    ) && n.hes[n.hes[g].next->Some_0].vertex == end
}

/// `n` is `m` with boundary twins added: the same vertices and faces; every
/// half-edge of `m` kept with its start, face and successor, and with its
/// twin where it had one; every new half-edge lies on no face and twins
/// with a half-edge of `m` that had no twin, which now twins with it.
pub open spec fn boundary_closed<P>(m: MeshModel<P>, n: MeshModel<P>) -> bool {
    &&& n.verts == m.verts
    &&& n.faces == m.faces
    &&& forall|g: HalfEdgeId|
        #[trigger] m.hes.contains_key(g) ==> n.hes.contains_key(g) && n.hes[g].vertex == m.hes[g].vertex && n.hes[g].face
            == m.hes[g].face && n.hes[g].next == m.hes[g].next && (m.hes[g].twin is Some ==> n.hes[g].twin
            == m.hes[g].twin)
    &&& forall|g: HalfEdgeId|
        #[trigger] n.hes.contains_key(g) && !m.hes.contains_key(g) ==> n.hes[g].face is None && n.hes[g].twin is Some
            && m.hes.contains_key(n.hes[g].twin->Some_0) && m.hes[n.hes[g].twin->Some_0].twin is None
            && n.hes[n.hes[g].twin->Some_0].twin == Some(g)
}

/// Entries with slot indices that strictly increase have each an index at
/// least their position.
pub proof fn lemma_increasing_idx(s: Seq<HalfEdgeId>, q: int)
    requires
        forall|i: int, j: int| 0 <= i < j < s.len() ==> s[i].key.idx < s[j].key.idx,
        0 <= q < s.len(),
    ensures
        s[q].key.idx >= q,
    decreases q,
{
    if q > 0 {
        lemma_increasing_idx(s, q - 1);
    }
}

/// Gives every half-edge without a twin a boundary twin, and links the
/// boundary half-edges into loops: each one leads to the boundary half-edge
/// that starts where it ends. It succeeds whenever every half-edge without
/// a twin has a readable start, successor and successor's start, and there
/// is room for as many half-edges again as there are slots.
pub fn close_boundary<P: Copy>(mesh: &mut HalfEdgeMesh<P>) -> (r: Result<(), MeshError>)
    requires
        old(mesh).wf(),
    ensures
        final(mesh).wf(),
        r is Ok ==> forall|h: HalfEdgeId| #[trigger] final(mesh)@.hes.contains_key(h) ==> final(mesh)@.hes[h].twin is Some,
        r is Ok ==> boundary_closed(old(mesh)@, final(mesh)@),
        r is Ok ==> forall|g: HalfEdgeId|
            #[trigger] final(mesh)@.hes.contains_key(g) && !old(mesh)@.hes.contains_key(g) ==> boundary_linked(
                old(mesh)@,
                final(mesh)@,
                g,
            ),
        (forall|h: HalfEdgeId| #[trigger] old(mesh)@.hes.contains_key(h) ==> open_side_ok(old(mesh)@, h)) && old(
            mesh,
        ).has_room(old(mesh).walk_bound()) ==> r is Ok,
{
    let ghost m0 = mesh@;
    let ghost c0 = mesh.caps();
    let ghost ready = (forall|h: HalfEdgeId| #[trigger] m0.hes.contains_key(h) ==> open_side_ok(m0, h)) && mesh.has_room(
        mesh.walk_bound(),
    );
    let hs = mesh.iter_halfedges();
    assert(hs@.subrange(0, hs@.len() as int) =~= hs@);
    assert forall|q: int| 0 <= q < hs@.len() implies (#[trigger] hs@[q]).key.idx < c0.1 by {
        mesh.halfedges_below_walk_bound(hs@[q]);
    }
    let mut boundary: Vec<HalfEdgeId> = Vec::new();
    let mut starts: Vec<VertexId> = Vec::new();
    let ghost mut tws: Seq<HalfEdgeId> = Seq::empty();
    let mut i: usize = 0;
    while i < hs.len()
        invariant
            mesh.wf(),
            i <= hs@.len(),
            boundary@.len() == starts@.len(),
            boundary@.len() == tws.len(),
            forall|h: HalfEdgeId| #[trigger] mesh@.hes.contains_key(h) ==> mesh@.hes[h].twin is Some || hs@.subrange(
                i as int,
                hs@.len() as int,
            ).contains(h),
            m0 == old(mesh)@,
            c0 == old(mesh).caps(),
            ready == ((forall|h: HalfEdgeId| #[trigger] m0.hes.contains_key(h) ==> open_side_ok(m0, h))
                && old(mesh).has_room(old(mesh).walk_bound())),
            forall|q: int| 0 <= q < hs@.len() ==> m0.hes.contains_key(#[trigger] hs@[q]),
            forall|q: int| 0 <= q < hs@.len() ==> (#[trigger] hs@[q]).key.idx < c0.1,
            forall|a: int, b: int| 0 <= a < b < hs@.len() ==> hs@[a].key.idx < hs@[b].key.idx,
            forall|g: HalfEdgeId|
                #[trigger] m0.hes.contains_key(g) ==> mesh@.hes.contains_key(g) && mesh@.hes[g].vertex
                    == m0.hes[g].vertex && mesh@.hes[g].next == m0.hes[g].next && mesh@.hes[g].face == m0.hes[g].face
                    && (m0.hes[g].twin is Some ==> mesh@.hes[g].twin == m0.hes[g].twin),
            mesh@.faces == m0.faces,
            forall|g: HalfEdgeId|
                #[trigger] mesh@.hes.contains_key(g) && !m0.hes.contains_key(g) ==> mesh@.hes[g].face is None
                    && mesh@.hes[g].twin is Some && m0.hes.contains_key(mesh@.hes[g].twin->Some_0) && m0.hes[mesh@.hes[g].twin->Some_0].twin is None
                    && mesh@.hes[mesh@.hes[g].twin->Some_0].twin == Some(g),
            forall|q: int| i <= q < hs@.len() ==> mesh@.hes[#[trigger] hs@[q]].twin == m0.hes[hs@[q]].twin,
            mesh@.verts == m0.verts,
            mesh.caps().0 == c0.0,
            mesh.caps().2 == c0.2,
            mesh.caps().1 <= c0.1 + i,
            forall|q: int| 0 <= q < boundary@.len() ==> mesh@.hes[#[trigger] boundary@[q]].vertex == Some(starts@[q]),
            forall|a: int, c: int| 0 <= a < c < boundary@.len() ==> boundary@[a] != boundary@[c],
            forall|g: HalfEdgeId| #[trigger] mesh@.hes.contains_key(g) && !m0.hes.contains_key(g) ==> boundary@.contains(g),
            forall|q: int|
                0 <= q < boundary@.len() ==> {
                    &&& mesh@.hes.contains_key(#[trigger] boundary@[q])
                    &&& !m0.hes.contains_key(boundary@[q])
                    &&& mesh@.hes[boundary@[q]].twin == Some(tws[q])
                    &&& m0.hes.contains_key(tws[q])
                    &&& (ready ==> m0.vertex_of(tws[q]) is Ok)
                },
        decreases hs@.len() - i,
    {
        let h = hs[i];
        proof {
            lemma_increasing_idx(hs@, i as int);
        }
        let x = mesh.halfedge(h)?;
        if x.twin.is_none() {
            assert(m0.hes[h].twin is None);
            let n = mesh.next(h)?;
            let end = mesh.src_vertex(n)?;
            if !mesh.room_for(1) {
                return Err(MeshError::CapacityExhausted);
            }
            let ghost before = mesh@;
            let b = mesh.alloc_halfedge(HalfEdge { vertex: Some(end), face: None, twin: Some(h), next: None });
            if mesh.contains_halfedge(h) {
                mesh.write_twin(h, Some(b));
            }
            proof {
                assert forall|g: HalfEdgeId|
                    #[trigger] mesh@.hes.contains_key(g) && !m0.hes.contains_key(g) implies mesh@.hes[g].face is None
                        && mesh@.hes[g].twin is Some && m0.hes.contains_key(mesh@.hes[g].twin->Some_0)
                        && m0.hes[mesh@.hes[g].twin->Some_0].twin is None && mesh@.hes[mesh@.hes[g].twin->Some_0].twin
                        == Some(g) by {
                    if g != b {
                        assert(before.hes.contains_key(g));
                        let t = before.hes[g].twin->Some_0;
                        assert(t != h);
                    }
                }
            }
            let ghost bd0 = boundary@;
            boundary.push(b);
            starts.push(end);
            proof {
                assert forall|g: HalfEdgeId| #[trigger] mesh@.hes.contains_key(g) && !m0.hes.contains_key(g) implies boundary@.contains(g) by {
                    if g == b {
                        assert(boundary@[boundary@.len() - 1] == b);
                    } else {
                        assert(before.hes.contains_key(g));
                        assert(bd0.contains(g));
                        let q = choose|q: int| 0 <= q < bd0.len() && bd0[q] == g;
                        assert(boundary@[q] == g);
                    }
                }
                assert forall|a: int, c: int| 0 <= a < c < boundary@.len() implies boundary@[a] != boundary@[c] by {
                    if c == bd0.len() {
                        assert(before.hes.contains_key(bd0[a]));
                    }
                }
            }
            proof {
                tws = tws.push(h);
            }
        }
        proof {
            assert forall|g: HalfEdgeId| #[trigger] mesh@.hes.contains_key(g) implies mesh@.hes[g].twin is Some
                || hs@.subrange(i + 1, hs@.len() as int).contains(g) by {
                if g != h && hs@.subrange(i as int, hs@.len() as int).contains(g) {
                    let q = choose|q: int| 0 <= q < hs@.len() - i && hs@.subrange(i as int, hs@.len() as int)[q] == g;
                    assert(q != 0);
                    assert(hs@.subrange(i + 1, hs@.len() as int)[q - 1] == g);
                }
            }
            assert forall|q: int| i + 1 <= q < hs@.len() implies mesh@.hes[#[trigger] hs@[q]].twin
                == m0.hes[hs@[q]].twin by {
                assert(hs@[q].key.idx > hs@[i as int].key.idx);
            }
        }
        i += 1;
    }
    let ghost m1 = mesh@;
    assert(boundary_closed(m0, m1));
    let mut j: usize = 0;
    while j < boundary.len()
        invariant
            mesh.wf(),
            j <= boundary@.len(),
            boundary@.len() == starts@.len(),
            boundary@.len() == tws.len(),
            forall|h: HalfEdgeId| #[trigger] mesh@.hes.contains_key(h) ==> mesh@.hes[h].twin is Some,
            m0 == old(mesh)@,
            ready == ((forall|h: HalfEdgeId| #[trigger] m0.hes.contains_key(h) ==> open_side_ok(m0, h))
                && old(mesh).has_room(old(mesh).walk_bound())),
            mesh@.verts == m0.verts,
            mesh@.hes.dom() == m1.hes.dom(),
            forall|g: HalfEdgeId| #[trigger] mesh@.hes.contains_key(g) ==> mesh@.hes[g].twin == m1.hes[g].twin
                && mesh@.hes[g].vertex == m1.hes[g].vertex,
            forall|g: HalfEdgeId| #[trigger] m0.hes.contains_key(g) ==> m1.hes.contains_key(g) && m1.hes[g].vertex
                == m0.hes[g].vertex,
            boundary_closed(m0, m1),
            mesh@.faces == m1.faces,
            forall|g: HalfEdgeId| #[trigger] mesh@.hes.contains_key(g) && m0.hes.contains_key(g) ==> mesh@.hes[g] == m1.hes[g],
            forall|g: HalfEdgeId| #[trigger] mesh@.hes.contains_key(g) ==> mesh@.hes[g].face == m1.hes[g].face,
            forall|q: int| 0 <= q < boundary@.len() ==> m1.hes[#[trigger] boundary@[q]].vertex == Some(starts@[q]),
            forall|a: int, c: int| 0 <= a < c < boundary@.len() ==> boundary@[a] != boundary@[c],
            forall|g: HalfEdgeId| #[trigger] m1.hes.contains_key(g) && !m0.hes.contains_key(g) ==> boundary@.contains(g),
            forall|q: int| 0 <= q < j ==> boundary_linked(m0, mesh@, #[trigger] boundary@[q]),
            forall|q: int|
                0 <= q < boundary@.len() ==> {
                    &&& m1.hes.contains_key(#[trigger] boundary@[q])
                    &&& !m0.hes.contains_key(boundary@[q])
                    &&& m1.hes[boundary@[q]].twin == Some(tws[q])
                    &&& m0.hes.contains_key(tws[q])
                    &&& (ready ==> m0.vertex_of(tws[q]) is Ok)
                },
        decreases boundary@.len() - j,
    {
        let b = boundary[j];
        // b runs from starts[j] to the start of its twin.
        let t = mesh.twin(b)?;
        let to = mesh.src_vertex(t)?;
        let ghost before = mesh@;
        let mut linked = false;
        let mut k: usize = 0;
        while k < boundary.len()
            invariant
                mesh.wf(),
                k <= boundary@.len(),
                boundary@.len() == starts@.len(),
                forall|h: HalfEdgeId| #[trigger] mesh@.hes.contains_key(h) ==> mesh@.hes[h].twin is Some,
                mesh@.verts == m0.verts,
                mesh@.hes.dom() == m1.hes.dom(),
                forall|g: HalfEdgeId| #[trigger] mesh@.hes.contains_key(g) ==> mesh@.hes[g].twin == m1.hes[g].twin
                    && mesh@.hes[g].vertex == m1.hes[g].vertex,
                mesh@.faces == m1.faces,
                forall|g: HalfEdgeId| #[trigger] mesh@.hes.contains_key(g) && m0.hes.contains_key(g) ==> mesh@.hes[g] == m1.hes[g],
                forall|g: HalfEdgeId| #[trigger] mesh@.hes.contains_key(g) ==> mesh@.hes[g].face == m1.hes[g].face,
                forall|q: int| 0 <= q < boundary@.len() ==> !m0.hes.contains_key(#[trigger] boundary@[q]),
                forall|q: int| 0 <= q < boundary@.len() ==> m1.hes.contains_key(#[trigger] boundary@[q]),
                forall|q: int| 0 <= q < boundary@.len() ==> m1.hes[#[trigger] boundary@[q]].vertex == Some(starts@[q]),
                j < boundary@.len(),
                b == boundary@[j as int],
                m1.hes[b].twin == Some(t),
                m1.hes[t].vertex == Some(to),
                forall|g: HalfEdgeId| #[trigger] mesh@.hes.contains_key(g) && g != b ==> mesh@.hes[g] == before.hes[g],
                !linked ==> mesh@ == before && forall|q: int| 0 <= q < k ==> starts@[q] != to,
                linked ==> mesh@.hes[b].next is Some && mesh@.hes.contains_key(mesh@.hes[b].next->Some_0)
                    && !m0.hes.contains_key(mesh@.hes[b].next->Some_0) && mesh@.hes[mesh@.hes[b].next->Some_0].vertex
                    == Some(to),
            ensures
                !linked ==> k == boundary@.len(),
            decreases boundary@.len() - k,
        {
            if starts[k] == to && mesh.contains_halfedge(b) {
                mesh.write_next(b, Some(boundary[k]));
                linked = true;
                break;
            }
            k += 1;
        }
        proof {
            assert(boundary_linked(m0, mesh@, b)) by {
                if !linked {
                    if exists|g2: HalfEdgeId|
                        #[trigger] mesh@.hes.contains_key(g2) && !m0.hes.contains_key(g2) && mesh@.hes[g2].vertex == Some(to) {
                        let g2 = choose|g2: HalfEdgeId|
                            #[trigger] mesh@.hes.contains_key(g2) && !m0.hes.contains_key(g2) && mesh@.hes[g2].vertex == Some(to);
                        assert(boundary@.contains(g2));
                        let q = choose|q: int| 0 <= q < boundary@.len() && boundary@[q] == g2;
                        assert(starts@[q] != to);
                    }
                }
            }
            assert forall|q: int| 0 <= q < j + 1 implies boundary_linked(m0, mesh@, #[trigger] boundary@[q]) by {
                if q < j {
                    assert(boundary@[q] != b);
                    assert(boundary_linked(m0, before, boundary@[q]));
                    let g = boundary@[q];
                    assert(mesh@.hes[g] == before.hes[g]);
                    let tg = mesh@.hes[g].twin->Some_0;
                    if mesh@.hes[g].next is Some {
                        let nx = mesh@.hes[g].next->Some_0;
                        if before.hes.contains_key(nx) && nx != b {
                            assert(mesh@.hes[nx] == before.hes[nx]);
                        }
                    }
                    if mesh@.hes.contains_key(tg) && tg != b {
                        assert(mesh@.hes[tg] == before.hes[tg]);
                    }
                }
            }
        }
        j += 1;
    }
    proof {
        assert forall|g: HalfEdgeId| #[trigger] mesh@.hes.contains_key(g) && !m0.hes.contains_key(g) implies boundary_linked(
            m0,
            mesh@,
            g,
        ) by {
            assert(boundary@.contains(g));
            let q = choose|q: int| 0 <= q < boundary@.len() && boundary@[q] == g;
            assert(boundary_linked(m0, mesh@, boundary@[q]));
        }
    }
    assert(boundary_closed(m0, mesh@));
    Ok(())
}

} // verus!
