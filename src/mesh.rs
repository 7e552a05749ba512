//! The half-edge store: three arenas of vertices, half-edges and faces, and
//! the model that contracts speak of.
use vstd::prelude::*;
use crate::arena::{Arena, Key};

verus! {

#[derive(Clone, Copy, PartialEq, Eq, Structural, Debug, Hash, PartialOrd, Ord)]
pub struct VertexId {
    pub key: Key,
}

#[derive(Clone, Copy, PartialEq, Eq, Structural, Debug, Hash, PartialOrd, Ord)]
pub struct HalfEdgeId {
    pub key: Key,
}

#[derive(Clone, Copy, PartialEq, Eq, Structural, Debug, Hash, PartialOrd, Ord)]
pub struct FaceId {
    pub key: Key,
}

/// A vertex: its position and one outgoing half-edge, if it has any.
#[derive(Clone, Copy, Debug)]
pub struct Vertex<P> {
    pub position: P,
    pub halfedge: Option<HalfEdgeId>,
}

/// A directed half-edge. `vertex` is the vertex it starts from; a half-edge
/// without a face lies on a boundary.
#[derive(Clone, Copy, PartialEq, Eq, Structural, Debug)]
pub struct HalfEdge {
    pub vertex: Option<VertexId>,
    pub face: Option<FaceId>,
    pub twin: Option<HalfEdgeId>,
    pub next: Option<HalfEdgeId>,
}

/// A face: one half-edge of its boundary loop.
#[derive(Clone, Copy, PartialEq, Eq, Structural, Debug)]
pub struct Face {
    pub halfedge: Option<HalfEdgeId>,
}

#[derive(Clone, Copy, PartialEq, Eq, Structural, Debug)]
pub enum MeshError {
    /// A handle names an element that does not exist (or no longer does).
    StaleHandle,
    MissingTwin,
    MissingNext,
    MissingVertex,
    MissingHalfedge,
    HalfedgeHasNoFace,
    HalfedgeFromToNotFound(VertexId, VertexId),
    /// A walk did not return to its start within the mesh's half-edge count.
    CycleExceeded,
    VerticesShareNoFace,
    VerticesAlreadyConnected,
    FaceTooSmallToCut,
    BoundaryEdgeNotAllowed,
    IsolatedVertex,
    /// An arena has no handle left to give out.
    CapacityExhausted,
}

/// What a mesh holds: its live elements by handle.
pub struct MeshModel<P> {
    pub verts: Map<VertexId, Vertex<P>>,
    pub hes: Map<HalfEdgeId, HalfEdge>,
    pub faces: Map<FaceId, Face>,
}


impl<P> MeshModel<P> {
    pub open spec fn with_he(self, h: HalfEdgeId, x: HalfEdge) -> MeshModel<P> {
        MeshModel { verts: self.verts, hes: self.hes.insert(h, x), faces: self.faces }
    }

    pub open spec fn with_vertex(self, v: VertexId, x: Vertex<P>) -> MeshModel<P> {
        MeshModel { verts: self.verts.insert(v, x), hes: self.hes, faces: self.faces }
    }

    pub open spec fn with_face(self, f: FaceId, x: Face) -> MeshModel<P> {
        MeshModel { verts: self.verts, hes: self.hes, faces: self.faces.insert(f, x) }
    }

    /// Adds face `x` under `f`, where there is one.
    pub open spec fn put_face(self, f: Option<FaceId>, x: Face) -> MeshModel<P> {
        match f {
            Some(g) => self.with_face(g, x),
            None => self,
        }
    }

    pub open spec fn without_he(self, h: HalfEdgeId) -> MeshModel<P> {
        MeshModel { verts: self.verts, hes: self.hes.remove(h), faces: self.faces }
    }

    pub open spec fn without_vertex(self, v: VertexId) -> MeshModel<P> {
        MeshModel { verts: self.verts.remove(v), hes: self.hes, faces: self.faces }
    }

    pub open spec fn without_face(self, f: FaceId) -> MeshModel<P> {
        MeshModel { verts: self.verts, hes: self.hes, faces: self.faces.remove(f) }
    }

    pub open spec fn set_next(self, h: HalfEdgeId, n: Option<HalfEdgeId>) -> MeshModel<P> {
        self.with_he(h, HalfEdge { next: n, ..self.hes[h] })
    }

    pub open spec fn set_twin(self, h: HalfEdgeId, t: Option<HalfEdgeId>) -> MeshModel<P> {
        self.with_he(h, HalfEdge { twin: t, ..self.hes[h] })
    }

    pub open spec fn set_src(self, h: HalfEdgeId, v: Option<VertexId>) -> MeshModel<P> {
        self.with_he(h, HalfEdge { vertex: v, ..self.hes[h] })
    }

    pub open spec fn set_face(self, h: HalfEdgeId, f: Option<FaceId>) -> MeshModel<P> {
        self.with_he(h, HalfEdge { face: f, ..self.hes[h] })
    }

    pub open spec fn set_vertex_he(self, v: VertexId, h: Option<HalfEdgeId>) -> MeshModel<P> {
        self.with_vertex(v, Vertex { halfedge: h, ..self.verts[v] })
    }

    pub open spec fn set_face_he(self, f: FaceId, h: Option<HalfEdgeId>) -> MeshModel<P> {
        self.with_face(f, Face { halfedge: h })
    }
    /// Allocating `a` and `b` unlinked and linking them afterwards gives the
    /// same model as adding them linked.
    pub proof fn lemma_pair_alloc(
        self,
        a: HalfEdgeId,
        b: HalfEdgeId,
        g: FaceId,
        a0: HalfEdge,
        b0: HalfEdge,
        b1: HalfEdge,
        fg: Face,
    )
        requires
            a != b,
        ensures
            self.with_he(a, a0).with_he(b, b0).with_face(g, fg).with_he(b, b1).set_twin(a, Some(b))
                == self.with_he(a, HalfEdge { twin: Some(b), ..a0 }).with_he(b, b1).with_face(g, fg),
    {
        let l = self.with_he(a, a0).with_he(b, b0).with_face(g, fg).with_he(b, b1).set_twin(a, Some(b));
        let r = self.with_he(a, HalfEdge { twin: Some(b), ..a0 }).with_he(b, b1).with_face(g, fg);
        assert(l.hes =~= r.hes);
        assert(l.faces =~= r.faces);
        assert(l.verts =~= r.verts);
    }

    /// Sets the face of each half-edge of `s`, in order.
    pub open spec fn set_faces(self, s: Seq<HalfEdgeId>, f: Option<FaceId>) -> MeshModel<P>
        decreases s.len(),
    {
        if s.len() == 0 {
            self
        } else {
            self.set_faces(s.drop_last(), f).set_face(s.last(), f)
        }
    }

    /// Sets the start vertex of each half-edge of `s`, in order.
    pub open spec fn set_srcs(self, s: Seq<HalfEdgeId>, v: Option<VertexId>) -> MeshModel<P>
        decreases s.len(),
    {
        if s.len() == 0 {
            self
        } else {
            self.set_srcs(s.drop_last(), v).set_src(s.last(), v)
        }
    }

    pub proof fn lemma_set_faces(self, s: Seq<HalfEdgeId>, f: Option<FaceId>)
        requires
            forall|j: int| 0 <= j < s.len() ==> self.hes.contains_key(#[trigger] s[j]),
        ensures
            self.set_faces(s, f).hes.dom() == self.hes.dom(),
            self.set_faces(s, f).verts == self.verts,
            self.set_faces(s, f).faces == self.faces,
            forall|x: HalfEdgeId|
                #![trigger self.set_faces(s, f).hes[x]]
                self.hes.contains_key(x) ==> self.set_faces(s, f).hes[x] == (if s.contains(x) {
                    HalfEdge { face: f, ..self.hes[x] }
                } else {
                    self.hes[x]
                }),
        decreases s.len(),
    {
        if s.len() > 0 {
            let t = s.drop_last();
            self.lemma_set_faces(t, f);
            assert(self.set_faces(s, f).hes.dom() =~= self.hes.dom());
            assert forall|x: HalfEdgeId| self.hes.contains_key(x) implies #[trigger] self.set_faces(s, f).hes[x] == (if s.contains(x) {
                HalfEdge { face: f, ..self.hes[x] }
            } else {
                self.hes[x]
            }) by {
                if x != s.last() {
                    if s.contains(x) {
                        let j = choose|j: int| 0 <= j < s.len() && s[j] == x;
                        assert(t[j] == x);
                    }
                    if t.contains(x) {
                        let j = choose|j: int| 0 <= j < t.len() && t[j] == x;
                        assert(s[j] == x);
                    }
                } else {
                    assert(s[s.len() - 1] == x);
                }
            }
        }
    }

    pub proof fn lemma_set_srcs(self, s: Seq<HalfEdgeId>, v: Option<VertexId>)
        requires
            forall|j: int| 0 <= j < s.len() ==> self.hes.contains_key(#[trigger] s[j]),
        ensures
            self.set_srcs(s, v).hes.dom() == self.hes.dom(),
            self.set_srcs(s, v).verts == self.verts,
            self.set_srcs(s, v).faces == self.faces,
            forall|x: HalfEdgeId|
                #![trigger self.set_srcs(s, v).hes[x]]
                self.hes.contains_key(x) ==> self.set_srcs(s, v).hes[x] == (if s.contains(x) {
                    HalfEdge { vertex: v, ..self.hes[x] }
                } else {
                    self.hes[x]
                }),
        decreases s.len(),
    {
        if s.len() > 0 {
            let t = s.drop_last();
            self.lemma_set_srcs(t, v);
            assert(self.set_srcs(s, v).hes.dom() =~= self.hes.dom());
            assert forall|x: HalfEdgeId| self.hes.contains_key(x) implies #[trigger] self.set_srcs(s, v).hes[x] == (if s.contains(x) {
                HalfEdge { vertex: v, ..self.hes[x] }
            } else {
                self.hes[x]
            }) by {
                if x != s.last() {
                    if s.contains(x) {
                        let j = choose|j: int| 0 <= j < s.len() && s[j] == x;
                        assert(t[j] == x);
                    }
                    if t.contains(x) {
                        let j = choose|j: int| 0 <= j < t.len() && t[j] == x;
                        assert(s[j] == x);
                    }
                } else {
                    assert(s[s.len() - 1] == x);
                }
            }
        }
    }

    /// The start vertices of the half-edges of `s`, or the first error met.
    pub open spec fn srcs_of(self, s: Seq<HalfEdgeId>) -> Result<Seq<VertexId>, MeshError>
        decreases s.len(),
    {
        if s.len() == 0 {
            Ok(Seq::empty())
        } else {
            match self.srcs_of(s.drop_last()) {
                Err(e) => Err(e),
                Ok(p) => match self.vertex_of(s.last()) {
                    Err(e) => Err(e),
                    Ok(v) => Ok(p.push(v)),
                },
            }
        }
    }

    /// The faces of the half-edges of `s`, or the first error met.
    pub open spec fn faces_of(self, s: Seq<HalfEdgeId>) -> Result<Seq<FaceId>, MeshError>
        decreases s.len(),
    {
        if s.len() == 0 {
            Ok(Seq::empty())
        } else {
            match self.faces_of(s.drop_last()) {
                Err(e) => Err(e),
                Ok(p) => match self.face_of(s.last()) {
                    Err(e) => Err(e),
                    Ok(f) => Ok(p.push(f)),
                },
            }
        }
    }

    /// The twins of the half-edges of `s`, or the first error met.
    pub open spec fn twins_of(self, s: Seq<HalfEdgeId>) -> Result<Seq<HalfEdgeId>, MeshError>
        decreases s.len(),
    {
        if s.len() == 0 {
            Ok(Seq::empty())
        } else {
            match self.twins_of(s.drop_last()) {
                Err(e) => Err(e),
                Ok(p) => match self.twin_of(s.last()) {
                    Err(e) => Err(e),
                    Ok(t) => Ok(p.push(t)),
                },
            }
        }
    }

    pub proof fn lemma_srcs_of(self, s: Seq<HalfEdgeId>)
        requires
            self.srcs_of(s) is Ok,
        ensures
            self.srcs_of(s)->Ok_0.len() == s.len(),
            forall|j: int|
                0 <= j < s.len() ==> self.vertex_of(s[j]) == Ok::<VertexId, MeshError>(
                    #[trigger] self.srcs_of(s)->Ok_0[j],
                ),
        decreases s.len(),
    {
        if s.len() > 0 {
            self.lemma_srcs_of(s.drop_last());
        }
    }

    pub proof fn lemma_twins_of(self, s: Seq<HalfEdgeId>)
        requires
            self.twins_of(s) is Ok,
        ensures
            self.twins_of(s)->Ok_0.len() == s.len(),
            forall|j: int|
                0 <= j < s.len() ==> self.twin_of(s[j]) == Ok::<HalfEdgeId, MeshError>(
                    #[trigger] self.twins_of(s)->Ok_0[j],
                ),
        decreases s.len(),
    {
        if s.len() > 0 {
            self.lemma_twins_of(s.drop_last());
        }
    }

    /// An error among the first `k` entries is the error of the whole list.
    pub proof fn lemma_srcs_prefix_err(self, s: Seq<HalfEdgeId>, k: int)
        requires
            0 <= k <= s.len(),
            self.srcs_of(s.take(k)) is Err,
        ensures
            self.srcs_of(s) == self.srcs_of(s.take(k)),
        decreases s.len() - k,
    {
        if k < s.len() {
            assert(s.drop_last().take(k) =~= s.take(k));
            self.lemma_srcs_prefix_err(s.drop_last(), k);
        } else {
            assert(s.take(k) =~= s);
        }
    }

    /// An error among the first `k` entries is the error of the whole list.
    pub proof fn lemma_faces_prefix_err(self, s: Seq<HalfEdgeId>, k: int)
        requires
            0 <= k <= s.len(),
            self.faces_of(s.take(k)) is Err,
        ensures
            self.faces_of(s) == self.faces_of(s.take(k)),
        decreases s.len() - k,
    {
        if k < s.len() {
            assert(s.drop_last().take(k) =~= s.take(k));
            self.lemma_faces_prefix_err(s.drop_last(), k);
        } else {
            assert(s.take(k) =~= s);
        }
    }

    /// An error among the first `k` entries is the error of the whole list.
    pub proof fn lemma_twins_prefix_err(self, s: Seq<HalfEdgeId>, k: int)
        requires
            0 <= k <= s.len(),
            self.twins_of(s.take(k)) is Err,
        ensures
            self.twins_of(s) == self.twins_of(s.take(k)),
        decreases s.len() - k,
    {
        if k < s.len() {
            assert(s.drop_last().take(k) =~= s.take(k));
            self.lemma_twins_prefix_err(s.drop_last(), k);
        } else {
            assert(s.take(k) =~= s);
        }
    }

    /// The vertices around face `f`, from the face's own half-edge on.
    pub open spec fn face_vertices_of(self, f: FaceId, bound: nat) -> Result<Seq<VertexId>, MeshError> {
        match self.face_loop_of(f, bound) {
            Ok(s) => self.srcs_of(s),
            Err(e) => Err(e),
        }
    }

    /// The first half-edge of `s`, from index `i` on, that ends at `w`.
    pub open spec fn first_to(self, s: Seq<HalfEdgeId>, w: VertexId, i: nat) -> Option<HalfEdgeId>
        decreases s.len() - i,
    {
        if i >= s.len() {
            None
        } else if self.dst_of(s[i as int]) == Ok::<VertexId, MeshError>(w) {
            Some(s[i as int])
        } else {
            self.first_to(s, w, i + 1)
        }
    }

    /// The first half-edge leaving `v` that ends at `w`.
    pub open spec fn halfedge_to_of(self, v: VertexId, w: VertexId, bound: nat) -> Result<HalfEdgeId, MeshError> {
        match self.outgoing_of(v, bound) {
            Err(e) => Err(e),
            Ok(s) => match self.first_to(s, w, 0) {
                Some(h) => Ok(h),
                None => Err(MeshError::HalfedgeFromToNotFound(v, w)),
            },
        }
    }

    /// The twin of `h`, which must be live.
    pub open spec fn twin_of(self, h: HalfEdgeId) -> Result<HalfEdgeId, MeshError> {
        if !self.hes.contains_key(h) {
            Err(MeshError::StaleHandle)
        } else {
            match self.hes[h].twin {
                None => Err(MeshError::MissingTwin),
                Some(t) => if self.hes.contains_key(t) {
                    Ok(t)
                } else {
                    Err(MeshError::StaleHandle)
                },
            }
        }
    }

    /// The successor of `h` around its loop, which must be live.
    pub open spec fn next_of(self, h: HalfEdgeId) -> Result<HalfEdgeId, MeshError> {
        if !self.hes.contains_key(h) {
            Err(MeshError::StaleHandle)
        } else {
            match self.hes[h].next {
                None => Err(MeshError::MissingNext),
                Some(n) => if self.hes.contains_key(n) {
                    Ok(n)
                } else {
                    Err(MeshError::StaleHandle)
                },
            }
        }
    }

    /// The vertex that `h` starts from, which must be live.
    pub open spec fn vertex_of(self, h: HalfEdgeId) -> Result<VertexId, MeshError> {
        if !self.hes.contains_key(h) {
            Err(MeshError::StaleHandle)
        } else {
            match self.hes[h].vertex {
                None => Err(MeshError::MissingVertex),
                Some(v) => if self.verts.contains_key(v) {
                    Ok(v)
                } else {
                    Err(MeshError::StaleHandle)
                },
            }
        }
    }

    /// The face of `h`, which must be live; a boundary half-edge has none.
    pub open spec fn face_of(self, h: HalfEdgeId) -> Result<FaceId, MeshError> {
        if !self.hes.contains_key(h) {
            Err(MeshError::StaleHandle)
        } else {
            match self.hes[h].face {
                None => Err(MeshError::HalfedgeHasNoFace),
                Some(f) => if self.faces.contains_key(f) {
                    Ok(f)
                } else {
                    Err(MeshError::StaleHandle)
                },
            }
        }
    }

    /// The face of `h`, or `None` on a boundary.
    pub open spec fn face_or_boundary_of(self, h: HalfEdgeId) -> Result<Option<FaceId>, MeshError> {
        match self.face_of(h) {
            Ok(f) => Ok(Some(f)),
            Err(MeshError::HalfedgeHasNoFace) => Ok(None),
            Err(e) => Err(e),
        }
    }

    /// The half-edge that vertex `v` records, which must be live.
    pub open spec fn vertex_halfedge_of(self, v: VertexId) -> Result<HalfEdgeId, MeshError> {
        if !self.verts.contains_key(v) {
            Err(MeshError::StaleHandle)
        } else {
            match self.verts[v].halfedge {
                None => Err(MeshError::MissingHalfedge),
                Some(h) => if self.hes.contains_key(h) {
                    Ok(h)
                } else {
                    Err(MeshError::StaleHandle)
                },
            }
        }
    }

    /// The half-edge that face `f` records, which must be live.
    pub open spec fn face_halfedge_of(self, f: FaceId) -> Result<HalfEdgeId, MeshError> {
        if !self.faces.contains_key(f) {
            Err(MeshError::StaleHandle)
        } else {
            match self.faces[f].halfedge {
                None => Err(MeshError::MissingHalfedge),
                Some(h) => if self.hes.contains_key(h) {
                    Ok(h)
                } else {
                    Err(MeshError::StaleHandle)
                },
            }
        }
    }

    /// One step of a walk: `next` around a face loop, or `twin` then `next`
    /// around a vertex fan.
    pub open spec fn step(self, h: HalfEdgeId, fan: bool) -> Result<HalfEdgeId, MeshError> {
        if fan {
            match self.twin_of(h) {
                Ok(t) => self.next_of(t),
                Err(e) => Err(e),
            }
        } else {
            self.next_of(h)
        }
    }

    /// A loop found from step `i` on closes after more than `i` steps, within
    /// the bound, and first meets `start` again where it closes.
    pub proof fn lemma_cycle_len(self, start: HalfEdgeId, fan: bool, i: nat, bound: nat)
        ensures
            self.cycle_len_from(start, fan, i, bound) is Ok ==> {
                let k = self.cycle_len_from(start, fan, i, bound)->Ok_0;
                &&& i < k <= bound
                &&& self.walk(start, k, fan) == Ok::<HalfEdgeId, MeshError>(start)
                &&& forall|j: nat|
                    i < j < k ==> (#[trigger] self.walk(start, j, fan)) is Ok && self.walk(
                        start,
                        j,
                        fan,
                    )->Ok_0 != start
            },
        decreases bound - i,
    {
        if i < bound {
            self.lemma_cycle_len(start, fan, i + 1, bound);
        }
    }

    /// The loop through `start`: each entry's step leads to the following
    /// one, and the last entry's step leads back to `start`.
    pub proof fn lemma_cycle(self, start: HalfEdgeId, fan: bool, bound: nat)
        requires
            self.cycle(start, fan, bound) is Ok,
        ensures
            ({
                let s = self.cycle(start, fan, bound)->Ok_0;
                &&& 0 < s.len() <= bound
                &&& s[0] == start
                &&& forall|j: int| 0 <= j < s.len() ==> self.hes.contains_key(#[trigger] s[j])
                &&& forall|j: int| 0 < j < s.len() ==> #[trigger] s[j] != start
                &&& forall|j: int|
                    0 <= j < s.len() - 1 ==> self.step(#[trigger] s[j], fan) == Ok::<
                        HalfEdgeId,
                        MeshError,
                    >(s[j + 1])
                &&& self.step(s.last(), fan) == Ok::<HalfEdgeId, MeshError>(start)
            }),
    {
        self.lemma_cycle_len(start, fan, 0, bound);
        let s = self.cycle(start, fan, bound)->Ok_0;
        let k = self.cycle_len_from(start, fan, 0, bound)->Ok_0;
        assert(s.len() == k);
        assert forall|j: int| 0 <= j < s.len() implies self.hes.contains_key(#[trigger] s[j])
            && self.walk(start, j as nat, fan) == Ok::<HalfEdgeId, MeshError>(s[j]) by {
            if j > 0 {
                assert(self.walk(start, j as nat, fan) is Ok);
            }
            self.lemma_walk_live(start, j as nat, fan);
        }
        assert forall|j: int| 0 <= j < s.len() - 1 implies self.step(#[trigger] s[j], fan) == Ok::<
            HalfEdgeId,
            MeshError,
        >(s[j + 1]) by {
            assert(self.walk(start, (j + 1) as nat, fan) is Ok);
        }
        assert(self.walk(start, k, fan) == Ok::<HalfEdgeId, MeshError>(start));
        assert(self.walk(start, (k - 1) as nat, fan) == Ok::<HalfEdgeId, MeshError>(s.last()));
    }

    /// Every half-edge of a loop is live.
    pub proof fn lemma_cycle_live(self, start: HalfEdgeId, fan: bool, bound: nat)
        requires
            self.cycle(start, fan, bound) is Ok,
        ensures
            ({
                let s = self.cycle(start, fan, bound)->Ok_0;
                &&& 0 < s.len() <= bound
                &&& s[0] == start
                &&& forall|j: int| 0 <= j < s.len() ==> self.hes.contains_key(#[trigger] s[j])
            }),
    {
        self.lemma_cycle(start, fan, bound);
    }

    /// Every half-edge that a walk reaches is live.
    pub proof fn lemma_walk_live(self, start: HalfEdgeId, k: nat, fan: bool)
        ensures
            self.walk(start, k, fan) is Ok ==> self.hes.contains_key(self.walk(start, k, fan)->Ok_0),
        decreases k,
    {
        if k > 0 {
            self.lemma_walk_live(start, (k - 1) as nat, fan);
        }
    }

    /// Where `k` steps from `start` lead.
    pub open spec fn walk(self, start: HalfEdgeId, k: nat, fan: bool) -> Result<HalfEdgeId, MeshError>
        decreases k,
    {
        if k == 0 {
            if self.hes.contains_key(start) {
                Ok(start)
            } else {
                Err(MeshError::StaleHandle)
            }
        } else {
            match self.walk(start, (k - 1) as nat, fan) {
                Ok(c) => self.step(c, fan),
                Err(e) => Err(e),
            }
        }
    }

    /// Having taken `i` steps from `start` without coming back, the number of
    /// steps after which the walk first returns to `start`.
    pub open spec fn cycle_len_from(self, start: HalfEdgeId, fan: bool, i: nat, bound: nat) -> Result<nat, MeshError>
        decreases bound - i,
    {
        if i >= bound {
            Err(MeshError::CycleExceeded)
        } else {
            match self.walk(start, i + 1, fan) {
                Err(e) => Err(e),
                Ok(y) => if y == start {
                    Ok(i + 1)
                } else {
                    self.cycle_len_from(start, fan, i + 1, bound)
                },
            }
        }
    }

    /// The loop through `start`: the half-edges met before the walk first
    /// returns to `start`, beginning with `start`. The walk may take at most
    /// `bound` steps.
    pub open spec fn cycle(self, start: HalfEdgeId, fan: bool, bound: nat) -> Result<Seq<HalfEdgeId>, MeshError> {
        if !self.hes.contains_key(start) {
            Err(MeshError::StaleHandle)
        } else {
            match self.cycle_len_from(start, fan, 0, bound) {
                Ok(k) => Ok(Seq::new(k, |j: int| self.walk(start, j as nat, fan)->Ok_0)),
                Err(e) => Err(e),
            }
        }
    }

    /// The half-edge whose successor is `h`, found by walking `h`'s loop.
    pub open spec fn previous_of(self, h: HalfEdgeId, bound: nat) -> Result<HalfEdgeId, MeshError> {
        match self.cycle(h, false, bound) {
            Ok(s) => Ok(s.last()),
            Err(e) => Err(e),
        }
    }

    /// The half-edges leaving `v`, in fan order from `v`'s own half-edge.
    pub open spec fn outgoing_of(self, v: VertexId, bound: nat) -> Result<Seq<HalfEdgeId>, MeshError> {
        match self.vertex_halfedge_of(v) {
            Ok(h) => self.cycle(h, true, bound),
            Err(e) => Err(e),
        }
    }

    /// The half-edges of face `f`'s loop, from the face's own half-edge.
    pub open spec fn face_loop_of(self, f: FaceId, bound: nat) -> Result<Seq<HalfEdgeId>, MeshError> {
        match self.face_halfedge_of(f) {
            Ok(h) => self.cycle(h, false, bound),
            Err(e) => Err(e),
        }
    }

    /// The vertex that `h` ends at: the start of its twin.
    pub open spec fn dst_of(self, h: HalfEdgeId) -> Result<VertexId, MeshError> {
        match self.twin_of(h) {
            Ok(t) => self.vertex_of(t),
            Err(e) => Err(e),
        }
    }

    /// Both endpoints of `h`.
    pub open spec fn src_dst_of(self, h: HalfEdgeId) -> Result<(VertexId, VertexId), MeshError> {
        match self.vertex_of(h) {
            Err(e) => Err(e),
            Ok(v) => match self.dst_of(h) {
                Err(e) => Err(e),
                Ok(w) => Ok((v, w)),
            },
        }
    }
}

pub open spec fn seq_result<T>(r: Result<Vec<T>, MeshError>) -> Result<Seq<T>, MeshError> {
    match r {
        Ok(v) => Ok(v@),
        Err(e) => Err(e),
    }
}

pub struct HalfEdgeMesh<P> {
    vertices: Arena<Vertex<P>>,
    halfedges: Arena<HalfEdge>,
    faces: Arena<Face>,
}

impl<P> View for HalfEdgeMesh<P> {
    type V = MeshModel<P>;

    closed spec fn view(&self) -> MeshModel<P> {
        MeshModel {
            verts: Map::new(
                |v: VertexId| self.vertices@.contains_key(v.key),
                |v: VertexId| self.vertices@[v.key],
            ),
            hes: Map::new(
                |h: HalfEdgeId| self.halfedges@.contains_key(h.key),
                |h: HalfEdgeId| self.halfedges@[h.key],
            ),
            faces: Map::new(
                |f: FaceId| self.faces@.contains_key(f.key),
                |f: FaceId| self.faces@[f.key],
            ),
        }
    }
}

impl<P: Copy> HalfEdgeMesh<P> {
    pub closed spec fn wf(&self) -> bool {
        &&& self.vertices.wf()
        &&& self.halfedges.wf()
        &&& self.faces.wf()
    }

    /// The number of slots of each kind ever used.
    pub closed spec fn caps(&self) -> (nat, nat, nat) {
        (self.vertices.capacity(), self.halfedges.capacity(), self.faces.capacity())
    }

    /// Whether `n` more elements of each kind can still be allocated.
    pub open spec fn has_room(&self, n: nat) -> bool {
        &&& self.caps().0 + n < usize::MAX
        &&& self.caps().1 + n < usize::MAX
        &&& self.caps().2 + n < usize::MAX
    }

    /// The most steps that a walk may take: the number of half-edge slots,
    /// which no loop of distinct live half-edges can exceed.
    pub open spec fn walk_bound(&self) -> nat {
        self.caps().1
    }

    /// A live half-edge's slot lies below the walk bound.
    pub proof fn halfedges_below_walk_bound(&self, h: HalfEdgeId)
        requires
            self@.hes.contains_key(h),
        ensures
            h.key.idx < self.walk_bound(),
    {
        self.halfedges.lemma_live_below(h.key);
    }

    /// Two live half-edges leave room for at least two walk steps.
    pub proof fn lemma_two_halfedges(&self, a: HalfEdgeId, b: HalfEdgeId)
        requires
            self@.hes.contains_key(a),
            self@.hes.contains_key(b),
            a != b,
        ensures
            2 <= self.walk_bound(),
    {
        self.halfedges.lemma_distinct_slots(a.key, b.key);
    }

    /// A mesh has finitely many half-edges.
    pub proof fn lemma_halfedges_finite(&self)
        ensures
            self@.hes.dom().finite(),
    {
        self.halfedges.lemma_finite();
        let keys = self.halfedges@.dom();
        keys.lemma_map_finite(|k: Key| HalfEdgeId { key: k });
        assert(self@.hes.dom() =~= keys.map(|k: Key| HalfEdgeId { key: k })) by {
            assert forall|h: HalfEdgeId| self@.hes.dom().contains(h) implies keys.map(|k: Key| HalfEdgeId { key: k }).contains(h) by {
                assert(keys.contains(h.key));
            }
        }
    }

    pub fn room_for(&self, n: usize) -> (r: bool)
        ensures
            r == self.has_room(n as nat),
    {
        self.vertices.slot_count() < usize::MAX - n && self.halfedges.slot_count() < usize::MAX
            - n && self.faces.slot_count() < usize::MAX - n
    }

    pub fn new() -> (r: Self)
        ensures
            r.wf(),
            r.has_room(1000),
            r@.verts.is_empty(),
            r@.hes.is_empty(),
            r@.faces.is_empty(),
            r.caps() == (0nat, 0nat, 0nat),
    {
        let r = HalfEdgeMesh { vertices: Arena::new(), halfedges: Arena::new(), faces: Arena::new() };
        assert(r@.verts =~= Map::empty());
        assert(r@.hes =~= Map::empty());
        assert(r@.faces =~= Map::empty());
        r
    }

    pub fn walk_limit(&self) -> (r: usize)
        ensures
            r == self.walk_bound(),
    {
        self.halfedges.slot_count()
    }

    pub fn halfedge(&self, h: HalfEdgeId) -> (r: Result<HalfEdge, MeshError>)
        ensures
            r == (if self@.hes.contains_key(h) {
                Ok::<HalfEdge, MeshError>(self@.hes[h])
            } else {
                Err(MeshError::StaleHandle)
            }),
    {
        match self.halfedges.get(h.key) {
            Some(x) => Ok(*x),
            None => Err(MeshError::StaleHandle),
        }
    }

    pub fn vertex(&self, v: VertexId) -> (r: Result<Vertex<P>, MeshError>)
        ensures
            r == (if self@.verts.contains_key(v) {
                Ok::<Vertex<P>, MeshError>(self@.verts[v])
            } else {
                Err(MeshError::StaleHandle)
            }),
    {
        match self.vertices.get(v.key) {
            Some(x) => Ok(*x),
            None => Err(MeshError::StaleHandle),
        }
    }

    pub fn face(&self, f: FaceId) -> (r: Result<Face, MeshError>)
        ensures
            r == (if self@.faces.contains_key(f) {
                Ok::<Face, MeshError>(self@.faces[f])
            } else {
                Err(MeshError::StaleHandle)
            }),
    {
        match self.faces.get(f.key) {
            Some(x) => Ok(*x),
            None => Err(MeshError::StaleHandle),
        }
    }

    pub fn contains_halfedge(&self, h: HalfEdgeId) -> (r: bool)
        ensures
            r == self@.hes.contains_key(h),
    {
        self.halfedges.contains(h.key)
    }

    pub fn contains_vertex(&self, v: VertexId) -> (r: bool)
        ensures
            r == self@.verts.contains_key(v),
    {
        self.vertices.contains(v.key)
    }

    pub fn contains_face(&self, f: FaceId) -> (r: bool)
        ensures
            r == self@.faces.contains_key(f),
    {
        self.faces.contains(f.key)
    }

    /// The position of vertex `v`.
    pub fn vertex_position(&self, v: VertexId) -> (r: Result<P, MeshError>)
        ensures
            r == (if self@.verts.contains_key(v) {
                Ok::<P, MeshError>(self@.verts[v].position)
            } else {
                Err(MeshError::StaleHandle)
            }),
    {
        match self.vertices.get(v.key) {
            Some(x) => Ok(x.position),
            None => Err(MeshError::StaleHandle),
        }
    }

    /// Moves vertex `v` to `position`.
    pub fn update_vertex_position(&mut self, v: VertexId, position: P) -> (r: Result<(), MeshError>)
        requires
            old(self).wf(),
        ensures
            final(self).wf(),
            final(self).caps() == old(self).caps(),
            old(self)@.verts.contains_key(v) ==> r is Ok && final(self)@ == old(self)@.with_vertex(
                v,
                Vertex { position, ..old(self)@.verts[v] },
            ),
            !old(self)@.verts.contains_key(v) ==> r == Err::<(), MeshError>(MeshError::StaleHandle)
                && final(self)@ == old(self)@,
    {
        let x = self.vertex(v)?;
        self.write_vertex(v, Vertex { position, ..x });
        Ok(())
    }

    /// Replaces half-edge `h`.
    pub fn write_halfedge(&mut self, h: HalfEdgeId, x: HalfEdge)
        requires
            old(self).wf(),
            old(self)@.hes.contains_key(h),
        ensures
            final(self).wf(),
            final(self).caps() == old(self).caps(),
            final(self)@ == old(self)@.with_he(h, x),
    {
        let ghost pre = self@;
        self.halfedges.set(h.key, x);
        assert(self@.hes =~= pre.hes.insert(h, x));
        assert(self@.verts =~= pre.verts);
        assert(self@.faces =~= pre.faces);
    }

    /// Replaces vertex `v`.
    pub fn write_vertex(&mut self, v: VertexId, x: Vertex<P>)
        requires
            old(self).wf(),
            old(self)@.verts.contains_key(v),
        ensures
            final(self).wf(),
            final(self).caps() == old(self).caps(),
            final(self)@ == old(self)@.with_vertex(v, x),
    {
        let ghost pre = self@;
        self.vertices.set(v.key, x);
        assert(self@.verts =~= pre.verts.insert(v, x));
        assert(self@.hes =~= pre.hes);
        assert(self@.faces =~= pre.faces);
    }

    /// Replaces face `f`.
    pub fn write_face(&mut self, f: FaceId, x: Face)
        requires
            old(self).wf(),
            old(self)@.faces.contains_key(f),
        ensures
            final(self).wf(),
            final(self).caps() == old(self).caps(),
            final(self)@ == old(self)@.with_face(f, x),
    {
        let ghost pre = self@;
        self.faces.set(f.key, x);
        assert(self@.faces =~= pre.faces.insert(f, x));
        assert(self@.hes =~= pre.hes);
        assert(self@.verts =~= pre.verts);
    }

    /// Adds a vertex at `position` with outgoing half-edge `halfedge`.
    pub fn alloc_vertex(&mut self, position: P, halfedge: Option<HalfEdgeId>) -> (v: VertexId)
        requires
            old(self).wf(),
            old(self).caps().0 + 1 < usize::MAX,
        ensures
            final(self).wf(),
            !old(self)@.verts.contains_key(v),
            final(self)@ == old(self)@.with_vertex(v, Vertex { position, halfedge }),
            final(self).caps().0 <= old(self).caps().0 + 1,
            final(self).caps().0 >= old(self).caps().0,
            final(self).caps().1 == old(self).caps().1,
            final(self).caps().2 == old(self).caps().2,
    {
        let ghost pre = self@;
        let x = Vertex { position, halfedge };
        let k = self.vertices.insert(x);
        let v = VertexId { key: k };
        assert(self@.verts =~= pre.verts.insert(v, x));
        assert(self@.hes =~= pre.hes);
        assert(self@.faces =~= pre.faces);
        v
    }

    /// Adds half-edge `x`.
    pub fn alloc_halfedge(&mut self, x: HalfEdge) -> (h: HalfEdgeId)
        requires
            old(self).wf(),
            old(self).caps().1 + 1 < usize::MAX,
        ensures
            final(self).wf(),
            !old(self)@.hes.contains_key(h),
            final(self)@ == old(self)@.with_he(h, x),
            final(self).caps().1 <= old(self).caps().1 + 1,
            final(self).caps().1 >= old(self).caps().1,
            final(self).caps().0 == old(self).caps().0,
            final(self).caps().2 == old(self).caps().2,
    {
        let ghost pre = self@;
        let k = self.halfedges.insert(x);
        let h = HalfEdgeId { key: k };
        assert(self@.hes =~= pre.hes.insert(h, x));
        assert(self@.verts =~= pre.verts);
        assert(self@.faces =~= pre.faces);
        h
    }

    /// Adds a face whose loop holds `halfedge`.
    pub fn alloc_face(&mut self, halfedge: Option<HalfEdgeId>) -> (f: FaceId)
        requires
            old(self).wf(),
            old(self).caps().2 + 1 < usize::MAX,
        ensures
            final(self).wf(),
            !old(self)@.faces.contains_key(f),
            final(self)@ == old(self)@.with_face(f, Face { halfedge }),
            final(self).caps().2 <= old(self).caps().2 + 1,
            final(self).caps().2 >= old(self).caps().2,
            final(self).caps().0 == old(self).caps().0,
            final(self).caps().1 == old(self).caps().1,
    {
        let ghost pre = self@;
        let x = Face { halfedge };
        let k = self.faces.insert(x);
        let f = FaceId { key: k };
        assert(self@.faces =~= pre.faces.insert(f, x));
        assert(self@.verts =~= pre.verts);
        assert(self@.hes =~= pre.hes);
        f
    }

    /// Removes vertex `v`; its handle is never valid again.
    pub fn remove_vertex(&mut self, v: VertexId)
        requires
            old(self).wf(),
        ensures
            final(self).wf(),
            final(self).caps() == old(self).caps(),
            final(self)@ == old(self)@.without_vertex(v),
    {
        let ghost pre = self@;
        self.vertices.remove(v.key);
        assert(self@.verts =~= pre.verts.remove(v));
        assert(self@.hes =~= pre.hes);
        assert(self@.faces =~= pre.faces);
    }

    /// Removes half-edge `h`; its handle is never valid again.
    pub fn remove_halfedge(&mut self, h: HalfEdgeId)
        requires
            old(self).wf(),
        ensures
            final(self).wf(),
            final(self).caps() == old(self).caps(),
            final(self)@ == old(self)@.without_he(h),
    {
        let ghost pre = self@;
        self.halfedges.remove(h.key);
        assert(self@.hes =~= pre.hes.remove(h));
        assert(self@.verts =~= pre.verts);
        assert(self@.faces =~= pre.faces);
    }

    /// Removes face `f`; its handle is never valid again.
    pub fn remove_face(&mut self, f: FaceId)
        requires
            old(self).wf(),
        ensures
            final(self).wf(),
            final(self).caps() == old(self).caps(),
            final(self)@ == old(self)@.without_face(f),
    {
        let ghost pre = self@;
        self.faces.remove(f.key);
        assert(self@.faces =~= pre.faces.remove(f));
        assert(self@.verts =~= pre.verts);
        assert(self@.hes =~= pre.hes);
    }

    /// Sets the face of each half-edge of `hs`.
    pub fn write_faces(&mut self, hs: &Vec<HalfEdgeId>, f: Option<FaceId>)
        requires
            old(self).wf(),
            forall|j: int| 0 <= j < hs@.len() ==> old(self)@.hes.contains_key(#[trigger] hs@[j]),
        ensures
            final(self).wf(),
            final(self).caps() == old(self).caps(),
            final(self)@ == old(self)@.set_faces(hs@, f),
    {
        let ghost m0 = self@;
        let ghost c0 = self.caps();
        let mut i: usize = 0;
        while i < hs.len()
            invariant
                self.wf(),
                self.caps() == c0,
                i <= hs@.len(),
                forall|j: int| 0 <= j < hs@.len() ==> m0.hes.contains_key(#[trigger] hs@[j]),
                self@ == m0.set_faces(hs@.take(i as int), f),
            decreases hs@.len() - i,
        {
            proof {
                m0.lemma_set_faces(hs@.take(i as int), f);
                assert(hs@.take(i as int + 1).drop_last() =~= hs@.take(i as int));
                assert(hs@.take(i as int + 1).last() == hs@[i as int]);
            }
            let h = hs[i];
            let x = self.halfedge(h).unwrap();
            self.write_halfedge(h, HalfEdge { face: f, ..x });
            i += 1;
        }
        assert(hs@.take(hs@.len() as int) =~= hs@);
    }

    /// Sets the start vertex of each half-edge of `hs`.
    pub fn write_srcs(&mut self, hs: &Vec<HalfEdgeId>, v: Option<VertexId>)
        requires
            old(self).wf(),
            forall|j: int| 0 <= j < hs@.len() ==> old(self)@.hes.contains_key(#[trigger] hs@[j]),
        ensures
            final(self).wf(),
            final(self).caps() == old(self).caps(),
            final(self)@ == old(self)@.set_srcs(hs@, v),
    {
        let ghost m0 = self@;
        let ghost c0 = self.caps();
        let mut i: usize = 0;
        while i < hs.len()
            invariant
                self.wf(),
                self.caps() == c0,
                i <= hs@.len(),
                forall|j: int| 0 <= j < hs@.len() ==> m0.hes.contains_key(#[trigger] hs@[j]),
                self@ == m0.set_srcs(hs@.take(i as int), v),
            decreases hs@.len() - i,
        {
            proof {
                m0.lemma_set_srcs(hs@.take(i as int), v);
                assert(hs@.take(i as int + 1).drop_last() =~= hs@.take(i as int));
                assert(hs@.take(i as int + 1).last() == hs@[i as int]);
            }
            let h = hs[i];
            let x = self.halfedge(h).unwrap();
            self.write_halfedge(h, HalfEdge { vertex: v, ..x });
            i += 1;
        }
        assert(hs@.take(hs@.len() as int) =~= hs@);
    }

    /// Sets the successor of `h`.
    pub fn write_next(&mut self, h: HalfEdgeId, n: Option<HalfEdgeId>)
        requires
            old(self).wf(),
            old(self)@.hes.contains_key(h),
        ensures
            final(self).wf(),
            final(self).caps() == old(self).caps(),
            final(self)@ == old(self)@.set_next(h, n),
    {
        let x = self.halfedge(h).unwrap();
        self.write_halfedge(h, HalfEdge { next: n, ..x });
    }

    /// Sets the twin of `h`.
    pub fn write_twin(&mut self, h: HalfEdgeId, t: Option<HalfEdgeId>)
        requires
            old(self).wf(),
            old(self)@.hes.contains_key(h),
        ensures
            final(self).wf(),
            final(self).caps() == old(self).caps(),
            final(self)@ == old(self)@.set_twin(h, t),
    {
        let x = self.halfedge(h).unwrap();
        self.write_halfedge(h, HalfEdge { twin: t, ..x });
    }

    /// Sets the start vertex of `h`.
    pub fn write_src(&mut self, h: HalfEdgeId, v: Option<VertexId>)
        requires
            old(self).wf(),
            old(self)@.hes.contains_key(h),
        ensures
            final(self).wf(),
            final(self).caps() == old(self).caps(),
            final(self)@ == old(self)@.set_src(h, v),
    {
        let x = self.halfedge(h).unwrap();
        self.write_halfedge(h, HalfEdge { vertex: v, ..x });
    }

    /// Sets the face of `h`.
    pub fn write_face_of(&mut self, h: HalfEdgeId, f: Option<FaceId>)
        requires
            old(self).wf(),
            old(self)@.hes.contains_key(h),
        ensures
            final(self).wf(),
            final(self).caps() == old(self).caps(),
            final(self)@ == old(self)@.set_face(h, f),
    {
        let x = self.halfedge(h).unwrap();
        self.write_halfedge(h, HalfEdge { face: f, ..x });
    }

    /// Sets the outgoing half-edge of `v`.
    pub fn write_vertex_halfedge(&mut self, v: VertexId, h: Option<HalfEdgeId>)
        requires
            old(self).wf(),
            old(self)@.verts.contains_key(v),
        ensures
            final(self).wf(),
            final(self).caps() == old(self).caps(),
            final(self)@ == old(self)@.set_vertex_he(v, h),
    {
        let x = self.vertex(v).unwrap();
        self.write_vertex(v, Vertex { halfedge: h, ..x });
    }

    /// Sets the half-edge that face `f` records.
    pub fn write_face_halfedge(&mut self, f: FaceId, h: Option<HalfEdgeId>)
        requires
            old(self).wf(),
            old(self)@.faces.contains_key(f),
        ensures
            final(self).wf(),
            final(self).caps() == old(self).caps(),
            final(self)@ == old(self)@.set_face_he(f, h),
    {
        self.write_face(f, Face { halfedge: h });
    }

    /// The live vertices, in handle order.
    pub fn iter_vertices(&self) -> (r: Vec<VertexId>)
        ensures
            forall|i: int| 0 <= i < r@.len() ==> self@.verts.contains_key(#[trigger] r@[i]),
            forall|v: VertexId| self@.verts.contains_key(v) ==> r@.contains(v),
            forall|i: int, j: int| 0 <= i < j < r@.len() ==> r@[i].key.idx < r@[j].key.idx,
    {
        let keys = self.vertices.keys();
        let mut r: Vec<VertexId> = Vec::new();
        let mut i: usize = 0;
        while i < keys.len()
            invariant
                i <= keys@.len(),
                r@ == Seq::new(i as nat, |j: int| VertexId { key: keys@[j] }),
            decreases keys@.len() - i,
        {
            r.push(VertexId { key: keys[i] });
            i += 1;
        }
        proof {
            assert forall|v: VertexId| self@.verts.contains_key(v) implies r@.contains(v) by {
                assert(keys@.contains(v.key));
                let j = choose|j: int| 0 <= j < keys@.len() && keys@[j] == v.key;
                assert(r@[j] == v);
            }
        }
        r
    }

    /// The live half-edges, in handle order.
    pub fn iter_halfedges(&self) -> (r: Vec<HalfEdgeId>)
        ensures
            forall|i: int| 0 <= i < r@.len() ==> self@.hes.contains_key(#[trigger] r@[i]),
            forall|h: HalfEdgeId| self@.hes.contains_key(h) ==> r@.contains(h),
            forall|i: int, j: int| 0 <= i < j < r@.len() ==> r@[i].key.idx < r@[j].key.idx,
    {
        let keys = self.halfedges.keys();
        let mut r: Vec<HalfEdgeId> = Vec::new();
        let mut i: usize = 0;
        while i < keys.len()
            invariant
                i <= keys@.len(),
                r@ == Seq::new(i as nat, |j: int| HalfEdgeId { key: keys@[j] }),
            decreases keys@.len() - i,
        {
            r.push(HalfEdgeId { key: keys[i] });
            i += 1;
        }
        proof {
            assert forall|h: HalfEdgeId| self@.hes.contains_key(h) implies r@.contains(h) by {
                assert(keys@.contains(h.key));
                let j = choose|j: int| 0 <= j < keys@.len() && keys@[j] == h.key;
                assert(r@[j] == h);
            }
        }
        r
    }

    /// The live faces, in handle order.
    pub fn iter_faces(&self) -> (r: Vec<FaceId>)
        ensures
            forall|i: int| 0 <= i < r@.len() ==> self@.faces.contains_key(#[trigger] r@[i]),
            forall|f: FaceId| self@.faces.contains_key(f) ==> r@.contains(f),
            forall|i: int, j: int| 0 <= i < j < r@.len() ==> r@[i].key.idx < r@[j].key.idx,
    {
        let keys = self.faces.keys();
        let mut r: Vec<FaceId> = Vec::new();
        let mut i: usize = 0;
        while i < keys.len()
            invariant
                i <= keys@.len(),
                r@ == Seq::new(i as nat, |j: int| FaceId { key: keys@[j] }),
            decreases keys@.len() - i,
        {
            r.push(FaceId { key: keys[i] });
            i += 1;
        }
        proof {
            assert forall|f: FaceId| self@.faces.contains_key(f) implies r@.contains(f) by {
                assert(keys@.contains(f.key));
                let j = choose|j: int| 0 <= j < keys@.len() && keys@[j] == f.key;
                assert(r@[j] == f);
            }
        }
        r
    }
}

} // verus!
