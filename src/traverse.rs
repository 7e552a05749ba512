//! Queries that walk the connectivity: each step checks that the handle it
//! reads names a live element, so a broken or stale link is an error.
use vstd::prelude::*;
use crate::mesh::{HalfEdgeId, HalfEdgeMesh, MeshError, MeshModel, VertexId, FaceId, seq_result};

verus! {

impl<P: Copy> HalfEdgeMesh<P> {
    pub fn twin(&self, h: HalfEdgeId) -> (r: Result<HalfEdgeId, MeshError>)
        ensures
            r == self@.twin_of(h),
    {
        let x = self.halfedge(h)?;
        match x.twin {
            None => Err(MeshError::MissingTwin),
            Some(t) => if self.contains_halfedge(t) {
                Ok(t)
            } else {
                Err(MeshError::StaleHandle)
            },
        }
    }

    pub fn next(&self, h: HalfEdgeId) -> (r: Result<HalfEdgeId, MeshError>)
        ensures
            r == self@.next_of(h),
    {
        let x = self.halfedge(h)?;
        match x.next {
            None => Err(MeshError::MissingNext),
            Some(n) => if self.contains_halfedge(n) {
                Ok(n)
            } else {
                Err(MeshError::StaleHandle)
            },
        }
    }

    /// The vertex that `h` starts from.
    pub fn src_vertex(&self, h: HalfEdgeId) -> (r: Result<VertexId, MeshError>)
        ensures
            r == self@.vertex_of(h),
    {
        let x = self.halfedge(h)?;
        match x.vertex {
            None => Err(MeshError::MissingVertex),
            Some(v) => if self.contains_vertex(v) {
                Ok(v)
            } else {
                Err(MeshError::StaleHandle)
            },
        }
    }

    /// The vertex that `h` ends at.
    pub fn dst_vertex(&self, h: HalfEdgeId) -> (r: Result<VertexId, MeshError>)
        ensures
            r == self@.dst_of(h),
    {
        let t = self.twin(h)?;
        self.src_vertex(t)
    }

    pub fn src_dst_pair(&self, h: HalfEdgeId) -> (r: Result<(VertexId, VertexId), MeshError>)
        ensures
            r == self@.src_dst_of(h),
    {
        let v = self.src_vertex(h)?;
        let w = self.dst_vertex(h)?;
        Ok((v, w))
    }

    /// The face of `h`; a boundary half-edge gives `HalfedgeHasNoFace`.
    pub fn face_of(&self, h: HalfEdgeId) -> (r: Result<FaceId, MeshError>)
        ensures
            r == self@.face_of(h),
    {
        let x = self.halfedge(h)?;
        match x.face {
            None => Err(MeshError::HalfedgeHasNoFace),
            Some(f) => if self.contains_face(f) {
                Ok(f)
            } else {
                Err(MeshError::StaleHandle)
            },
        }
    }

    pub fn face_or_boundary(&self, h: HalfEdgeId) -> (r: Result<Option<FaceId>, MeshError>)
        ensures
            r == self@.face_or_boundary_of(h),
    {
        match self.face_of(h) {
            Ok(f) => Ok(Some(f)),
            Err(MeshError::HalfedgeHasNoFace) => Ok(None),
            Err(e) => Err(e),
        }
    }

    pub fn is_boundary(&self, h: HalfEdgeId) -> (r: Result<bool, MeshError>)
        ensures
            r == (match self@.face_or_boundary_of(h) {
                Ok(f) => Ok::<bool, MeshError>(f is None),
                Err(e) => Err(e),
            }),
    {
        let f = self.face_or_boundary(h)?;
        Ok(f.is_none())
    }

    /// The half-edge that `v` records as outgoing.
    pub fn vertex_halfedge(&self, v: VertexId) -> (r: Result<HalfEdgeId, MeshError>)
        ensures
            r == self@.vertex_halfedge_of(v),
    {
        let x = self.vertex(v)?;
        match x.halfedge {
            None => Err(MeshError::MissingHalfedge),
            Some(h) => if self.contains_halfedge(h) {
                Ok(h)
            } else {
                Err(MeshError::StaleHandle)
            },
        }
    }

    /// The half-edge that face `f` records.
    pub fn face_halfedge(&self, f: FaceId) -> (r: Result<HalfEdgeId, MeshError>)
        ensures
            r == self@.face_halfedge_of(f),
    {
        let x = self.face(f)?;
        match x.halfedge {
            None => Err(MeshError::MissingHalfedge),
            Some(h) => if self.contains_halfedge(h) {
                Ok(h)
            } else {
                Err(MeshError::StaleHandle)
            },
        }
    }

    /// The next outgoing half-edge around the start of `h`: `twin` then `next`.
    pub fn cycle_around_fan(&self, h: HalfEdgeId) -> (r: Result<HalfEdgeId, MeshError>)
        ensures
            r == self@.step(h, true),
    {
        let t = self.twin(h)?;
        self.next(t)
    }

    fn step(&self, h: HalfEdgeId, fan: bool) -> (r: Result<HalfEdgeId, MeshError>)
        ensures
            r == self@.step(h, fan),
    {
        if fan {
            self.cycle_around_fan(h)
        } else {
            self.next(h)
        }
    }

    /// Walks from `start` until the walk comes back to it, and returns the
    /// half-edges met on the way, `start` first.
    pub fn walk_cycle(&self, start: HalfEdgeId, fan: bool) -> (r: Result<Vec<HalfEdgeId>, MeshError>)
        ensures
            seq_result(r) == self@.cycle(start, fan, self.walk_bound()),
    {
        if !self.contains_halfedge(start) {
            return Err(MeshError::StaleHandle);
        }
        let bound = self.walk_limit();
        let ghost m = self@;
        let mut out: Vec<HalfEdgeId> = Vec::new();
        out.push(start);
        let mut cur = start;
        let mut i: usize = 0;
        assert(out@ =~= Seq::new(1, |j: int| m.walk(start, j as nat, fan)->Ok_0));
        loop
            invariant
                m == self@,
                bound == self.walk_bound(),
                m.hes.contains_key(start),
                i <= bound,
                m.walk(start, i as nat, fan) == Ok::<HalfEdgeId, MeshError>(cur),
                out@ =~= Seq::new(i as nat + 1, |j: int| m.walk(start, j as nat, fan)->Ok_0),
                m.cycle_len_from(start, fan, 0, bound as nat) == m.cycle_len_from(start, fan, i as nat, bound as nat),
            decreases bound - i,
        {
            if i >= bound {
                return Err(MeshError::CycleExceeded);
            }
            let y = match self.step(cur, fan) {
                Ok(y) => y,
                Err(e) => {
                    return Err(e);
                },
            };
            if y == start {
                return Ok(out);
            }
            out.push(y);
            cur = y;
            i += 1;
        }
    }

    /// The half-edge whose successor is `h`, found by walking `h`'s loop.
    pub fn previous(&self, h: HalfEdgeId) -> (r: Result<HalfEdgeId, MeshError>)
        ensures
            r == self@.previous_of(h, self.walk_bound()),
    {
        let hs = self.walk_cycle(h, false)?;
        let ghost s = hs@;
        proof {
            self@.lemma_cycle(h, false, self.walk_bound());
        }
        Ok(hs[hs.len() - 1])
    }

    /// The loop of half-edges through `h`.
    pub fn halfedge_loop(&self, h: HalfEdgeId) -> (r: Result<Vec<HalfEdgeId>, MeshError>)
        ensures
            seq_result(r) == self@.cycle(h, false, self.walk_bound()),
    {
        self.walk_cycle(h, false)
    }

    /// The half-edges leaving `v`, in fan order from `v`'s own half-edge.
    pub fn outgoing_halfedges(&self, v: VertexId) -> (r: Result<Vec<HalfEdgeId>, MeshError>)
        ensures
            seq_result(r) == self@.outgoing_of(v, self.walk_bound()),
    {
        let h = self.vertex_halfedge(v)?;
        self.walk_cycle(h, true)
    }

    /// The half-edges of face `f`, from the face's own half-edge.
    pub fn face_halfedges(&self, f: FaceId) -> (r: Result<Vec<HalfEdgeId>, MeshError>)
        ensures
            seq_result(r) == self@.face_loop_of(f, self.walk_bound()),
    {
        let h = self.face_halfedge(f)?;
        self.walk_cycle(h, false)
    }

    /// The start vertex of each half-edge of `hs`.
    pub fn src_vertices(&self, hs: &Vec<HalfEdgeId>) -> (r: Result<Vec<VertexId>, MeshError>)
        ensures
            seq_result(r) == self@.srcs_of(hs@),
    {
        let mut out: Vec<VertexId> = Vec::new();
        let mut i: usize = 0;
        while i < hs.len()
            invariant
                i <= hs@.len(),
                self@.srcs_of(hs@.take(i as int)) == Ok::<Seq<VertexId>, MeshError>(out@),
            decreases hs@.len() - i,
        {
            assert(hs@.take(i as int + 1).drop_last() =~= hs@.take(i as int));
            let v = match self.src_vertex(hs[i]) {
                Ok(x) => x,
                Err(e) => {
                    proof {
                        self@.lemma_srcs_prefix_err(hs@, i as int + 1);
                    }
                    return Err(e);
                },
            };
            out.push(v);
            i += 1;
        }
        assert(hs@.take(hs@.len() as int) =~= hs@);
        Ok(out)
    }

    /// The face of each half-edge of `hs`; a boundary half-edge is an error.
    pub fn faces_of_halfedges(&self, hs: &Vec<HalfEdgeId>) -> (r: Result<Vec<FaceId>, MeshError>)
        ensures
            seq_result(r) == self@.faces_of(hs@),
    {
        let mut out: Vec<FaceId> = Vec::new();
        let mut i: usize = 0;
        while i < hs.len()
            invariant
                i <= hs@.len(),
                self@.faces_of(hs@.take(i as int)) == Ok::<Seq<FaceId>, MeshError>(out@),
            decreases hs@.len() - i,
        {
            assert(hs@.take(i as int + 1).drop_last() =~= hs@.take(i as int));
            let f = match self.face_of(hs[i]) {
                Ok(x) => x,
                Err(e) => {
                    proof {
                        self@.lemma_faces_prefix_err(hs@, i as int + 1);
                    }
                    return Err(e);
                },
            };
            out.push(f);
            i += 1;
        }
        assert(hs@.take(hs@.len() as int) =~= hs@);
        Ok(out)
    }

    /// The twin of each half-edge of `hs`.
    pub fn twins(&self, hs: &Vec<HalfEdgeId>) -> (r: Result<Vec<HalfEdgeId>, MeshError>)
        ensures
            seq_result(r) == self@.twins_of(hs@),
    {
        let mut out: Vec<HalfEdgeId> = Vec::new();
        let mut i: usize = 0;
        while i < hs.len()
            invariant
                i <= hs@.len(),
                self@.twins_of(hs@.take(i as int)) == Ok::<Seq<HalfEdgeId>, MeshError>(out@),
            decreases hs@.len() - i,
        {
            assert(hs@.take(i as int + 1).drop_last() =~= hs@.take(i as int));
            let t = match self.twin(hs[i]) {
                Ok(x) => x,
                Err(e) => {
                    proof {
                        self@.lemma_twins_prefix_err(hs@, i as int + 1);
                    }
                    return Err(e);
                },
            };
            out.push(t);
            i += 1;
        }
        assert(hs@.take(hs@.len() as int) =~= hs@);
        Ok(out)
    }

    /// The vertices around face `f`.
    pub fn face_vertices(&self, f: FaceId) -> (r: Result<Vec<VertexId>, MeshError>)
        ensures
            seq_result(r) == self@.face_vertices_of(f, self.walk_bound()),
    {
        let hs = self.face_halfedges(f)?;
        self.src_vertices(&hs)
    }

    /// The half-edges arriving at `v`: the twins of its outgoing half-edges.
    pub fn incoming_halfedges(&self, v: VertexId) -> (r: Result<Vec<HalfEdgeId>, MeshError>)
        ensures
            seq_result(r) == (match self@.outgoing_of(v, self.walk_bound()) {
                Ok(s) => self@.twins_of(s),
                Err(e) => Err(e),
            }),
    {
        let hs = self.outgoing_halfedges(v)?;
        self.twins(&hs)
    }

    /// The half-edge from `v` to `w`: the first of `v`'s outgoing half-edges
    /// that ends at `w`.
    pub fn halfedge_to(&self, v: VertexId, w: VertexId) -> (r: Result<HalfEdgeId, MeshError>)
        ensures
            r == self@.halfedge_to_of(v, w, self.walk_bound()),
    {
        let out = self.outgoing_halfedges(v)?;
        let mut i: usize = 0;
        while i < out.len()
            invariant
                i <= out@.len(),
                self@.outgoing_of(v, self.walk_bound()) == Ok::<Seq<HalfEdgeId>, MeshError>(out@),
                self@.first_to(out@, w, 0) == self@.first_to(out@, w, i as nat),
            decreases out@.len() - i,
        {
            let h = out[i];
            match self.dst_vertex(h) {
                Ok(x) => {
                    if x == w {
                        return Ok(h);
                    }
                },
                Err(_) => {},
            }
            i += 1;
        }
        Err(MeshError::HalfedgeFromToNotFound(v, w))
    }
}

} // verus!
