//! Edit primitives: local rewrites of the connectivity. Most read all that
//! they need first, so that an error leaves the mesh as it was; the
//! exception is `dissolve_vertex`, whose reads follow its own rewrites, and
//! whose errors say only which read failed.
use vstd::prelude::*;
use crate::invariants::{
    lemma_collapse_edge_keeps_twins, lemma_cut_face_keeps_twins, lemma_dissolve_edge_keeps_twins,
    lemma_dissolve_vertex_keeps_twins, lemma_divide_edge_keeps_twins, lemma_duplicate_edge_keeps_twins,
    lemma_split_vertex_keeps_twins, twins_involutive, lemma_dissolve_edge_keeps_pairs,
    lemma_dissolve_vertex_keeps_pairs, unique_pairs, lemma_divide_edge_keeps_pairs, starts_read, faces_closed, lemma_duplicate_edge_keeps_faces_closed,
};
use crate::mesh::{FaceId, HalfEdge, HalfEdgeId, HalfEdgeMesh, MeshError, MeshModel, VertexId};

verus! {

/// What `dissolve_edge` reads before it rewrites anything.
pub struct EdgeDissolve {
    pub h_r: HalfEdgeId,
    pub f_l: FaceId,
    pub f_r: FaceId,
    pub v: VertexId,
    pub w: VertexId,
    pub l_next: HalfEdgeId,
    pub l_prev: HalfEdgeId,
    pub r_next: HalfEdgeId,
    pub r_prev: HalfEdgeId,
    pub r_loop: Seq<HalfEdgeId>,
}

/// The face of `h` for an operation that refuses boundary half-edges.
pub open spec fn inner_face<P>(m: MeshModel<P>, h: HalfEdgeId) -> Result<FaceId, MeshError> {
    match m.face_of(h) {
        Err(MeshError::HalfedgeHasNoFace) => Err(MeshError::BoundaryEdgeNotAllowed),
        r => r,
    }
}

pub open spec fn dissolve_edge_plan<P>(m: MeshModel<P>, h_l: HalfEdgeId, bound: nat) -> Result<
    EdgeDissolve,
    MeshError,
> {
    match m.twin_of(h_l) {
        Err(e) => Err(e),
        Ok(h_r) => match inner_face(m, h_l) {
            Err(e) => Err(e),
            Ok(f_l) => match inner_face(m, h_r) {
                Err(e) => Err(e),
                Ok(f_r) => match m.src_dst_of(h_l) {
                    Err(e) => Err(e),
                    Ok(vw) => match m.next_of(h_l) {
                        Err(e) => Err(e),
                        Ok(l_next) => match m.previous_of(h_l, bound) {
                            Err(e) => Err(e),
                            Ok(l_prev) => match m.next_of(h_r) {
                                Err(e) => Err(e),
                                Ok(r_next) => match m.previous_of(h_r, bound) {
                                    Err(e) => Err(e),
                                    Ok(r_prev) => match m.cycle(h_r, false, bound) {
                                        Err(e) => Err(e),
                                        Ok(r_loop) => Ok(
                                            EdgeDissolve {
                                                h_r,
                                                f_l,
                                                f_r,
                                                v: vw.0,
                                                w: vw.1,
                                                l_next,
                                                l_prev,
                                                r_next,
                                                r_prev,
                                                r_loop,
                                            },
                                        ),
                                    },
                                },
                            },
                        },
                    },
                },
            },
        },
    }
}

/// The mesh after dissolving `h_l` by plan `p`: the two loops are spliced
/// into one, the removed side's half-edges join face `f_l`, records that
/// named a removed half-edge are moved to one that still leaves the same
/// vertex (or lies on the same face), and `h_l`, its twin and the face `f_r`
/// are removed.
pub open spec fn dissolve_edge_result<P>(m: MeshModel<P>, h_l: HalfEdgeId, p: EdgeDissolve) -> MeshModel<P> {
    let m1 = m.set_next(p.r_prev, Some(p.l_next)).set_next(p.l_prev, Some(p.r_next)).set_faces(
        p.r_loop,
        Some(p.f_l),
    );
    let m2 = if m1.faces[p.f_l].halfedge == Some(h_l) {
        m1.set_face_he(p.f_l, Some(p.l_prev))
    } else {
        m1
    };
    let m3 = if m2.verts[p.v].halfedge == Some(h_l) {
        m2.set_vertex_he(p.v, Some(p.r_next))
    } else {
        m2
    };
    let m4 = if m3.verts[p.w].halfedge == Some(p.h_r) {
        m3.set_vertex_he(p.w, Some(p.l_next))
    } else {
        m3
    };
    m4.without_he(h_l).without_he(p.h_r).without_face(p.f_r)
}

/// Removes `h_l` and its twin, merging the two faces on either side into the
/// face of `h_l`. Neither side may be a boundary.
pub fn dissolve_edge<P: Copy>(mesh: &mut HalfEdgeMesh<P>, h_l: HalfEdgeId) -> (r: Result<(), MeshError>)
    requires
        old(mesh).wf(),
    ensures
        final(mesh).wf(),
        final(mesh).caps() == old(mesh).caps(),
        match dissolve_edge_plan(old(mesh)@, h_l, old(mesh).walk_bound()) {
            Err(e) => r == Err::<(), MeshError>(e) && final(mesh)@ == old(mesh)@,
            Ok(p) => r is Ok && final(mesh)@ == dissolve_edge_result(old(mesh)@, h_l, p),
        },
        final(mesh)@.verts.dom() == old(mesh)@.verts.dom(),
        forall|u: VertexId|
            #[trigger] old(mesh)@.verts.contains_key(u) ==> final(mesh)@.verts[u].position == old(mesh)@.verts[u].position,
        twins_involutive(old(mesh)@) && r is Ok ==> twins_involutive(final(mesh)@),
        unique_pairs(old(mesh)@) && r is Ok ==> unique_pairs(final(mesh)@),
{
    let ghost m = mesh@;
    let ghost bound = mesh.walk_bound();
    let h_r = mesh.twin(h_l)?;
    let f_l = match mesh.face_of(h_l) {
        Ok(f) => f,
        Err(MeshError::HalfedgeHasNoFace) => return Err(MeshError::BoundaryEdgeNotAllowed),
        Err(e) => return Err(e),
    };
    let f_r = match mesh.face_of(h_r) {
        Ok(f) => f,
        Err(MeshError::HalfedgeHasNoFace) => return Err(MeshError::BoundaryEdgeNotAllowed),
        Err(e) => return Err(e),
    };
    let (v, w) = mesh.src_dst_pair(h_l)?;
    let l_next = mesh.next(h_l)?;
    let l_prev = mesh.previous(h_l)?;
    let r_next = mesh.next(h_r)?;
    let r_prev = mesh.previous(h_r)?;
    let r_loop = mesh.halfedge_loop(h_r)?;
    let ghost p = EdgeDissolve { h_r, f_l, f_r, v, w, l_next, l_prev, r_next, r_prev, r_loop: r_loop@ };
    assert(dissolve_edge_plan(m, h_l, bound) == Ok::<EdgeDissolve, MeshError>(p));
    proof {
        m.lemma_cycle(h_r, false, bound);
        m.lemma_cycle(h_l, false, bound);
    }

    // Splice the two loops together and hand the removed side to f_l.
    mesh.write_next(r_prev, Some(l_next));
    mesh.write_next(l_prev, Some(r_next));
    proof {
        mesh@.lemma_set_faces(r_loop@, Some(f_l));
    }
    mesh.write_faces(&r_loop, Some(f_l));

    // Move records off the half-edges that are about to go.
    if mesh.face(f_l).unwrap().halfedge == Some(h_l) {
        mesh.write_face_halfedge(f_l, Some(l_prev));
    }
    // The successor of the twin leaves v; the successor of h_l leaves w.
    if mesh.vertex(v).unwrap().halfedge == Some(h_l) {
        mesh.write_vertex_halfedge(v, Some(r_next));
    }
    if mesh.vertex(w).unwrap().halfedge == Some(h_r) {
        mesh.write_vertex_halfedge(w, Some(l_next));
    }

    mesh.remove_halfedge(h_l);
    mesh.remove_halfedge(h_r);
    mesh.remove_face(f_r);
    proof {
        if twins_involutive(m) {
            lemma_dissolve_edge_keeps_twins(m, h_l, bound);
        }
        if unique_pairs(m) {
            lemma_dissolve_edge_keeps_pairs(m, h_l, bound);
        }
        assert(mesh@.verts.dom() =~= m.verts.dom());
    }
    Ok(())
}

/// The mesh after `duplicate_edge(h)` with new half-edges `a` (from `v` to
/// `w`) and `b` (back), and the new two-sided face `f`: each old side
/// now twins with the new half-edge that runs opposite to it.
pub open spec fn duplicate_edge_result<P>(
    m: MeshModel<P>,
    h: HalfEdgeId,
    t: HalfEdgeId,
    v: VertexId,
    w: VertexId,
    a: HalfEdgeId,
    b: HalfEdgeId,
    f: FaceId,
) -> MeshModel<P> {
    m.with_he(a, HalfEdge { vertex: Some(v), face: Some(f), twin: Some(t), next: Some(b) }).with_he(
        b,
        HalfEdge { vertex: Some(w), face: Some(f), twin: Some(h), next: Some(a) },
    ).with_face(f, crate::mesh::Face { halfedge: Some(a) }).set_twin(t, Some(a)).set_twin(h, Some(b))
}

/// `n` is `m` after `duplicate_edge(h)` returned `a`: some fresh half-edge
/// `b` and fresh face `f` complete the picture of `duplicate_edge_result`.
pub open spec fn duplicated<P>(
    m: MeshModel<P>,
    n: MeshModel<P>,
    h: HalfEdgeId,
    v: VertexId,
    w: VertexId,
    a: HalfEdgeId,
) -> bool {
    exists|b: HalfEdgeId, f: FaceId|
        {
            &&& !m.hes.contains_key(a)
            &&& !m.hes.contains_key(b)
            &&& a != b
            &&& !m.faces.contains_key(f)
            &&& n == duplicate_edge_result(m, h, m.twin_of(h)->Ok_0, v, w, a, b, f)
        }
}

/// Creates a two-sided face inside the edge of `h`, and returns its
/// half-edge that runs the same way as `h`.
pub fn duplicate_edge<P: Copy>(mesh: &mut HalfEdgeMesh<P>, h: HalfEdgeId) -> (r: Result<
    HalfEdgeId,
    MeshError,
>)
    requires
        old(mesh).wf(),
        old(mesh).has_room(2),
    ensures
        final(mesh).wf(),
        final(mesh).caps().0 == old(mesh).caps().0,
        old(mesh).caps().1 <= final(mesh).caps().1 <= old(mesh).caps().1 + 2,
        old(mesh).caps().2 <= final(mesh).caps().2 <= old(mesh).caps().2 + 1,
        match old(mesh)@.src_dst_of(h) {
            Err(e) => r == Err::<HalfEdgeId, MeshError>(e) && final(mesh)@ == old(mesh)@,
            Ok(vw) => r is Ok && duplicated(old(mesh)@, final(mesh)@, h, vw.0, vw.1, r->Ok_0),
        },
        twins_involutive(old(mesh)@) && r is Ok ==> twins_involutive(final(mesh)@),
        faces_closed(old(mesh)@, old(mesh).walk_bound()) && r is Ok ==> faces_closed(
            final(mesh)@,
            final(mesh).walk_bound(),
        ),
{
    let ghost m = mesh@;
    let (v, w) = mesh.src_dst_pair(h)?;
    let t = mesh.twin(h)?;
    let a = mesh.alloc_halfedge(HalfEdge { vertex: Some(v), face: None, twin: Some(t), next: None });
    let f = mesh.alloc_face(Some(a));
    let b = mesh.alloc_halfedge(HalfEdge { vertex: Some(w), face: Some(f), twin: Some(h), next: Some(a) });
    mesh.write_halfedge(a, HalfEdge { vertex: Some(v), face: Some(f), twin: Some(t), next: Some(b) });
    mesh.write_twin(t, Some(a));
    mesh.write_twin(h, Some(b));
    proof {
        let want = duplicate_edge_result(m, h, t, v, w, a, b, f);
        assert(mesh@.hes =~= want.hes);
        assert(mesh@.faces =~= want.faces);
        assert(mesh@.verts =~= want.verts);
        assert(mesh@ == want);
        assert(m.twin_of(h)->Ok_0 == t);
        assert(!m.hes.contains_key(a) && !m.hes.contains_key(b) && a != b && !m.faces.contains_key(f));
        assert(duplicated(m, mesh@, h, v, w, a));
        if twins_involutive(m) {
            lemma_duplicate_edge_keeps_twins(m, mesh@, h, v, w, a);
        }
        if faces_closed(m, old(mesh).walk_bound()) {
            mesh.lemma_two_halfedges(a, b);
            lemma_duplicate_edge_keeps_faces_closed(m, mesh@, h, v, w, a, old(mesh).walk_bound(), mesh.walk_bound());
        }
    }
    Ok(a)
}

/// What `collapse_edge` reads before it rewrites anything.
pub struct EdgeCollapse {
    pub v: VertexId,
    pub w: VertexId,
    pub t: HalfEdgeId,
    pub h_next: HalfEdgeId,
    pub h_prev: HalfEdgeId,
    pub t_next: HalfEdgeId,
    pub t_prev: HalfEdgeId,
    pub w_out: Seq<HalfEdgeId>,
    pub v_next_fan: HalfEdgeId,
    pub f_h: Option<FaceId>,
    pub f_t: Option<FaceId>,
}

pub open spec fn ok_face<P>(m: MeshModel<P>, h: HalfEdgeId) -> Option<FaceId> {
    match m.face_of(h) {
        Ok(f) => Some(f),
        Err(_) => None,
    }
}

pub open spec fn collapse_edge_plan<P>(m: MeshModel<P>, h: HalfEdgeId, bound: nat) -> Result<
    EdgeCollapse,
    MeshError,
> {
    match m.src_dst_of(h) {
        Err(e) => Err(e),
        Ok(vw) => match m.twin_of(h) {
            Err(e) => Err(e),
            Ok(t) => match m.next_of(h) {
                Err(e) => Err(e),
                Ok(h_next) => match m.previous_of(h, bound) {
                    Err(e) => Err(e),
                    Ok(h_prev) => match m.next_of(t) {
                        Err(e) => Err(e),
                        Ok(t_next) => match m.previous_of(t, bound) {
                            Err(e) => Err(e),
                            Ok(t_prev) => match m.outgoing_of(vw.1, bound) {
                                Err(e) => Err(e),
                                Ok(w_out) => match m.step(h, true) {
                                    Err(e) => Err(e),
                                    Ok(v_next_fan) => Ok(
                                        EdgeCollapse {
                                            v: vw.0,
                                            w: vw.1,
                                            t,
                                            h_next,
                                            h_prev,
                                            t_next,
                                            t_prev,
                                            w_out,
                                            v_next_fan,
                                            f_h: ok_face(m, h),
                                            f_t: ok_face(m, t),
                                        },
                                    ),
                                },
                            },
                        },
                    },
                },
            },
        },
    }
}

/// The mesh after collapsing `h` by plan `p`: the half-edges leaving `w`
/// now leave `v`, both loops close over the removed half-edges, records
/// that named a removed half-edge are moved off it, and `h`, its twin and
/// `w` are removed.
pub open spec fn collapse_edge_result<P>(m: MeshModel<P>, h: HalfEdgeId, p: EdgeCollapse) -> MeshModel<P> {
    let m1 = m.set_srcs(p.w_out, Some(p.v)).set_next(p.t_prev, Some(p.t_next)).set_next(
        p.h_prev,
        Some(p.h_next),
    );
    let m2 = match p.f_h {
        Some(f) => if m1.faces[f].halfedge == Some(h) {
            m1.set_face_he(f, Some(p.h_next))
        } else {
            m1
        },
        None => m1,
    };
    let m3 = match p.f_t {
        Some(f) => if m2.faces[f].halfedge == Some(p.t) {
            m2.set_face_he(f, Some(p.t_next))
        } else {
            m2
        },
        None => m2,
    };
    let m4 = if m3.verts[p.v].halfedge == Some(h) {
        m3.set_vertex_he(p.v, Some(p.v_next_fan))
    } else {
        m3
    };
    m4.without_he(p.t).without_he(h).without_vertex(p.w)
}

/// Merges the end vertex of `h` into its start vertex, which is returned.
pub fn collapse_edge<P: Copy>(mesh: &mut HalfEdgeMesh<P>, h: HalfEdgeId) -> (r: Result<VertexId, MeshError>)
    requires
        old(mesh).wf(),
    ensures
        final(mesh).wf(),
        final(mesh).caps() == old(mesh).caps(),
        match collapse_edge_plan(old(mesh)@, h, old(mesh).walk_bound()) {
            Err(e) => r == Err::<VertexId, MeshError>(e) && final(mesh)@ == old(mesh)@,
            Ok(p) => r == Ok::<VertexId, MeshError>(p.v) && final(mesh)@ == collapse_edge_result(
                old(mesh)@,
                h,
                p,
            ),
        },
        twins_involutive(old(mesh)@) && r is Ok ==> twins_involutive(final(mesh)@),
{
    let ghost m = mesh@;
    let ghost bound = mesh.walk_bound();
    let (v, w) = mesh.src_dst_pair(h)?;
    let t = mesh.twin(h)?;
    let h_next = mesh.next(h)?;
    let h_prev = mesh.previous(h)?;
    let t_next = mesh.next(t)?;
    let t_prev = mesh.previous(t)?;
    let w_out = mesh.outgoing_halfedges(w)?;
    let v_next_fan = mesh.cycle_around_fan(h)?;
    let f_h = match mesh.face_of(h) {
        Ok(f) => Some(f),
        Err(_) => None,
    };
    let f_t = match mesh.face_of(t) {
        Ok(f) => Some(f),
        Err(_) => None,
    };
    let ghost p = EdgeCollapse {
        v,
        w,
        t,
        h_next,
        h_prev,
        t_next,
        t_prev,
        w_out: w_out@,
        v_next_fan,
        f_h,
        f_t,
    };
    assert(collapse_edge_plan(m, h, bound) == Ok::<EdgeCollapse, MeshError>(p));
    proof {
        m.lemma_cycle(h, false, bound);
        m.lemma_cycle(t, false, bound);
        m.lemma_cycle(m.vertex_halfedge_of(w)->Ok_0, true, bound);
        m.lemma_set_srcs(w_out@, Some(v));
    }

    mesh.write_srcs(&w_out, Some(v));
    mesh.write_next(t_prev, Some(t_next));
    mesh.write_next(h_prev, Some(h_next));

    // Faces and the kept vertex may name a half-edge that is about to go.
    match f_h {
        Some(f) => {
            if mesh.face(f).unwrap().halfedge == Some(h) {
                mesh.write_face_halfedge(f, Some(h_next));
            }
        },
        None => {},
    }
    match f_t {
        Some(f) => {
            if mesh.face(f).unwrap().halfedge == Some(t) {
                mesh.write_face_halfedge(f, Some(t_next));
            }
        },
        None => {},
    }
    if mesh.vertex(v).unwrap().halfedge == Some(h) {
        mesh.write_vertex_halfedge(v, Some(v_next_fan));
    }

    mesh.remove_halfedge(t);
    mesh.remove_halfedge(h);
    mesh.remove_vertex(w);
    proof {
        if twins_involutive(m) {
            lemma_collapse_edge_keeps_twins(m, h, bound);
        }
    }
    Ok(v)
}

/// What `divide_edge` reads before it rewrites anything.
pub struct EdgeDivide {
    pub h_r: HalfEdgeId,
    pub l_prev: HalfEdgeId,
    pub r_next: HalfEdgeId,
    pub f_l: Option<FaceId>,
    pub f_r: Option<FaceId>,
    pub v: VertexId,
    pub w: VertexId,
}

pub open spec fn divide_edge_plan<P>(m: MeshModel<P>, h: HalfEdgeId, bound: nat) -> Result<
    EdgeDivide,
    MeshError,
> {
    match m.twin_of(h) {
        Err(e) => Err(e),
        Ok(h_r) => match m.previous_of(h, bound) {
            Err(e) => Err(e),
            Ok(l_prev) => match m.next_of(h_r) {
                Err(e) => Err(e),
                Ok(r_next) => match m.src_dst_of(h) {
                    Err(e) => Err(e),
                    Ok(vw) => Ok(
                        EdgeDivide {
                            h_r,
                            l_prev,
                            r_next,
                            f_l: ok_face(m, h),
                            f_r: ok_face(m, h_r),
                            v: vw.0,
                            w: vw.1,
                        },
                    ),
                },
            },
        },
    }
}

/// The mesh after dividing `h` at the new vertex `x`, with new half-edges
/// `a` (from `v` to `x`, before `h` in its loop) and `b` (from `x` to `v`,
/// after the twin in its loop). `h` keeps the second half, from `x` to `w`.
pub open spec fn divide_edge_result<P>(
    m: MeshModel<P>,
    h: HalfEdgeId,
    p: EdgeDivide,
    pos: P,
    x: VertexId,
    a: HalfEdgeId,
    b: HalfEdgeId,
) -> MeshModel<P> {
    m.with_vertex(x, crate::mesh::Vertex { position: pos, halfedge: Some(h) }).with_he(
        a,
        HalfEdge { vertex: Some(p.v), face: p.f_l, twin: Some(b), next: Some(h) },
    ).with_he(b, HalfEdge { vertex: Some(x), face: p.f_r, twin: Some(a), next: Some(p.r_next) }).set_next(
        p.l_prev,
        Some(a),
    ).set_next(p.h_r, Some(b)).set_twin(h, Some(p.h_r)).set_twin(p.h_r, Some(h)).set_src(h, Some(x)).set_src(
        p.h_r,
        Some(p.w),
    ).set_vertex_he(p.v, Some(a))
}

/// `n` is `m` after `divide_edge` made vertex `x`: some fresh half-edges
/// `a` and `b` complete the picture of `divide_edge_result`.
pub open spec fn divided<P>(m: MeshModel<P>, n: MeshModel<P>, h: HalfEdgeId, p: EdgeDivide, pos: P, x: VertexId) -> bool {
    exists|a: HalfEdgeId, b: HalfEdgeId|
        {
            &&& !m.verts.contains_key(x)
            &&& !m.hes.contains_key(a)
            &&& !m.hes.contains_key(b)
            &&& a != b
            &&& n == divide_edge_result(m, h, p, pos, x, a, b)
        }
}

/// Splits the edge of `h` in two at a new vertex placed at `pos`, which is
/// returned. `h` keeps the second half of the edge, from the new vertex on.
pub fn divide_edge<P: Copy>(mesh: &mut HalfEdgeMesh<P>, h: HalfEdgeId, pos: P) -> (r: Result<
    VertexId,
    MeshError,
>)
    requires
        old(mesh).wf(),
        old(mesh).has_room(2),
    ensures
        final(mesh).wf(),
        old(mesh).caps().0 <= final(mesh).caps().0 <= old(mesh).caps().0 + 1,
        old(mesh).caps().1 <= final(mesh).caps().1 <= old(mesh).caps().1 + 2,
        final(mesh).caps().2 == old(mesh).caps().2,
        match divide_edge_plan(old(mesh)@, h, old(mesh).walk_bound()) {
            Err(e) => r == Err::<VertexId, MeshError>(e) && final(mesh)@ == old(mesh)@,
            Ok(p) => r is Ok && divided(old(mesh)@, final(mesh)@, h, p, pos, r->Ok_0),
        },
        r is Ok ==> final(mesh)@.verts[r->Ok_0].position == pos,
        forall|u: VertexId|
            #[trigger] old(mesh)@.verts.contains_key(u) ==> final(mesh)@.verts.contains_key(u)
                && final(mesh)@.verts[u].position == old(mesh)@.verts[u].position,
        r is Ok ==> final(mesh)@.verts.dom() == old(mesh)@.verts.dom().insert(r->Ok_0),
        unique_pairs(old(mesh)@) && twins_involutive(old(mesh)@) && starts_read(old(mesh)@) && r is Ok
            ==> unique_pairs(final(mesh)@),
        twins_involutive(old(mesh)@) && r is Ok ==> twins_involutive(final(mesh)@),
{
    let ghost m = mesh@;
    let ghost bound = mesh.walk_bound();
    let h_r = mesh.twin(h)?;
    let l_prev = mesh.previous(h)?;
    let r_next = mesh.next(h_r)?;
    let f_l = match mesh.face_of(h) {
        Ok(f) => Some(f),
        Err(_) => None,
    };
    let f_r = match mesh.face_of(h_r) {
        Ok(f) => Some(f),
        Err(_) => None,
    };
    let (v, w) = mesh.src_dst_pair(h)?;
    let ghost p = EdgeDivide { h_r, l_prev, r_next, f_l, f_r, v, w };
    assert(divide_edge_plan(m, h, bound) == Ok::<EdgeDivide, MeshError>(p));
    proof {
        m.lemma_cycle(h, false, bound);
    }

    let x = mesh.alloc_vertex(pos, Some(h));
    let a = mesh.alloc_halfedge(HalfEdge { vertex: Some(v), face: f_l, twin: None, next: Some(h) });
    let b = mesh.alloc_halfedge(HalfEdge { vertex: Some(x), face: f_r, twin: Some(a), next: Some(r_next) });
    mesh.write_twin(a, Some(b));
    mesh.write_next(l_prev, Some(a));
    mesh.write_next(h_r, Some(b));
    mesh.write_twin(h, Some(h_r));
    mesh.write_twin(h_r, Some(h));
    mesh.write_src(h, Some(x));
    mesh.write_src(h_r, Some(w));
    mesh.write_vertex_halfedge(v, Some(a));
    proof {
        let want = divide_edge_result(m, h, p, pos, x, a, b);
        assert(mesh@.hes =~= want.hes);
        assert(mesh@.faces =~= want.faces);
        assert(mesh@.verts =~= want.verts);
        assert(mesh@ == want);
        assert(divided(m, mesh@, h, p, pos, x));
        if twins_involutive(m) {
            lemma_divide_edge_keeps_twins(m, mesh@, h, p, pos, x);
            if unique_pairs(m) && starts_read(m) {
                lemma_divide_edge_keeps_pairs(m, mesh@, h, p, pos, x);
            }
        }
        assert(mesh@.verts.dom() =~= m.verts.dom().insert(x));
    }
    Ok(x)
}

/// The first index, from `i` on, at which `s` holds `x`.
pub open spec fn first_index<T>(s: Seq<T>, x: T, i: nat) -> Option<nat>
    decreases s.len() - i,
{
    if i >= s.len() {
        None
    } else if s[i as int] == x {
        Some(i)
    } else {
        first_index(s, x, i + 1)
    }
}

pub proof fn lemma_first_index<T>(s: Seq<T>, x: T, i: nat)
    ensures
        first_index(s, x, i) is Some ==> {
            let k = first_index(s, x, i)->Some_0;
            i <= k < s.len() && s[k as int] == x
        },
        first_index(s, x, i) is None ==> forall|j: int| i <= j < s.len() ==> s[j] != x,
    decreases s.len() - i,
{
    if i < s.len() {
        lemma_first_index(s, x, i + 1);
    }
}

/// The first face among `fs`, from index `i` on, whose loop passes through `w`.
pub open spec fn face_through<P>(m: MeshModel<P>, fs: Seq<FaceId>, w: VertexId, bound: nat, i: nat) -> Result<
    Option<FaceId>,
    MeshError,
>
    decreases fs.len() - i,
{
    if i >= fs.len() {
        Ok(None)
    } else {
        match m.face_vertices_of(fs[i as int], bound) {
            Err(e) => Err(e),
            Ok(vs) => if vs.contains(w) {
                Ok(Some(fs[i as int]))
            } else {
                face_through(m, fs, w, bound, i + 1)
            },
        }
    }
}

/// What `cut_face` reads before it rewrites anything: the face to cut, its
/// loop, and where `v` and `w` stand on it.
pub struct FaceCut {
    pub face: FaceId,
    pub loop_hs: Seq<HalfEdgeId>,
    pub v_idx: nat,
    pub w_idx: nat,
}

#[verifier::opaque]
pub open spec fn cut_face_plan<P>(m: MeshModel<P>, v: VertexId, w: VertexId, bound: nat) -> Result<
    FaceCut,
    MeshError,
> {
    match m.outgoing_of(v, bound) {
        Err(e) => Err(e),
        Ok(out) => match m.faces_of(out) {
            Err(e) => Err(e),
            Ok(fs) => match face_through(m, fs, w, bound, 0) {
                Err(e) => Err(e),
                Ok(None) => Err(MeshError::VerticesShareNoFace),
                Ok(Some(face)) => match m.face_loop_of(face, bound) {
                    Err(e) => Err(e),
                    Ok(hs) => if hs.len() <= 3 {
                        Err(MeshError::FaceTooSmallToCut)
                    } else if m.halfedge_to_of(v, w, bound) is Ok {
                        Err(MeshError::VerticesAlreadyConnected)
                    } else {
                            match m.srcs_of(hs) {
                                Err(e) => Err(e),
                                Ok(vs) => match (first_index(vs, v, 0), first_index(vs, w, 0)) {
                                    (Some(vi), Some(wi)) => Ok(
                                        FaceCut { face, loop_hs: hs, v_idx: vi, w_idx: wi },
                                    ),
                                    _ => Err(MeshError::VerticesShareNoFace),
                                },
                            }
                    },
                },
            },
        },
    }
}

/// The half-edges of the cut face's loop from `v` on, up to the one that
/// arrives at `w`: they move to the new face.
pub open spec fn cut_moved(p: FaceCut) -> Seq<HalfEdgeId> {
    let n = p.loop_hs.len() as int;
    let count = if p.w_idx > p.v_idx {
        p.w_idx - p.v_idx
    } else {
        p.w_idx + n - p.v_idx
    };
    Seq::new(count as nat, |j: int| p.loop_hs[wrap(p.v_idx + j, n)])
}

/// `i` brought back into `0..n`, for `0 <= i < 2 * n`.
pub open spec fn wrap(i: int, n: int) -> int {
    if i < n {
        i
    } else {
        i - n
    }
}

/// The mesh after cutting by plan `p` with new half-edges `a` (from `v` to
/// `w`, kept on the old face) and `b` (from `w` to `v`, on the new face `g`).
#[verifier::opaque]
pub open spec fn cut_face_result<P>(
    m: MeshModel<P>,
    v: VertexId,
    w: VertexId,
    p: FaceCut,
    a: HalfEdgeId,
    b: HalfEdgeId,
    g: FaceId,
) -> MeshModel<P> {
    let n = p.loop_hs.len() as int;
    let v_prev = p.loop_hs[wrap(p.v_idx + n - 1, n)];
    let v_next = p.loop_hs[p.v_idx as int];
    let w_prev = p.loop_hs[wrap(p.w_idx + n - 1, n)];
    let w_next = p.loop_hs[p.w_idx as int];
    m.with_he(a, HalfEdge { vertex: Some(v), face: Some(p.face), twin: Some(b), next: Some(w_next) }).with_he(
        b,
        HalfEdge { vertex: Some(w), face: Some(g), twin: Some(a), next: Some(v_next) },
    ).with_face(g, crate::mesh::Face { halfedge: Some(b) }).set_face_he(p.face, Some(a)).set_next(
        v_prev,
        Some(a),
    ).set_next(w_prev, Some(b)).set_faces(cut_moved(p), Some(g))
}

/// `n` is `m` after `cut_face` returned `a`: a fresh twin `b` and a fresh
/// face `g` complete the picture of `cut_face_result`.
pub open spec fn cut_done<P>(m: MeshModel<P>, n: MeshModel<P>, v: VertexId, w: VertexId, p: FaceCut, a: HalfEdgeId) -> bool {
    exists|b: HalfEdgeId, g: FaceId|
        {
            &&& !m.hes.contains_key(a)
            &&& !m.hes.contains_key(b)
            &&& a != b
            &&& !m.faces.contains_key(g)
            &&& n == cut_face_result(m, v, w, p, a, b, g)
        }
}

/// Splits the face that `v` and `w` share with a new edge between them, and
/// returns its half-edge from `v` to `w`.
#[verifier::rlimit(40)]
pub fn cut_face<P: Copy>(mesh: &mut HalfEdgeMesh<P>, v: VertexId, w: VertexId) -> (r: Result<
    HalfEdgeId,
    MeshError,
>)
    requires
        old(mesh).wf(),
        old(mesh).has_room(2),
    ensures
        final(mesh).wf(),
        final(mesh).caps().0 == old(mesh).caps().0,
        old(mesh).caps().1 <= final(mesh).caps().1 <= old(mesh).caps().1 + 2,
        old(mesh).caps().2 <= final(mesh).caps().2 <= old(mesh).caps().2 + 1,
        match cut_face_plan(old(mesh)@, v, w, old(mesh).walk_bound()) {
            Err(e) => r == Err::<HalfEdgeId, MeshError>(e) && final(mesh)@ == old(mesh)@,
            Ok(p) => r is Ok && cut_done(old(mesh)@, final(mesh)@, v, w, p, r->Ok_0),
        },
        final(mesh)@.verts == old(mesh)@.verts,
        twins_involutive(old(mesh)@) && r is Ok ==> twins_involutive(final(mesh)@),
{
    let ghost m = mesh@;
    let ghost bound = mesh.walk_bound();
    let (face, hs, vi, wi) = plan_cut(mesh, v, w)?;
    let n = hs.len();
    let ghost p = FaceCut { face, loop_hs: hs@, v_idx: vi as nat, w_idx: wi as nat };
    proof {
        m.lemma_cycle_live(m.face_halfedge_of(face)->Ok_0, false, bound);
    }
    let v_prev = if vi == 0 { hs[n - 1] } else { hs[vi - 1] };
    let v_next = hs[vi];
    let w_prev = if wi == 0 { hs[n - 1] } else { hs[wi - 1] };
    let w_next = hs[wi];

    // The half-edges that move to the new face.
    let count: usize = if wi > vi { wi - vi } else { wi + (n - vi) };
    let moved = cyclic_run(&hs, vi, count);

    let a0 = HalfEdge { vertex: Some(v), face: Some(face), twin: None, next: Some(w_next) };
    let a = mesh.alloc_halfedge(a0);
    let b = mesh.alloc_halfedge(HalfEdge { vertex: Some(w), face: None, twin: Some(a), next: Some(v_next) });
    let g = mesh.alloc_face(Some(b));
    let b1 = HalfEdge { vertex: Some(w), face: Some(g), twin: Some(a), next: Some(v_next) };
    mesh.write_halfedge(b, b1);
    mesh.write_twin(a, Some(b));
    proof {
        m.lemma_pair_alloc(
            a,
            b,
            g,
            a0,
            HalfEdge { vertex: Some(w), face: None, twin: Some(a), next: Some(v_next) },
            b1,
            crate::mesh::Face { halfedge: Some(b) },
        );
    }
    mesh.write_face_halfedge(face, Some(a));
    mesh.write_next(v_prev, Some(a));
    mesh.write_next(w_prev, Some(b));
    proof {
        assert(moved@ =~= cut_moved(p));
        let m1 = mesh@;
        m1.lemma_set_faces(moved@, Some(g));
    }
    mesh.write_faces(&moved, Some(g));
    proof {
        reveal(cut_face_result);
        assert(mesh@ == cut_face_result(m, v, w, p, a, b, g));
        assert(cut_done(m, mesh@, v, w, p, a));
        assert(mesh@.verts == m.verts);
        if twins_involutive(m) {
            lemma_cut_face_keeps_twins(m, mesh@, v, w, bound, a);
        }
    }
    Ok(a)
}

/// The reads of `cut_face`: the face, its loop, and the indices of `v` and
/// `w` on it.
fn plan_cut<P: Copy>(mesh: &HalfEdgeMesh<P>, v: VertexId, w: VertexId) -> (r: Result<
    (FaceId, Vec<HalfEdgeId>, usize, usize),
    MeshError,
>)
    ensures
        match cut_face_plan(mesh@, v, w, mesh.walk_bound()) {
            Err(e) => r == Err::<(FaceId, Vec<HalfEdgeId>, usize, usize), MeshError>(e),
            Ok(p) => r is Ok && ({
                let (f, hs, vi, wi) = r->Ok_0;
                &&& p == FaceCut { face: f, loop_hs: hs@, v_idx: vi as nat, w_idx: wi as nat }
                &&& hs@.len() > 3
                &&& vi < hs@.len()
                &&& wi < hs@.len()
                &&& mesh@.face_loop_of(f, mesh.walk_bound()) == Ok::<Seq<HalfEdgeId>, MeshError>(hs@)
            }),
        },
{
    reveal(cut_face_plan);
    let out = mesh.outgoing_halfedges(v)?;
    let fs = mesh.faces_of_halfedges(&out)?;
    let face = match find_face_through(mesh, &fs, w)? {
        Some(f) => f,
        None => return Err(MeshError::VerticesShareNoFace),
    };
    let hs = mesh.face_halfedges(face)?;
    if hs.len() <= 3 {
        return Err(MeshError::FaceTooSmallToCut);
    }
    if mesh.halfedge_to(v, w).is_ok() {
        return Err(MeshError::VerticesAlreadyConnected);
    }
    let vs = mesh.src_vertices(&hs)?;
    proof {
        lemma_first_index(vs@, v, 0);
        lemma_first_index(vs@, w, 0);
        mesh@.lemma_srcs_of(hs@);
    }
    let vi = match vec_index_of(&vs, v) {
        Some(k) => k,
        None => return Err(MeshError::VerticesShareNoFace),
    };
    let wi = match vec_index_of(&vs, w) {
        Some(k) => k,
        None => return Err(MeshError::VerticesShareNoFace),
    };
    Ok((face, hs, vi, wi))
}

/// The first face of `fs` whose loop passes through `w`.
fn find_face_through<P: Copy>(mesh: &HalfEdgeMesh<P>, fs: &Vec<FaceId>, w: VertexId) -> (r: Result<
    Option<FaceId>,
    MeshError,
>)
    ensures
        r == face_through(mesh@, fs@, w, mesh.walk_bound(), 0),
{
    let mut i: usize = 0;
    while i < fs.len()
        invariant
            i <= fs@.len(),
            face_through(mesh@, fs@, w, mesh.walk_bound(), 0) == face_through(
                mesh@,
                fs@,
                w,
                mesh.walk_bound(),
                i as nat,
            ),
        decreases fs@.len() - i,
    {
        let vs = mesh.face_vertices(fs[i])?;
        if vec_contains(&vs, w) {
            return Ok(Some(fs[i]));
        }
        i += 1;
    }
    Ok(None)
}

/// `count` entries of `hs` from index `start` on, going round past the end.
fn cyclic_run(hs: &Vec<HalfEdgeId>, start: usize, count: usize) -> (r: Vec<HalfEdgeId>)
    requires
        start < hs@.len(),
        count <= hs@.len(),
    ensures
        r@ == Seq::new(count as nat, |k: int| hs@[wrap(start + k, hs@.len() as int)]),
{
    let n = hs.len();
    let mut moved: Vec<HalfEdgeId> = Vec::new();
    let mut j: usize = 0;
    while j < count
        invariant
            j <= count <= n,
            n == hs@.len(),
            start < n,
            moved@ =~= Seq::new(j as nat, |k: int| hs@[wrap(start + k, n as int)]),
        decreases count - j,
    {
        let k = if j < n - start { start + j } else { j - (n - start) };
        moved.push(hs[k]);
        j += 1;
    }
    moved
}

/// Whether `s` holds `x`.
fn vec_contains(s: &Vec<VertexId>, x: VertexId) -> (r: bool)
    ensures
        r == s@.contains(x),
{
    let mut i: usize = 0;
    while i < s.len()
        invariant
            i <= s@.len(),
            forall|j: int| 0 <= j < i ==> s@[j] != x,
        decreases s@.len() - i,
    {
        if s[i] == x {
            return true;
        }
        i += 1;
    }
    false
}

/// The first index at which `s` holds `x`.
fn vec_index_of(s: &Vec<VertexId>, x: VertexId) -> (r: Option<usize>)
    ensures
        r == (match first_index(s@, x, 0) {
            Some(k) => Some(k as usize),
            None => None::<usize>,
        }),
{
    let mut i: usize = 0;
    while i < s.len()
        invariant
            i <= s@.len(),
            first_index(s@, x, 0) == first_index(s@, x, i as nat),
        decreases s@.len() - i,
    {
        if s[i] == x {
            return Some(i);
        }
        i += 1;
    }
    None
}

/// `dissolve_vertex` after handling the first `i` half-edges of the fan
/// `out`: each one's loop is closed over it (the predecessor of its twin
/// now leads to its successor), and the far vertex moves off its twin. The
/// second component lists what is to be removed: twin, half-edge, face.
pub open spec fn dissolve_fan<P>(m: MeshModel<P>, out: Seq<HalfEdgeId>, bound: nat, i: nat) -> Result<
    (MeshModel<P>, Seq<(HalfEdgeId, HalfEdgeId, FaceId)>),
    MeshError,
>
    decreases i,
{
    if i == 0 {
        Ok((m, Seq::empty()))
    } else {
        match dissolve_fan(m, out, bound, (i - 1) as nat) {
            Err(e) => Err(e),
            Ok((mi, del)) => {
                let h = out[i - 1];
                match mi.twin_of(h) {
                    Err(e) => Err(e),
                    Ok(tw) => match mi.vertex_of(tw) {
                        Err(e) => Err(e),
                        Ok(w) => match mi.next_of(h) {
                            Err(e) => Err(e),
                            Ok(nxt) => match mi.previous_of(tw, bound) {
                                Err(e) => Err(e),
                                Ok(prv) => match mi.face_of(h) {
                                    Err(e) => Err(e),
                                    Ok(f) => {
                                        let m1 = mi.set_next(prv, Some(nxt));
                                        let m2 = if m1.verts[w].halfedge == Some(tw) {
                                            m1.set_vertex_he(w, Some(nxt))
                                        } else {
                                            m1
                                        };
                                        Ok((m2, del.push((tw, h, f))))
                                    },
                                },
                            },
                        },
                    },
                }
            },
        }
    }
}

/// Removes, in order, each twin, half-edge and face of `del`.
pub open spec fn remove_all<P>(m: MeshModel<P>, del: Seq<(HalfEdgeId, HalfEdgeId, FaceId)>) -> MeshModel<P>
    decreases del.len(),
{
    if del.len() == 0 {
        m
    } else {
        let (tw, h, f) = del.last();
        remove_all(m, del.drop_last()).without_he(tw).without_he(h).without_face(f)
    }
}

pub proof fn lemma_remove_all_verts<P>(m: MeshModel<P>, del: Seq<(HalfEdgeId, HalfEdgeId, FaceId)>)
    ensures
        remove_all(m, del).verts == m.verts,
    decreases del.len(),
{
    if del.len() > 0 {
        lemma_remove_all_verts(m, del.drop_last());
    }
}

/// What `dissolve_vertex(v)` does, given the new face `g`: `Ok` holds the
/// final mesh.
pub open spec fn dissolve_vertex_model<P>(m: MeshModel<P>, v: VertexId, bound: nat, g: FaceId) -> Result<
    MeshModel<P>,
    MeshError,
> {
    match m.outgoing_of(v, bound) {
        Err(MeshError::MissingHalfedge) => Err(MeshError::IsolatedVertex),
        Err(e) => Err(e),
        Ok(out) => {
            let m0 = m.with_face(g, crate::mesh::Face { halfedge: None });
            match dissolve_fan(m0, out, bound, out.len()) {
                Err(e) => Err(e),
                Ok((mn, del)) => match mn.next_of(out[0]) {
                    Err(e) => Err(e),
                    Ok(first) => match mn.cycle(first, false, bound) {
                        Err(e) => Err(e),
                        Ok(outer) => Ok(
                            remove_all(
                                mn.set_faces(outer, Some(g)).set_face_he(g, Some(outer[0])).without_vertex(v),
                                del,
                            ),
                        ),
                    },
                },
            }
        },
    }
}

/// The reads of one fan step of `dissolve_vertex`: twin, far vertex,
/// successor, the twin's predecessor and the face of `h`.
fn fan_reads<P: Copy>(mesh: &HalfEdgeMesh<P>, h: HalfEdgeId) -> (r: Result<
    (HalfEdgeId, VertexId, HalfEdgeId, HalfEdgeId, FaceId),
    MeshError,
>)
    ensures
        match mesh@.twin_of(h) {
            Err(e) => r == Err::<(HalfEdgeId, VertexId, HalfEdgeId, HalfEdgeId, FaceId), MeshError>(e),
            Ok(tw) => match mesh@.vertex_of(tw) {
                Err(e) => r == Err::<(HalfEdgeId, VertexId, HalfEdgeId, HalfEdgeId, FaceId), MeshError>(e),
                Ok(w) => match mesh@.next_of(h) {
                    Err(e) => r == Err::<(HalfEdgeId, VertexId, HalfEdgeId, HalfEdgeId, FaceId), MeshError>(e),
                    Ok(nxt) => match mesh@.previous_of(tw, mesh.walk_bound()) {
                        Err(e) => r == Err::<(HalfEdgeId, VertexId, HalfEdgeId, HalfEdgeId, FaceId), MeshError>(e),
                        Ok(prv) => match mesh@.face_of(h) {
                            Err(e) => r == Err::<(HalfEdgeId, VertexId, HalfEdgeId, HalfEdgeId, FaceId), MeshError>(e),
                            Ok(f) => r == Ok::<(HalfEdgeId, VertexId, HalfEdgeId, HalfEdgeId, FaceId), MeshError>((tw, w, nxt, prv, f)),
                        },
                    },
                },
            },
        },
{
    let tw = mesh.twin(h)?;
    let w = mesh.src_vertex(tw)?;
    let nxt = mesh.next(h)?;
    let prv = mesh.previous(tw)?;
    let f = mesh.face_of(h)?;
    Ok((tw, w, nxt, prv, f))
}

/// `dissolve_vertex(v)` fails with `e` for the new face that it made.
pub open spec fn dissolve_failed<P>(m: MeshModel<P>, v: VertexId, bound: nat, e: MeshError) -> bool {
    exists|g: FaceId|
        !m.faces.contains_key(g) && dissolve_vertex_model(m, v, bound, g) == Err::<MeshModel<P>, MeshError>(e)
}

pub proof fn lemma_fan_err<P>(m: MeshModel<P>, out: Seq<HalfEdgeId>, bound: nat, i: nat, n: nat)
    requires
        i <= n,
        dissolve_fan(m, out, bound, i) is Err,
    ensures
        dissolve_fan(m, out, bound, n) == dissolve_fan(m, out, bound, i),
    decreases n - i,
{
    if i < n {
        lemma_fan_err(m, out, bound, i, (n - 1) as nat);
    }
}

/// Removes `v` and every edge at it; the faces around it become one new
/// face, which is returned.
pub fn dissolve_vertex<P: Copy>(mesh: &mut HalfEdgeMesh<P>, v: VertexId) -> (r: Result<FaceId, MeshError>)
    requires
        old(mesh).wf(),
        old(mesh).has_room(1),
    ensures
        final(mesh).wf(),
        final(mesh).caps().0 == old(mesh).caps().0,
        final(mesh).caps().1 == old(mesh).caps().1,
        old(mesh).caps().2 <= final(mesh).caps().2 <= old(mesh).caps().2 + 1,
        match r {
            Ok(g) => !old(mesh)@.faces.contains_key(g) && !final(mesh)@.verts.contains_key(v)
                && dissolve_vertex_model(
                old(mesh)@,
                v,
                old(mesh).walk_bound(),
                g,
            ) == Ok::<MeshModel<P>, MeshError>(final(mesh)@),
            Err(e) => match old(mesh)@.outgoing_of(v, old(mesh).walk_bound()) {
                Err(MeshError::MissingHalfedge) => e == MeshError::IsolatedVertex && final(mesh)@
                    == old(mesh)@,
                Err(e2) => e == e2 && final(mesh)@ == old(mesh)@,
                Ok(_) => dissolve_failed(old(mesh)@, v, old(mesh).walk_bound(), e),
            },
        },
        r is Ok ==> final(mesh)@.verts.dom() == old(mesh)@.verts.dom().remove(v),
        r is Ok ==> forall|u: VertexId|
            #[trigger] old(mesh)@.verts.contains_key(u) && final(mesh)@.verts.contains_key(u) ==> final(mesh)@.verts[u].position
                == old(mesh)@.verts[u].position,
        twins_involutive(old(mesh)@) && r is Ok ==> twins_involutive(final(mesh)@),
        unique_pairs(old(mesh)@) && r is Ok ==> unique_pairs(final(mesh)@),
{
    let ghost m = mesh@;
    let ghost bound = mesh.walk_bound();
    let out = match mesh.outgoing_halfedges(v) {
        Ok(o) => o,
        Err(MeshError::MissingHalfedge) => return Err(MeshError::IsolatedVertex),
        Err(e) => return Err(e),
    };
    proof {
        m.lemma_cycle_live(m.vertex_halfedge_of(v)->Ok_0, true, bound);
    }
    let g = mesh.alloc_face(None);
    let ghost m0 = mesh@;
    assert(m0 == m.with_face(g, crate::mesh::Face { halfedge: None }));
    let mut del: Vec<(HalfEdgeId, HalfEdgeId, FaceId)> = Vec::new();
    let mut i: usize = 0;
    while i < out.len()
        invariant
            mesh.wf(),
            mesh.walk_bound() == bound,
            mesh.caps().0 == old(mesh).caps().0,
            mesh.caps().1 == old(mesh).caps().1,
            old(mesh).caps().2 <= mesh.caps().2 <= old(mesh).caps().2 + 1,
            i <= out@.len(),
            mesh@.faces == m0.faces,
            m0 == m.with_face(g, crate::mesh::Face { halfedge: None }),
            !m.faces.contains_key(g),
            m == old(mesh)@,
            bound == old(mesh).walk_bound(),
            m.outgoing_of(v, bound) == Ok::<Seq<HalfEdgeId>, MeshError>(out@),
            out@.len() > 0,
            dissolve_fan(m0, out@, bound, i as nat) == Ok::<
                (MeshModel<P>, Seq<(HalfEdgeId, HalfEdgeId, FaceId)>),
                MeshError,
            >((mesh@, del@)),
        decreases out@.len() - i,
    {
        let h = out[i];
        let step = fan_reads(mesh, h);
        let (tw, w, nxt, prv, f) = match step {
            Ok(x) => x,
            Err(e) => {
                proof {
                    lemma_fan_err(m0, out@, bound, i as nat + 1, out@.len());
                    assert(dissolve_failed(m, v, bound, e));
                }
                return Err(e);
            },
        };
        proof {
            mesh@.lemma_cycle_live(tw, false, bound);
        }
        mesh.write_next(prv, Some(nxt));
        if mesh.vertex(w).unwrap().halfedge == Some(tw) {
            mesh.write_vertex_halfedge(w, Some(nxt));
        }
        del.push((tw, h, f));
        i += 1;
    }
    let first = match mesh.next(out[0]) {
        Ok(x) => x,
        Err(e) => {
            assert(dissolve_failed(m, v, bound, e));
            return Err(e);
        },
    };
    let outer = match mesh.halfedge_loop(first) {
        Ok(x) => x,
        Err(e) => {
            assert(dissolve_failed(m, v, bound, e));
            return Err(e);
        },
    };
    proof {
        mesh@.lemma_cycle_live(first, false, bound);
        mesh@.lemma_set_faces(outer@, Some(g));
    }
    mesh.write_faces(&outer, Some(g));
    mesh.write_face_halfedge(g, Some(outer[0]));
    mesh.remove_vertex(v);
    let ghost mr = mesh@;
    let mut j: usize = 0;
    while j < del.len()
        invariant
            mesh.wf(),
            mesh.caps().0 == old(mesh).caps().0,
            mesh.caps().1 == old(mesh).caps().1,
            old(mesh).caps().2 <= mesh.caps().2 <= old(mesh).caps().2 + 1,
            j <= del@.len(),
            mesh@ == remove_all(mr, del@.take(j as int)),
        decreases del@.len() - j,
    {
        let (tw, h, f) = del[j];
        assert(del@.take(j as int + 1).drop_last() =~= del@.take(j as int));
        mesh.remove_halfedge(tw);
        mesh.remove_halfedge(h);
        mesh.remove_face(f);
        j += 1;
    }
    assert(del@.take(del@.len() as int) =~= del@);
    proof {
        lemma_remove_all_verts(mr, del@);
        crate::invariants::lemma_dissolve_fan_twins(m0, out@, bound, out@.len());
        assert(mesh@.verts.dom() =~= m.verts.dom().remove(v));
        if twins_involutive(m) {
            lemma_dissolve_vertex_keeps_twins(m, v, bound, g);
        }
        if unique_pairs(m) {
            lemma_dissolve_vertex_keeps_pairs(m, v, bound, g);
        }
    }
    Ok(g)
}

/// `count` entries of `s` from index `start` on, going round past the end.
pub open spec fn cyc(s: Seq<HalfEdgeId>, start: int, count: nat) -> Seq<HalfEdgeId> {
    Seq::new(count, |k: int| s[wrap(start + k, s.len() as int)])
}

/// The entries of the cyclic list `s` strictly between index `a` and index
/// `b`, going forward from `a`.
pub open spec fn between(s: Seq<HalfEdgeId>, a: nat, b: nat) -> Seq<HalfEdgeId> {
    let n = s.len() as int;
    let e = if b < a {
        b + n
    } else {
        b as int
    };
    let count = if e > a {
        e - a - 1
    } else {
        0
    };
    cyc(s, wrap((a + 1) as int, n), count as nat)
}

/// What `split_vertex` reads before it rewrites anything.
pub struct VertexSplit {
    pub h_r_v: HalfEdgeId,
    pub h_v_r: HalfEdgeId,
    pub h_v_l: HalfEdgeId,
    pub h_l_v: HalfEdgeId,
    /// The half-edges arriving at `v` strictly between `h_r_v` and `h_l_v`.
    pub in_hs: Seq<HalfEdgeId>,
    /// The half-edges leaving `v` strictly between `h_v_r` and `h_v_l`: they
    /// move to the new vertex.
    pub out_hs: Seq<HalfEdgeId>,
    pub f_l_old: Option<FaceId>,
    pub f_r_old: Option<FaceId>,
    pub prev_r_v: HalfEdgeId,
    pub next_v_l: HalfEdgeId,
}

#[verifier::opaque]
pub open spec fn split_vertex_plan<P>(m: MeshModel<P>, v: VertexId, v_l: VertexId, v_r: VertexId, bound: nat) -> Result<
    VertexSplit,
    MeshError,
> {
    match m.halfedge_to_of(v_r, v, bound) {
        Err(e) => Err(e),
        Ok(h_r_v) => match m.twin_of(h_r_v) {
            Err(e) => Err(e),
            Ok(h_v_r) => match m.halfedge_to_of(v, v_l, bound) {
                Err(e) => Err(e),
                Ok(h_v_l) => match m.twin_of(h_v_l) {
                    Err(e) => Err(e),
                    Ok(h_l_v) => match m.outgoing_of(v, bound) {
                        Err(e) => Err(e),
                        Ok(outgoing) => match m.twins_of(outgoing) {
                            Err(e) => Err(e),
                            Ok(incoming) => match (
                                first_index(incoming, h_r_v, 0),
                                first_index(incoming, h_l_v, 0),
                                first_index(outgoing, h_v_r, 0),
                                first_index(outgoing, h_v_l, 0),
                            ) {
                                (Some(is), Some(ie), Some(os), Some(oe)) => match m.face_or_boundary_of(h_v_l) {
                                    Err(e) => Err(e),
                                    Ok(f_l_old) => match m.face_or_boundary_of(h_r_v) {
                                        Err(e) => Err(e),
                                        Ok(f_r_old) => match m.previous_of(h_r_v, bound) {
                                            Err(e) => Err(e),
                                            Ok(prev_r_v) => match m.next_of(h_v_l) {
                                                Err(e) => Err(e),
                                                Ok(next_v_l) => Ok(
                                                    VertexSplit {
                                                        h_r_v,
                                                        h_v_r,
                                                        h_v_l,
                                                        h_l_v,
                                                        in_hs: between(incoming, is, ie),
                                                        out_hs: between(outgoing, os, oe),
                                                        f_l_old,
                                                        f_r_old,
                                                        prev_r_v,
                                                        next_v_l,
                                                    },
                                                ),
                                            },
                                        },
                                    },
                                },
                                _ => Err(MeshError::HalfedgeFromToNotFound(v, v_l)),
                            },
                        },
                    },
                },
            },
        },
    }
}

/// The new elements of `split_vertex`.
pub struct SplitNew {
    pub w: VertexId,
    pub h_v_w: HalfEdgeId,
    pub h_w_v: HalfEdgeId,
    pub h_l_w: HalfEdgeId,
    pub h_w_l: HalfEdgeId,
    pub h_r_w: HalfEdgeId,
    pub h_w_r: HalfEdgeId,
    pub f_l: Option<FaceId>,
    pub f_r: Option<FaceId>,
}

/// The new elements are fresh and distinct; a new face exists on a side
/// exactly where the old face there does.
pub open spec fn split_new_fresh<P>(m: MeshModel<P>, p: VertexSplit, n: SplitNew) -> bool {
    &&& !m.verts.contains_key(n.w)
    &&& !m.hes.contains_key(n.h_v_w)
    &&& !m.hes.contains_key(n.h_w_v)
    &&& !m.hes.contains_key(n.h_l_w)
    &&& !m.hes.contains_key(n.h_w_l)
    &&& !m.hes.contains_key(n.h_r_w)
    &&& !m.hes.contains_key(n.h_w_r)
    &&& (n.f_l is Some <==> p.f_l_old is Some)
    &&& (n.f_r is Some <==> p.f_r_old is Some)
    &&& n.f_l is Some ==> !m.faces.contains_key(n.f_l->Some_0)
    &&& n.f_r is Some ==> !m.faces.contains_key(n.f_r->Some_0)
    &&& n.f_l is Some && n.f_r is Some ==> n.f_l != n.f_r
    &&& n.h_v_w != n.h_w_v && n.h_v_w != n.h_l_w && n.h_v_w != n.h_w_l && n.h_v_w != n.h_r_w && n.h_v_w
        != n.h_w_r
    &&& n.h_w_v != n.h_l_w && n.h_w_v != n.h_w_l && n.h_w_v != n.h_r_w && n.h_w_v != n.h_w_r
    &&& n.h_l_w != n.h_w_l && n.h_l_w != n.h_r_w && n.h_l_w != n.h_w_r
    &&& n.h_w_l != n.h_r_w && n.h_w_l != n.h_w_r
    &&& n.h_r_w != n.h_w_r
}

/// The mesh after splitting `v` by plan `p` into `v` and the new vertex
/// `n.w` at `pos`: a new edge joins them, a triangle closes each side that
/// had a face (a boundary side gets none), and
/// the half-edges leaving `v` between `v_r` and `v_l` now leave `w`.
#[verifier::opaque]
pub open spec fn split_vertex_result<P>(
    m: MeshModel<P>,
    v: VertexId,
    v_l: VertexId,
    v_r: VertexId,
    pos: P,
    p: VertexSplit,
    n: SplitNew,
) -> MeshModel<P> {
    let r_w_next = if p.out_hs.len() > 0 {
        p.out_hs[0]
    } else {
        n.h_w_l
    };
    let m1 = m.with_vertex(n.w, crate::mesh::Vertex { position: pos, halfedge: Some(n.h_w_v) }).with_he(
        n.h_v_w,
        HalfEdge { vertex: Some(v), face: n.f_r, twin: Some(n.h_w_v), next: Some(n.h_w_r) },
    ).with_he(
        n.h_w_v,
        HalfEdge { vertex: Some(n.w), face: n.f_l, twin: Some(n.h_v_w), next: Some(p.h_v_l) },
    ).with_he(
        n.h_l_w,
        HalfEdge { vertex: Some(v_l), face: n.f_l, twin: Some(n.h_w_l), next: Some(n.h_w_v) },
    ).with_he(
        n.h_w_l,
        HalfEdge { vertex: Some(n.w), face: p.f_l_old, twin: Some(n.h_l_w), next: Some(p.next_v_l) },
    ).with_he(
        n.h_r_w,
        HalfEdge { vertex: Some(v_r), face: p.f_r_old, twin: Some(n.h_w_r), next: Some(r_w_next) },
    ).with_he(
        n.h_w_r,
        HalfEdge { vertex: Some(n.w), face: n.f_r, twin: Some(n.h_r_w), next: Some(p.h_r_v) },
    ).put_face(n.f_l, crate::mesh::Face { halfedge: Some(n.h_l_w) }).put_face(
        n.f_r,
        crate::mesh::Face { halfedge: Some(n.h_w_r) },
    );
    let m2 = m1.set_next(p.h_v_l, Some(n.h_l_w)).set_face(p.h_v_l, n.f_l).set_next(
        p.h_r_v,
        Some(n.h_v_w),
    ).set_face(p.h_r_v, n.f_r);
    let m3 = match p.f_l_old {
        Some(f) => m2.set_face_he(f, Some(n.h_w_l)),
        None => m2,
    };
    let m4 = match p.f_r_old {
        Some(f) => m3.set_face_he(f, Some(n.h_r_w)),
        None => m3,
    };
    let m5 = m4.set_vertex_he(v, Some(n.h_v_w)).set_next(p.prev_r_v, Some(n.h_r_w));
    let m6 = if p.in_hs.len() > 0 {
        m5.set_next(p.in_hs.last(), Some(n.h_w_l))
    } else {
        m5
    };
    m6.set_srcs(p.out_hs, Some(n.w))
}

/// `n` is `m` after `split_vertex` made the vertex `w`: fresh elements
/// complete the picture of `split_vertex_result`.
pub open spec fn split_done<P>(
    m: MeshModel<P>,
    after: MeshModel<P>,
    v: VertexId,
    v_l: VertexId,
    v_r: VertexId,
    pos: P,
    p: VertexSplit,
    w: VertexId,
) -> bool {
    exists|n: SplitNew|
        n.w == w && split_new_fresh(m, p, n) && after == split_vertex_result(m, v, v_l, v_r, pos, p, n)
}

/// The entries of `s` strictly between index `a` and index `b`, cyclically.
fn between_exec(s: &Vec<HalfEdgeId>, a: usize, b: usize) -> (r: Vec<HalfEdgeId>)
    requires
        a < s@.len(),
        b < s@.len(),
    ensures
        r@ == between(s@, a as nat, b as nat),
{
    let n = s.len();
    let e_minus_a: usize = if b < a { b + (n - a) } else { b - a };
    let count: usize = if e_minus_a > 0 { e_minus_a - 1 } else { 0 };
    let start: usize = if a + 1 < n { a + 1 } else { 0 };
    cyclic_run(s, start, count)
}

/// The reads of `split_vertex`.
#[verifier::rlimit(40)]
fn plan_split<P: Copy>(mesh: &HalfEdgeMesh<P>, v: VertexId, v_l: VertexId, v_r: VertexId) -> (r: Result<
    (HalfEdgeId, HalfEdgeId, Vec<HalfEdgeId>, Vec<HalfEdgeId>, Option<FaceId>, Option<FaceId>, HalfEdgeId, HalfEdgeId),
    MeshError,
>)
    ensures
        match split_vertex_plan(mesh@, v, v_l, v_r, mesh.walk_bound()) {
            Err(e) => r is Err && r->Err_0 == e,
            Ok(p) => r is Ok && ({
                let (h_r_v, h_v_l, in_hs, out_hs, f_l_old, f_r_old, prev_r_v, next_v_l) = r->Ok_0;
                &&& p.h_r_v == h_r_v
                &&& p.h_v_l == h_v_l
                &&& p.in_hs == in_hs@
                &&& p.out_hs == out_hs@
                &&& p.f_l_old == f_l_old
                &&& p.f_r_old == f_r_old
                &&& p.prev_r_v == prev_r_v
                &&& p.next_v_l == next_v_l
                &&& mesh@.hes.contains_key(h_r_v)
                &&& mesh@.hes.contains_key(h_v_l)
                &&& mesh@.hes.contains_key(prev_r_v)
                &&& mesh@.verts.contains_key(v)
                &&& forall|j: int| 0 <= j < in_hs@.len() ==> mesh@.hes.contains_key(#[trigger] in_hs@[j])
                &&& forall|j: int| 0 <= j < out_hs@.len() ==> mesh@.hes.contains_key(#[trigger] out_hs@[j])
                &&& f_l_old is Some ==> mesh@.faces.contains_key(f_l_old->Some_0)
                &&& f_r_old is Some ==> mesh@.faces.contains_key(f_r_old->Some_0)
            }),
        },
{
    reveal(split_vertex_plan);
    let ghost m = mesh@;
    let ghost bound = mesh.walk_bound();
    let h_r_v = mesh.halfedge_to(v_r, v)?;
    let h_v_r = mesh.twin(h_r_v)?;
    let h_v_l = mesh.halfedge_to(v, v_l)?;
    let h_l_v = mesh.twin(h_v_l)?;
    let outgoing = mesh.outgoing_halfedges(v)?;
    let incoming = mesh.twins(&outgoing)?;
    proof {
        m.lemma_cycle_live(m.vertex_halfedge_of(v)->Ok_0, true, bound);
        m.lemma_twins_of(outgoing@);
        lemma_first_index(incoming@, h_r_v, 0);
        lemma_first_index(incoming@, h_l_v, 0);
        lemma_first_index(outgoing@, h_v_r, 0);
        lemma_first_index(outgoing@, h_v_l, 0);
    }
    let is = match position_of(&incoming, h_r_v) {
        Some(k) => k,
        None => return Err(MeshError::HalfedgeFromToNotFound(v, v_l)),
    };
    let ie = match position_of(&incoming, h_l_v) {
        Some(k) => k,
        None => return Err(MeshError::HalfedgeFromToNotFound(v, v_l)),
    };
    let os = match position_of(&outgoing, h_v_r) {
        Some(k) => k,
        None => return Err(MeshError::HalfedgeFromToNotFound(v, v_l)),
    };
    let oe = match position_of(&outgoing, h_v_l) {
        Some(k) => k,
        None => return Err(MeshError::HalfedgeFromToNotFound(v, v_l)),
    };
    let f_l_old = mesh.face_or_boundary(h_v_l)?;
    let f_r_old = mesh.face_or_boundary(h_r_v)?;
    let prev_r_v = mesh.previous(h_r_v)?;
    let next_v_l = mesh.next(h_v_l)?;
    proof {
        m.lemma_cycle_live(h_r_v, false, bound);
    }
    let in_hs = between_exec(&incoming, is, ie);
    let out_hs = between_exec(&outgoing, os, oe);
    proof {
        assert forall|j: int| 0 <= j < in_hs@.len() implies m.hes.contains_key(#[trigger] in_hs@[j]) by {
            let k = wrap(wrap((is + 1) as int, incoming@.len() as int) + j, incoming@.len() as int);
            assert(m.twin_of(outgoing@[k]) == Ok::<HalfEdgeId, MeshError>(incoming@[k]));
        }
    }
    assert(first_index(incoming@, h_r_v, 0) == Some(is as nat));
    assert(first_index(incoming@, h_l_v, 0) == Some(ie as nat));
    assert(first_index(outgoing@, h_v_r, 0) == Some(os as nat));
    assert(first_index(outgoing@, h_v_l, 0) == Some(oe as nat));
    assert(m.halfedge_to_of(v, v_l, bound) == Ok::<HalfEdgeId, MeshError>(h_v_l));
    assert(m.twin_of(h_r_v) == Ok::<HalfEdgeId, MeshError>(h_v_r));
    assert(m.twin_of(h_v_l) == Ok::<HalfEdgeId, MeshError>(h_l_v));
    assert(m.outgoing_of(v, bound) == Ok::<Seq<HalfEdgeId>, MeshError>(outgoing@));
    assert(m.face_or_boundary_of(h_r_v) == Ok::<Option<FaceId>, MeshError>(f_r_old));
    assert(m.next_of(h_v_l) == Ok::<HalfEdgeId, MeshError>(next_v_l));
    assert(m.halfedge_to_of(v_r, v, bound) == Ok::<HalfEdgeId, MeshError>(h_r_v));
    assert(m.twins_of(outgoing@) == Ok::<Seq<HalfEdgeId>, MeshError>(incoming@));
    assert(m.face_or_boundary_of(h_v_l) == Ok::<Option<FaceId>, MeshError>(f_l_old));
    assert(m.previous_of(h_r_v, bound) == Ok::<HalfEdgeId, MeshError>(prev_r_v));
    assert(split_vertex_plan(m, v, v_l, v_r, bound) is Ok);
    Ok((h_r_v, h_v_l, in_hs, out_hs, f_l_old, f_r_old, prev_r_v, next_v_l))
}

/// The first index at which `s` holds `x`.
fn position_of(s: &Vec<HalfEdgeId>, x: HalfEdgeId) -> (r: Option<usize>)
    ensures
        r is Some ==> first_index(s@, x, 0) == Some(r->Some_0 as nat) && r->Some_0 < s@.len(),
        r is None ==> first_index(s@, x, 0) is None,
{
    proof {
        lemma_first_index(s@, x, 0);
    }
    let mut i: usize = 0;
    while i < s.len()
        invariant
            i <= s@.len(),
            first_index(s@, x, 0) == first_index(s@, x, i as nat),
        decreases s@.len() - i,
    {
        if s[i] == x {
            return Some(i);
        }
        i += 1;
    }
    None
}

/// Splits `v` in two: the new vertex, placed at `pos` and returned, takes
/// the half-edges leaving `v` between `v_r` and `v_l`, and a new edge joins
/// it to `v`, with a triangle on each side. `v_l` and `v_r` must be
/// neighbours of `v`.
#[verifier::rlimit(60)]
pub fn split_vertex<P: Copy>(
    mesh: &mut HalfEdgeMesh<P>,
    v: VertexId,
    v_l: VertexId,
    v_r: VertexId,
    pos: P,
) -> (r: Result<VertexId, MeshError>)
    requires
        old(mesh).wf(),
        old(mesh).has_room(6),
    ensures
        final(mesh).wf(),
        old(mesh).caps().0 <= final(mesh).caps().0 <= old(mesh).caps().0 + 1,
        old(mesh).caps().1 <= final(mesh).caps().1 <= old(mesh).caps().1 + 6,
        old(mesh).caps().2 <= final(mesh).caps().2 <= old(mesh).caps().2 + 2,
        match split_vertex_plan(old(mesh)@, v, v_l, v_r, old(mesh).walk_bound()) {
            Err(e) => r == Err::<VertexId, MeshError>(e) && final(mesh)@ == old(mesh)@,
            Ok(p) => r is Ok && split_done(old(mesh)@, final(mesh)@, v, v_l, v_r, pos, p, r->Ok_0),
        },
        r is Ok ==> final(mesh)@.verts[r->Ok_0].position == pos,
        forall|u: VertexId|
            #[trigger] old(mesh)@.verts.contains_key(u) ==> final(mesh)@.verts.contains_key(u)
                && final(mesh)@.verts[u].position == old(mesh)@.verts[u].position,
        r is Ok ==> final(mesh)@.verts.dom() == old(mesh)@.verts.dom().insert(r->Ok_0),
        twins_involutive(old(mesh)@) && r is Ok ==> twins_involutive(final(mesh)@),
{
    let ghost m = mesh@;
    let ghost mesh_bound = mesh.walk_bound();
    let (h_r_v, h_v_l, in_hs, out_hs, f_l_old, f_r_old, prev_r_v, next_v_l) = plan_split(mesh, v, v_l, v_r)?;
    let ghost p = split_vertex_plan(m, v, v_l, v_r, mesh.walk_bound())->Ok_0;

    let none = HalfEdge { vertex: None, face: None, twin: None, next: None };
    let w = mesh.alloc_vertex(pos, None);
    let h_v_w = mesh.alloc_halfedge(none);
    let h_w_v = mesh.alloc_halfedge(none);
    let h_l_w = mesh.alloc_halfedge(none);
    let h_w_l = mesh.alloc_halfedge(none);
    let h_r_w = mesh.alloc_halfedge(none);
    let h_w_r = mesh.alloc_halfedge(none);
    // A side whose old face is absent gets no triangle.
    let f_l = if f_l_old.is_some() { Some(mesh.alloc_face(None)) } else { None };
    let f_r = if f_r_old.is_some() { Some(mesh.alloc_face(None)) } else { None };
    let ghost nw = SplitNew { w, h_v_w, h_w_v, h_l_w, h_w_l, h_r_w, h_w_r, f_l, f_r };
    assert(split_new_fresh(m, p, nw));

    let r_w_next = if out_hs.len() > 0 { out_hs[0] } else { h_w_l };
    mesh.write_vertex(w, crate::mesh::Vertex { position: pos, halfedge: Some(h_w_v) });
    mesh.write_halfedge(h_v_w, HalfEdge { vertex: Some(v), face: f_r, twin: Some(h_w_v), next: Some(h_w_r) });
    mesh.write_halfedge(h_w_v, HalfEdge { vertex: Some(w), face: f_l, twin: Some(h_v_w), next: Some(h_v_l) });
    mesh.write_halfedge(h_l_w, HalfEdge { vertex: Some(v_l), face: f_l, twin: Some(h_w_l), next: Some(h_w_v) });
    mesh.write_halfedge(h_w_l, HalfEdge { vertex: Some(w), face: f_l_old, twin: Some(h_l_w), next: Some(next_v_l) });
    mesh.write_halfedge(h_r_w, HalfEdge { vertex: Some(v_r), face: f_r_old, twin: Some(h_w_r), next: Some(r_w_next) });
    mesh.write_halfedge(h_w_r, HalfEdge { vertex: Some(w), face: f_r, twin: Some(h_r_w), next: Some(h_r_v) });
    match f_l {
        Some(g) => mesh.write_face(g, crate::mesh::Face { halfedge: Some(h_l_w) }),
        None => {},
    }
    match f_r {
        Some(g) => mesh.write_face(g, crate::mesh::Face { halfedge: Some(h_w_r) }),
        None => {},
    }
    proof {
        reveal(split_vertex_result);
        let want = m.with_vertex(w, crate::mesh::Vertex { position: pos, halfedge: Some(h_w_v) }).with_he(
            h_v_w,
            HalfEdge { vertex: Some(v), face: f_r, twin: Some(h_w_v), next: Some(h_w_r) },
        ).with_he(
            h_w_v,
            HalfEdge { vertex: Some(w), face: f_l, twin: Some(h_v_w), next: Some(h_v_l) },
        ).with_he(
            h_l_w,
            HalfEdge { vertex: Some(v_l), face: f_l, twin: Some(h_w_l), next: Some(h_w_v) },
        ).with_he(
            h_w_l,
            HalfEdge { vertex: Some(w), face: f_l_old, twin: Some(h_l_w), next: Some(next_v_l) },
        ).with_he(
            h_r_w,
            HalfEdge { vertex: Some(v_r), face: f_r_old, twin: Some(h_w_r), next: Some(r_w_next) },
        ).with_he(
            h_w_r,
            HalfEdge { vertex: Some(w), face: f_r, twin: Some(h_r_w), next: Some(h_r_v) },
        ).put_face(f_l, crate::mesh::Face { halfedge: Some(h_l_w) }).put_face(
            f_r,
            crate::mesh::Face { halfedge: Some(h_w_r) },
        );
        assert(mesh@.hes =~= want.hes);
        assert(mesh@.faces =~= want.faces);
        assert(mesh@.verts =~= want.verts);
    }

    mesh.write_next(h_v_l, Some(h_l_w));
    mesh.write_face_of(h_v_l, f_l);
    mesh.write_next(h_r_v, Some(h_v_w));
    mesh.write_face_of(h_r_v, f_r);
    match f_l_old {
        Some(f) => mesh.write_face_halfedge(f, Some(h_w_l)),
        None => {},
    }
    match f_r_old {
        Some(f) => mesh.write_face_halfedge(f, Some(h_r_w)),
        None => {},
    }
    mesh.write_vertex_halfedge(v, Some(h_v_w));
    mesh.write_next(prev_r_v, Some(h_r_w));
    if in_hs.len() > 0 {
        mesh.write_next(in_hs[in_hs.len() - 1], Some(h_w_l));
    }
    proof {
        mesh@.lemma_set_srcs(out_hs@, Some(w));
    }
    mesh.write_srcs(&out_hs, Some(w));
    proof {
        reveal(split_vertex_result);
        assert(mesh@ == split_vertex_result(m, v, v_l, v_r, pos, p, nw));
        assert(split_done(m, mesh@, v, v_l, v_r, pos, p, w));
        assert(mesh@.verts.dom() =~= m.verts.dom().insert(w));
        if twins_involutive(m) {
            lemma_split_vertex_keeps_twins(m, mesh@, v, v_l, v_r, pos, mesh_bound, w);
        }
    }
    Ok(w)
}

} // verus!
