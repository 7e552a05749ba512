//! The structural invariants of a half-edge mesh, checks that decide them,
//! and what follows from them.
use vstd::prelude::*;
use crate::edit::{
    collapse_edge_plan, collapse_edge_result, divide_edge_plan, cut_done, cut_face_plan, cut_face_result, cut_moved,
    dissolve_edge_plan, dissolve_edge_result, divide_edge_result, divided, duplicate_edge_result, duplicated,
    dissolve_fan, dissolve_vertex_model, lemma_first_index, remove_all, split_done, split_new_fresh, split_vertex_plan, split_vertex_result, wrap, EdgeDivide,
    SplitNew,
};
use crate::mesh::{FaceId, HalfEdge, HalfEdgeId, HalfEdgeMesh, MeshError, MeshModel, VertexId};

verus! {

/// Every half-edge has a live twin other than itself, whose twin it is.
pub open spec fn twins_involutive<P>(m: MeshModel<P>) -> bool {
    forall|h: HalfEdgeId|
        #[trigger] m.hes.contains_key(h) ==> {
            &&& m.twin_of(h) is Ok
            &&& m.twin_of(h)->Ok_0 != h
            &&& m.twin_of(m.twin_of(h)->Ok_0) == Ok::<HalfEdgeId, MeshError>(h)
        }
}

/// No two half-edges run between the same ordered pair of vertices.
pub open spec fn unique_pairs<P>(m: MeshModel<P>) -> bool {
    forall|a: HalfEdgeId, b: HalfEdgeId|
        #![trigger m.src_dst_of(a), m.src_dst_of(b)]
        m.hes.contains_key(a) && m.hes.contains_key(b) && a != b && m.src_dst_of(a) is Ok && m.src_dst_of(b) is Ok
            ==> m.src_dst_of(a) != m.src_dst_of(b)
}

/// Walking `next` from each face's half-edge comes back within `bound`
/// steps, through half-edges of that face only.
pub open spec fn faces_closed<P>(m: MeshModel<P>, bound: nat) -> bool {
    forall|f: FaceId|
        #[trigger] m.faces.contains_key(f) ==> {
            &&& m.face_loop_of(f, bound) is Ok
            &&& forall|j: int|
                0 <= j < m.face_loop_of(f, bound)->Ok_0.len() ==> m.hes[#[trigger] m.face_loop_of(
                    f,
                    bound,
                )->Ok_0[j]].face == Some(f)
        }
}

/// Walking `twin` then `next` from each vertex's half-edge comes back within
/// `bound` steps, through half-edges that start at that vertex only.
pub open spec fn fans_closed<P>(m: MeshModel<P>, bound: nat) -> bool {
    forall|v: VertexId|
        #[trigger] m.verts.contains_key(v) && m.verts[v].halfedge is Some ==> {
            &&& m.outgoing_of(v, bound) is Ok
            &&& forall|j: int|
                0 <= j < m.outgoing_of(v, bound)->Ok_0.len() ==> m.hes[#[trigger] m.outgoing_of(
                    v,
                    bound,
                )->Ok_0[j]].vertex == Some(v)
        }
}

/// A set closed under a pairing that moves every element and undoes itself
/// has an even number of elements.
pub proof fn lemma_paired_even<P>(m: MeshModel<P>, s: Set<HalfEdgeId>)
    requires
        s.finite(),
        forall|h: HalfEdgeId|
            #[trigger] s.contains(h) ==> {
                &&& m.twin_of(h) is Ok
                &&& s.contains(m.twin_of(h)->Ok_0)
                &&& m.twin_of(h)->Ok_0 != h
                &&& m.twin_of(m.twin_of(h)->Ok_0) == Ok::<HalfEdgeId, MeshError>(h)
            },
    ensures
        s.len() % 2 == 0,
    decreases s.len(),
{
    if s.len() > 0 {
        let h = s.choose();
        let t = m.twin_of(h)->Ok_0;
        let rest = s.remove(h).remove(t);
        assert forall|x: HalfEdgeId| #[trigger] rest.contains(x) implies {
            &&& m.twin_of(x) is Ok
            &&& rest.contains(m.twin_of(x)->Ok_0)
            &&& m.twin_of(x)->Ok_0 != x
            &&& m.twin_of(m.twin_of(x)->Ok_0) == Ok::<HalfEdgeId, MeshError>(x)
        } by {
            assert(s.contains(x));
        }
        lemma_paired_even(m, rest);
    }
}

/// The number of half-edges is even in every mesh whose twins pair its
/// half-edges up: each half-edge has a live twin other than itself, whose
/// twin it is.
pub proof fn lemma_halfedge_count_even<P: Copy>(mesh: &HalfEdgeMesh<P>)
    requires
        twins_involutive(mesh@),
    ensures
        mesh@.hes.dom().len() % 2 == 0,
{
    mesh.lemma_halfedges_finite();
    let m = mesh@;
    assert forall|h: HalfEdgeId| #[trigger] m.hes.dom().contains(h) implies {
        &&& m.twin_of(h) is Ok
        &&& m.hes.dom().contains(m.twin_of(h)->Ok_0)
        &&& m.twin_of(h)->Ok_0 != h
        &&& m.twin_of(m.twin_of(h)->Ok_0) == Ok::<HalfEdgeId, MeshError>(h)
    } by {
        assert(m.hes.contains_key(h));
    }
    lemma_paired_even(m, m.hes.dom());
}

/// `duplicate_edge` keeps twins paired: the two sides of the edge now twin
/// with the new half-edges, which twin with them.
pub proof fn lemma_duplicate_edge_keeps_twins<P>(
    m: MeshModel<P>,
    n: MeshModel<P>,
    h: HalfEdgeId,
    v: VertexId,
    w: VertexId,
    a: HalfEdgeId,
)
    requires
        twins_involutive(m),
        duplicated(m, n, h, v, w, a),
        m.hes.contains_key(h),
    ensures
        twins_involutive(n),
{
    let (b, f) = choose|b: HalfEdgeId, f: FaceId|
        {
            &&& !m.hes.contains_key(a)
            &&& !m.hes.contains_key(b)
            &&& a != b
            &&& !m.faces.contains_key(f)
            &&& n == duplicate_edge_result(m, h, m.twin_of(h)->Ok_0, v, w, a, b, f)
        };
    let t = m.twin_of(h)->Ok_0;
    assert(m.hes.contains_key(t));
    assert forall|x: HalfEdgeId| #[trigger] n.hes.contains_key(x) implies {
        &&& n.twin_of(x) is Ok
        &&& n.twin_of(x)->Ok_0 != x
        &&& n.twin_of(n.twin_of(x)->Ok_0) == Ok::<HalfEdgeId, MeshError>(x)
    } by {
        if x != a && x != b && x != h && x != t {
            assert(m.hes.contains_key(x));
            let y = m.twin_of(x)->Ok_0;
            assert(m.hes.contains_key(y));
            assert(y != h) by {
                if y == h {
                    assert(m.twin_of(h) == Ok::<HalfEdgeId, MeshError>(x));
                }
            }
            assert(y != t) by {
                if y == t {
                    assert(m.twin_of(t) == Ok::<HalfEdgeId, MeshError>(x));
                }
            }
        }
    }
}

/// `divide_edge` keeps twins paired: the two halves of the edge each pair
/// up, and nothing else changes its twin.
pub proof fn lemma_divide_edge_keeps_twins<P>(
    m: MeshModel<P>,
    n: MeshModel<P>,
    h: HalfEdgeId,
    p: EdgeDivide,
    pos: P,
    x: VertexId,
)
    requires
        twins_involutive(m),
        divided(m, n, h, p, pos, x),
        m.twin_of(h) == Ok::<HalfEdgeId, MeshError>(p.h_r),
        m.hes.contains_key(p.l_prev),
        m.verts.contains_key(p.v),
    ensures
        twins_involutive(n),
{
    let (a, b) = choose|a: HalfEdgeId, b: HalfEdgeId|
        {
            &&& !m.verts.contains_key(x)
            &&& !m.hes.contains_key(a)
            &&& !m.hes.contains_key(b)
            &&& a != b
            &&& n == divide_edge_result(m, h, p, pos, x, a, b)
        };
    assert forall|z: HalfEdgeId| #[trigger] n.hes.contains_key(z) implies {
        &&& n.twin_of(z) is Ok
        &&& n.twin_of(z)->Ok_0 != z
        &&& n.twin_of(n.twin_of(z)->Ok_0) == Ok::<HalfEdgeId, MeshError>(z)
    } by {
        if z != a && z != b && z != h && z != p.h_r {
            assert(m.hes.contains_key(z));
            let y = m.twin_of(z)->Ok_0;
            assert(y != h) by {
                if y == h {
                    assert(m.twin_of(h) == Ok::<HalfEdgeId, MeshError>(z));
                }
            }
            assert(y != p.h_r) by {
                if y == p.h_r {
                    assert(m.twin_of(p.h_r) == Ok::<HalfEdgeId, MeshError>(z));
                }
            }
        }
    }
}

/// `dissolve_edge` keeps twins paired: it removes a half-edge together
/// with its twin, and changes no other twin.
pub proof fn lemma_dissolve_edge_keeps_twins<P>(m: MeshModel<P>, h: HalfEdgeId, bound: nat)
    requires
        twins_involutive(m),
        dissolve_edge_plan(m, h, bound) is Ok,
    ensures
        twins_involutive(dissolve_edge_result(m, h, dissolve_edge_plan(m, h, bound)->Ok_0)),
{
    let p = dissolve_edge_plan(m, h, bound)->Ok_0;
    m.lemma_cycle_live(p.h_r, false, bound);
    m.lemma_cycle(h, false, bound);
    m.lemma_cycle(p.h_r, false, bound);
    let m1 = m.set_next(p.r_prev, Some(p.l_next)).set_next(p.l_prev, Some(p.r_next));
    m1.lemma_set_faces(p.r_loop, Some(p.f_l));
    let n = dissolve_edge_result(m, h, p);
    assert forall|z: HalfEdgeId| #[trigger] n.hes.contains_key(z) implies {
        &&& n.twin_of(z) is Ok
        &&& n.twin_of(z)->Ok_0 != z
        &&& n.twin_of(n.twin_of(z)->Ok_0) == Ok::<HalfEdgeId, MeshError>(z)
    } by {
        assert(m.hes.contains_key(z));
        assert(n.hes[z].twin == m.hes[z].twin);
        let y = m.twin_of(z)->Ok_0;
        assert(y != h) by {
            if y == h {
                assert(m.twin_of(h) == Ok::<HalfEdgeId, MeshError>(z));
            }
        }
        assert(y != p.h_r) by {
            if y == p.h_r {
                assert(m.twin_of(p.h_r) == Ok::<HalfEdgeId, MeshError>(z));
            }
        }
        assert(n.hes.contains_key(y));
        assert(n.hes[y].twin == m.hes[y].twin);
    }
}

/// `collapse_edge` keeps twins paired: it removes a half-edge together
/// with its twin, and changes no other twin.
#[verifier::rlimit(50)]
pub proof fn lemma_collapse_edge_keeps_twins<P>(m: MeshModel<P>, h: HalfEdgeId, bound: nat)
    requires
        twins_involutive(m),
        collapse_edge_plan(m, h, bound) is Ok,
    ensures
        twins_involutive(collapse_edge_result(m, h, collapse_edge_plan(m, h, bound)->Ok_0)),
{
    let p = collapse_edge_plan(m, h, bound)->Ok_0;
    m.lemma_cycle(h, false, bound);
    m.lemma_cycle(p.t, false, bound);
    m.lemma_cycle_live(m.vertex_halfedge_of(p.w)->Ok_0, true, bound);
    m.lemma_set_srcs(p.w_out, Some(p.v));
    let n = collapse_edge_result(m, h, p);
    assert forall|z: HalfEdgeId| #[trigger] n.hes.contains_key(z) implies {
        &&& n.twin_of(z) is Ok
        &&& n.twin_of(z)->Ok_0 != z
        &&& n.twin_of(n.twin_of(z)->Ok_0) == Ok::<HalfEdgeId, MeshError>(z)
    } by {
        assert(m.hes.contains_key(z));
        assert(n.hes[z].twin == m.hes[z].twin);
        let y = m.twin_of(z)->Ok_0;
        assert(y != h) by {
            if y == h {
                assert(m.twin_of(h) == Ok::<HalfEdgeId, MeshError>(z));
            }
        }
        assert(y != p.t) by {
            if y == p.t {
                assert(m.twin_of(p.t) == Ok::<HalfEdgeId, MeshError>(z));
            }
        }
        assert(n.hes.contains_key(y));
        assert(n.hes[y].twin == m.hes[y].twin);
    }
}

/// `cut_face` keeps twins paired: the new edge's two half-edges twin with
/// each other, and nothing else changes its twin.
pub proof fn lemma_cut_face_keeps_twins<P>(
    m: MeshModel<P>,
    n: MeshModel<P>,
    v: VertexId,
    w: VertexId,
    bound: nat,
    a: HalfEdgeId,
)
    requires
        twins_involutive(m),
        cut_face_plan(m, v, w, bound) is Ok,
        cut_done(m, n, v, w, cut_face_plan(m, v, w, bound)->Ok_0, a),
    ensures
        twins_involutive(n),
{
    reveal(cut_face_plan);
    reveal(cut_face_result);
    let p = cut_face_plan(m, v, w, bound)->Ok_0;
    let (b, g) = choose|b: HalfEdgeId, g: FaceId|
        {
            &&& !m.hes.contains_key(a)
            &&& !m.hes.contains_key(b)
            &&& a != b
            &&& !m.faces.contains_key(g)
            &&& n == cut_face_result(m, v, w, p, a, b, g)
        };
    m.lemma_cycle_live(m.face_halfedge_of(p.face)->Ok_0, false, bound);
    m.lemma_srcs_of(p.loop_hs);
    let vs = m.srcs_of(p.loop_hs)->Ok_0;
    lemma_first_index(vs, v, 0);
    lemma_first_index(vs, w, 0);
    let len = p.loop_hs.len() as int;
    assert(p.v_idx < len && p.w_idx < len);
    let v_prev = p.loop_hs[wrap(p.v_idx + len - 1, len)];
    let w_prev = p.loop_hs[wrap(p.w_idx + len - 1, len)];
    let w_next = p.loop_hs[p.w_idx as int];
    let v_next = p.loop_hs[p.v_idx as int];
    let m1 = m.with_he(a, HalfEdge { vertex: Some(v), face: Some(p.face), twin: Some(b), next: Some(w_next) }).with_he(
        b,
        HalfEdge { vertex: Some(w), face: Some(g), twin: Some(a), next: Some(v_next) },
    ).with_face(g, crate::mesh::Face { halfedge: Some(b) }).set_face_he(p.face, Some(a)).set_next(
        v_prev,
        Some(a),
    ).set_next(w_prev, Some(b));
    assert forall|j: int| 0 <= j < cut_moved(p).len() implies m1.hes.contains_key(#[trigger] cut_moved(p)[j]) by {
        assert(m.hes.contains_key(p.loop_hs[wrap(p.v_idx + j, len)]));
    }
    m1.lemma_set_faces(cut_moved(p), Some(g));
    assert forall|z: HalfEdgeId| #[trigger] n.hes.contains_key(z) implies {
        &&& n.twin_of(z) is Ok
        &&& n.twin_of(z)->Ok_0 != z
        &&& n.twin_of(n.twin_of(z)->Ok_0) == Ok::<HalfEdgeId, MeshError>(z)
    } by {
        if z != a && z != b {
            assert(m.hes.contains_key(z));
            assert(n.hes[z].twin == m.hes[z].twin);
            let y = m.twin_of(z)->Ok_0;
            assert(n.hes[y].twin == m.hes[y].twin);
        }
    }
}

/// `split_vertex` keeps twins paired: its three new edges each pair their
/// two half-edges, and nothing else changes its twin.
pub proof fn lemma_split_vertex_keeps_twins<P>(
    m: MeshModel<P>,
    n: MeshModel<P>,
    v: VertexId,
    v_l: VertexId,
    v_r: VertexId,
    pos: P,
    bound: nat,
    w: VertexId,
)
    requires
        twins_involutive(m),
        split_vertex_plan(m, v, v_l, v_r, bound) is Ok,
        split_done(m, n, v, v_l, v_r, pos, split_vertex_plan(m, v, v_l, v_r, bound)->Ok_0, w),
        ({
            let p = split_vertex_plan(m, v, v_l, v_r, bound)->Ok_0;
            &&& m.hes.contains_key(p.h_v_l)
            &&& m.hes.contains_key(p.h_r_v)
            &&& m.hes.contains_key(p.prev_r_v)
            &&& m.verts.contains_key(v)
            &&& forall|j: int| 0 <= j < p.in_hs.len() ==> m.hes.contains_key(#[trigger] p.in_hs[j])
            &&& forall|j: int| 0 <= j < p.out_hs.len() ==> m.hes.contains_key(#[trigger] p.out_hs[j])
            &&& p.f_l_old is Some ==> m.faces.contains_key(p.f_l_old->Some_0)
            &&& p.f_r_old is Some ==> m.faces.contains_key(p.f_r_old->Some_0)
        }),
    ensures
        twins_involutive(n),
{
    reveal(split_vertex_result);
    let p = split_vertex_plan(m, v, v_l, v_r, bound)->Ok_0;
    let nw = choose|nw: SplitNew|
        nw.w == w && split_new_fresh(m, p, nw) && n == split_vertex_result(m, v, v_l, v_r, pos, p, nw);
    let r_w_next = if p.out_hs.len() > 0 {
        p.out_hs[0]
    } else {
        nw.h_w_l
    };
    let m1 = m.with_vertex(nw.w, crate::mesh::Vertex { position: pos, halfedge: Some(nw.h_w_v) }).with_he(
        nw.h_v_w,
        HalfEdge { vertex: Some(v), face: nw.f_r, twin: Some(nw.h_w_v), next: Some(nw.h_w_r) },
    ).with_he(
        nw.h_w_v,
        HalfEdge { vertex: Some(nw.w), face: nw.f_l, twin: Some(nw.h_v_w), next: Some(p.h_v_l) },
    ).with_he(
        nw.h_l_w,
        HalfEdge { vertex: Some(v_l), face: nw.f_l, twin: Some(nw.h_w_l), next: Some(nw.h_w_v) },
    ).with_he(
        nw.h_w_l,
        HalfEdge { vertex: Some(nw.w), face: p.f_l_old, twin: Some(nw.h_l_w), next: Some(p.next_v_l) },
    ).with_he(
        nw.h_r_w,
        HalfEdge { vertex: Some(v_r), face: p.f_r_old, twin: Some(nw.h_w_r), next: Some(r_w_next) },
    ).with_he(
        nw.h_w_r,
        HalfEdge { vertex: Some(nw.w), face: nw.f_r, twin: Some(nw.h_r_w), next: Some(p.h_r_v) },
    ).put_face(nw.f_l, crate::mesh::Face { halfedge: Some(nw.h_l_w) }).put_face(
        nw.f_r,
        crate::mesh::Face { halfedge: Some(nw.h_w_r) },
    );
    let m2 = m1.set_next(p.h_v_l, Some(nw.h_l_w)).set_face(p.h_v_l, nw.f_l).set_next(
        p.h_r_v,
        Some(nw.h_v_w),
    ).set_face(p.h_r_v, nw.f_r);
    let m3 = match p.f_l_old {
        Some(f) => m2.set_face_he(f, Some(nw.h_w_l)),
        None => m2,
    };
    let m4 = match p.f_r_old {
        Some(f) => m3.set_face_he(f, Some(nw.h_r_w)),
        None => m3,
    };
    let m5 = m4.set_vertex_he(v, Some(nw.h_v_w)).set_next(p.prev_r_v, Some(nw.h_r_w));
    let m6 = if p.in_hs.len() > 0 {
        m5.set_next(p.in_hs.last(), Some(nw.h_w_l))
    } else {
        m5
    };
    assert forall|j: int| 0 <= j < p.out_hs.len() implies m6.hes.contains_key(#[trigger] p.out_hs[j]) by {
        assert(m.hes.contains_key(p.out_hs[j]));
    }
    m6.lemma_set_srcs(p.out_hs, Some(nw.w));
    assert(n == m6.set_srcs(p.out_hs, Some(nw.w)));
    assert forall|z: HalfEdgeId| #[trigger] n.hes.contains_key(z) implies {
        &&& n.twin_of(z) is Ok
        &&& n.twin_of(z)->Ok_0 != z
        &&& n.twin_of(n.twin_of(z)->Ok_0) == Ok::<HalfEdgeId, MeshError>(z)
    } by {
        if z != nw.h_v_w && z != nw.h_w_v && z != nw.h_l_w && z != nw.h_w_l && z != nw.h_r_w && z != nw.h_w_r {
            assert(m.hes.contains_key(z));
            assert(n.hes[z].twin == m.hes[z].twin);
            let y = m.twin_of(z)->Ok_0;
            assert(n.hes[y].twin == m.hes[y].twin);
        }
    }
}

/// The fan steps of `dissolve_vertex` change no twin and no half-edge's
/// liveness, and each records the fan's half-edge with its twin.
pub proof fn lemma_dissolve_fan_twins<P>(m: MeshModel<P>, out: Seq<HalfEdgeId>, bound: nat, i: nat)
    requires
        i <= out.len(),
        dissolve_fan(m, out, bound, i) is Ok,
    ensures
        ({
            let (mi, del) = dissolve_fan(m, out, bound, i)->Ok_0;
            &&& mi.hes.dom() == m.hes.dom()
            &&& forall|x: HalfEdgeId| #[trigger] mi.hes.contains_key(x) ==> mi.hes[x].twin == m.hes[x].twin
            &&& forall|x: HalfEdgeId| #[trigger] mi.hes.contains_key(x) ==> mi.hes[x].vertex == m.hes[x].vertex
            &&& mi.verts.dom() == m.verts.dom()
            &&& forall|u: VertexId| #[trigger] mi.verts.contains_key(u) ==> mi.verts[u].position == m.verts[u].position
            &&& del.len() == i
            &&& forall|k: int|
                0 <= k < i ==> (#[trigger] del[k]).1 == out[k] && m.twin_of(out[k]) == Ok::<HalfEdgeId, MeshError>(
                    del[k].0,
                )
        }),
    decreases i,
{
    if i > 0 {
        lemma_dissolve_fan_twins(m, out, bound, (i - 1) as nat);
        let (mi, del) = dissolve_fan(m, out, bound, (i - 1) as nat)->Ok_0;
        let h = out[i - 1];
        let tw = mi.twin_of(h)->Ok_0;
        mi.lemma_cycle_live(tw, false, bound);
        let (mn, deln) = dissolve_fan(m, out, bound, i)->Ok_0;
        assert(mn.hes.dom() =~= m.hes.dom());
        assert(mn.verts.dom() =~= m.verts.dom());
        assert forall|k: int| 0 <= k < i implies (#[trigger] deln[k]).1 == out[k] && m.twin_of(out[k]) == Ok::<
            HalfEdgeId,
            MeshError,
        >(deln[k].0) by {
            if k < i - 1 {
                assert(deln[k] == del[k]);
            }
        }
    }
}

/// Removing the recorded pairs keeps every other half-edge as it was.
pub proof fn lemma_remove_all_hes<P>(m: MeshModel<P>, del: Seq<(HalfEdgeId, HalfEdgeId, FaceId)>)
    ensures
        forall|x: HalfEdgeId|
            #[trigger] remove_all(m, del).hes.contains_key(x) <==> (m.hes.contains_key(x) && forall|k: int|
                0 <= k < del.len() ==> (#[trigger] del[k]).0 != x && del[k].1 != x),
        forall|x: HalfEdgeId| #[trigger] remove_all(m, del).hes.contains_key(x) ==> remove_all(m, del).hes[x] == m.hes[x],
    decreases del.len(),
{
    if del.len() > 0 {
        let t = del.drop_last();
        lemma_remove_all_hes(m, t);
        assert forall|x: HalfEdgeId| #[trigger] remove_all(m, del).hes.contains_key(x) <==> (m.hes.contains_key(x)
            && forall|k: int| 0 <= k < del.len() ==> (#[trigger] del[k]).0 != x && del[k].1 != x) by {
            if m.hes.contains_key(x) && (forall|k: int| 0 <= k < t.len() ==> (#[trigger] t[k]).0 != x && t[k].1 != x) {
                assert forall|k: int| 0 <= k < t.len() implies (#[trigger] del[k]).0 != x && del[k].1 != x by {
                    assert(del[k] == t[k]);
                }
            }
            if m.hes.contains_key(x) && (forall|k: int| 0 <= k < del.len() ==> (#[trigger] del[k]).0 != x && del[k].1 != x) {
                assert forall|k: int| 0 <= k < t.len() implies (#[trigger] t[k]).0 != x && t[k].1 != x by {
                    assert(del[k] == t[k]);
                }
            }
            if remove_all(m, t).hes.contains_key(x) && !(forall|k: int| 0 <= k < del.len() ==> (#[trigger] del[k]).0 != x && del[k].1 != x) {
                let k = choose|k: int| 0 <= k < del.len() && !((#[trigger] del[k]).0 != x && del[k].1 != x);
                if k < t.len() {
                    assert(del[k] == t[k]);
                }
            }
        }
        assert forall|x: HalfEdgeId| #[trigger] remove_all(m, del).hes.contains_key(x) implies remove_all(m, del).hes[x]
            == m.hes[x] by {
            assert(remove_all(m, t).hes.contains_key(x));
        }
    }
}

/// `dissolve_vertex` keeps twins paired: it removes each half-edge of the
/// vertex's fan together with its twin, and changes no other twin.
pub proof fn lemma_dissolve_vertex_keeps_twins<P>(m: MeshModel<P>, v: VertexId, bound: nat, g: FaceId)
    requires
        twins_involutive(m),
        dissolve_vertex_model(m, v, bound, g) is Ok,
    ensures
        twins_involutive(dissolve_vertex_model(m, v, bound, g)->Ok_0),
{
    let out = m.outgoing_of(v, bound)->Ok_0;
    let m0 = m.with_face(g, crate::mesh::Face { halfedge: None });
    lemma_dissolve_fan_twins(m0, out, bound, out.len());
    let (mn, del) = dissolve_fan(m0, out, bound, out.len())->Ok_0;
    let first = mn.next_of(out[0])->Ok_0;
    mn.lemma_cycle_live(first, false, bound);
    let outer = mn.cycle(first, false, bound)->Ok_0;
    mn.lemma_set_faces(outer, Some(g));
    let pre = mn.set_faces(outer, Some(g)).set_face_he(g, Some(outer[0])).without_vertex(v);
    lemma_remove_all_hes(pre, del);
    let n = remove_all(pre, del);
    assert(n == dissolve_vertex_model(m, v, bound, g)->Ok_0);
    assert forall|z: HalfEdgeId| #[trigger] n.hes.contains_key(z) implies {
        &&& n.twin_of(z) is Ok
        &&& n.twin_of(z)->Ok_0 != z
        &&& n.twin_of(n.twin_of(z)->Ok_0) == Ok::<HalfEdgeId, MeshError>(z)
    } by {
        assert(pre.hes.contains_key(z));
        assert(m.hes.contains_key(z));
        assert(n.hes[z].twin == m.hes[z].twin);
        let y = m.twin_of(z)->Ok_0;
        assert(m.hes.contains_key(y));
        assert forall|k: int| 0 <= k < del.len() implies (#[trigger] del[k]).0 != y && del[k].1 != y by {
            assert(del[k].1 == out[k]);
            assert(m0.twin_of(out[k]) == Ok::<HalfEdgeId, MeshError>(del[k].0));
            if del[k].1 == y {
                assert(m.twin_of(y) == Ok::<HalfEdgeId, MeshError>(z));
                assert(del[k].0 == z);
            }
            if del[k].0 == y {
                assert(m.twin_of(y) == Ok::<HalfEdgeId, MeshError>(z));
                assert(del[k].1 == z);
            }
        }
        assert(n.hes.contains_key(y));
        assert(n.hes[y].twin == m.hes[y].twin);
    }
}

/// A rewrite that keeps the start vertex and twin of every half-edge it
/// keeps, and adds no vertex and no half-edge, keeps directed pairs unique.
pub proof fn lemma_pairs_frame<P>(m: MeshModel<P>, n: MeshModel<P>)
    requires
        unique_pairs(m),
        forall|z: HalfEdgeId| #[trigger] n.hes.contains_key(z) ==> m.hes.contains_key(z),
        forall|z: HalfEdgeId| #[trigger] n.hes.contains_key(z) ==> n.hes[z].vertex == m.hes[z].vertex,
        forall|z: HalfEdgeId| #[trigger] n.hes.contains_key(z) ==> n.hes[z].twin == m.hes[z].twin,
        forall|x: VertexId| #[trigger] n.verts.contains_key(x) ==> m.verts.contains_key(x),
    ensures
        unique_pairs(n),
{
    assert forall|z: HalfEdgeId| n.hes.contains_key(z) && #[trigger] n.src_dst_of(z) is Ok implies n.src_dst_of(z)
        == m.src_dst_of(z) by {
        let t = n.twin_of(z)->Ok_0;
        assert(m.hes.contains_key(t));
    }
}

/// Every half-edge's start vertex reads.
pub open spec fn starts_read<P>(m: MeshModel<P>) -> bool {
    forall|z: HalfEdgeId| #[trigger] m.hes.contains_key(z) ==> m.vertex_of(z) is Ok
}

/// `divide_edge` keeps directed pairs unique where twins pair up and every
/// start reads: the two
/// halves run to and from the fresh vertex, and every other half-edge keeps
/// its ends.
pub proof fn lemma_divide_edge_keeps_pairs<P>(
    m: MeshModel<P>,
    n: MeshModel<P>,
    h: HalfEdgeId,
    p: EdgeDivide,
    pos: P,
    x: VertexId,
)
    requires
        unique_pairs(m),
        twins_involutive(m),
        divided(m, n, h, p, pos, x),
        m.twin_of(h) == Ok::<HalfEdgeId, MeshError>(p.h_r),
        m.src_dst_of(h) == Ok::<(VertexId, VertexId), MeshError>((p.v, p.w)),
        m.hes.contains_key(p.l_prev),
        starts_read(m),
    ensures
        unique_pairs(n),
{
    let (a, b) = choose|a: HalfEdgeId, b: HalfEdgeId|
        {
            &&& !m.verts.contains_key(x)
            &&& !m.hes.contains_key(a)
            &&& !m.hes.contains_key(b)
            &&& a != b
            &&& n == divide_edge_result(m, h, p, pos, x, a, b)
        };
    assert(p.v != p.w) by {
        assert(m.src_dst_of(p.h_r) == Ok::<(VertexId, VertexId), MeshError>((p.w, p.v)));
    }
    assert(n.src_dst_of(h) == Ok::<(VertexId, VertexId), MeshError>((x, p.w)));
    assert(n.src_dst_of(p.h_r) == Ok::<(VertexId, VertexId), MeshError>((p.w, x)));
    assert(n.src_dst_of(a) == Ok::<(VertexId, VertexId), MeshError>((p.v, x)));
    assert(n.src_dst_of(b) == Ok::<(VertexId, VertexId), MeshError>((x, p.v)));
    assert forall|z: HalfEdgeId|
        n.hes.contains_key(z) && z != h && z != p.h_r && z != a && z != b implies #[trigger] n.src_dst_of(z)
        == m.src_dst_of(z) by {
        assert(m.hes.contains_key(z));
        let t = m.twin_of(z)->Ok_0;
        assert(t != h) by {
            if t == h {
                assert(m.twin_of(h) == Ok::<HalfEdgeId, MeshError>(z));
            }
        }
        assert(t != p.h_r) by {
            if t == p.h_r {
                assert(m.twin_of(p.h_r) == Ok::<HalfEdgeId, MeshError>(z));
            }
        }
        assert(n.hes[z].vertex == m.hes[z].vertex && n.hes[z].twin == m.hes[z].twin);
        assert(m.hes.contains_key(t));
        assert(t != a && t != b);
        assert(n.hes[t].vertex == m.hes[t].vertex);
    }
    assert forall|z: HalfEdgeId|
        n.hes.contains_key(z) && z != h && z != p.h_r && z != a && z != b && #[trigger] n.src_dst_of(z) is Ok implies
        n.src_dst_of(z)->Ok_0.0 != x && n.src_dst_of(z)->Ok_0.1 != x by {
        assert(n.src_dst_of(z) == m.src_dst_of(z));
        assert(m.verts.contains_key(m.src_dst_of(z)->Ok_0.0));
        assert(m.verts.contains_key(m.src_dst_of(z)->Ok_0.1));
    }
    assert forall|c: HalfEdgeId, d: HalfEdgeId|
        n.hes.contains_key(c) && n.hes.contains_key(d) && c != d && n.src_dst_of(c) is Ok && n.src_dst_of(d) is Ok
            implies #[trigger] n.src_dst_of(c) != #[trigger] n.src_dst_of(d) by {
        let cn = c == h || c == p.h_r || c == a || c == b;
        let dn = d == h || d == p.h_r || d == a || d == b;
        if !cn && !dn {
            assert(n.src_dst_of(c) == m.src_dst_of(c));
            assert(n.src_dst_of(d) == m.src_dst_of(d));
            assert(m.hes.contains_key(c) && m.hes.contains_key(d));
        }
    }
}

/// `dissolve_edge` keeps directed pairs unique: the half-edges it keeps
/// keep their start vertices and twins.
pub proof fn lemma_dissolve_edge_keeps_pairs<P>(m: MeshModel<P>, h: HalfEdgeId, bound: nat)
    requires
        unique_pairs(m),
        dissolve_edge_plan(m, h, bound) is Ok,
    ensures
        unique_pairs(dissolve_edge_result(m, h, dissolve_edge_plan(m, h, bound)->Ok_0)),
{
    let p = dissolve_edge_plan(m, h, bound)->Ok_0;
    m.lemma_cycle_live(p.h_r, false, bound);
    m.lemma_cycle(h, false, bound);
    m.lemma_cycle(p.h_r, false, bound);
    let m1 = m.set_next(p.r_prev, Some(p.l_next)).set_next(p.l_prev, Some(p.r_next));
    m1.lemma_set_faces(p.r_loop, Some(p.f_l));
    let n = dissolve_edge_result(m, h, p);
    assert forall|z: HalfEdgeId| #[trigger] n.hes.contains_key(z) implies m.hes.contains_key(z) && n.hes[z].vertex
        == m.hes[z].vertex && n.hes[z].twin == m.hes[z].twin by {}
    lemma_pairs_frame(m, n);
}

/// `dissolve_vertex` keeps directed pairs unique: the half-edges it keeps
/// keep their start vertices and twins.
pub proof fn lemma_dissolve_vertex_keeps_pairs<P>(m: MeshModel<P>, v: VertexId, bound: nat, g: FaceId)
    requires
        unique_pairs(m),
        dissolve_vertex_model(m, v, bound, g) is Ok,
    ensures
        unique_pairs(dissolve_vertex_model(m, v, bound, g)->Ok_0),
{
    let out = m.outgoing_of(v, bound)->Ok_0;
    let m0 = m.with_face(g, crate::mesh::Face { halfedge: None });
    lemma_dissolve_fan_twins(m0, out, bound, out.len());
    let (mn, del) = dissolve_fan(m0, out, bound, out.len())->Ok_0;
    let first = mn.next_of(out[0])->Ok_0;
    mn.lemma_cycle_live(first, false, bound);
    let outer = mn.cycle(first, false, bound)->Ok_0;
    mn.lemma_set_faces(outer, Some(g));
    let pre = mn.set_faces(outer, Some(g)).set_face_he(g, Some(outer[0])).without_vertex(v);
    lemma_remove_all_hes(pre, del);
    crate::edit::lemma_remove_all_verts(pre, del);
    let n = remove_all(pre, del);
    assert(n == dissolve_vertex_model(m, v, bound, g)->Ok_0);
    assert forall|z: HalfEdgeId| #[trigger] n.hes.contains_key(z) implies m.hes.contains_key(z) && n.hes[z].vertex
        == m.hes[z].vertex && n.hes[z].twin == m.hes[z].twin by {
        assert(pre.hes.contains_key(z));
    }
    lemma_pairs_frame(m, n);
}

/// Walks along `next` only read `next` links: where every live half-edge of
/// `m` is live in `n` with the same successor, a walk that succeeds in `m`
/// goes the same way in `n`.
pub proof fn lemma_walk_frame<P>(m: MeshModel<P>, n: MeshModel<P>, s: HalfEdgeId, k: nat)
    requires
        forall|x: HalfEdgeId| #[trigger] m.hes.contains_key(x) ==> n.hes.contains_key(x) && n.hes[x].next == m.hes[x].next,
        m.walk(s, k, false) is Ok,
    ensures
        n.walk(s, k, false) == m.walk(s, k, false),
    decreases k,
{
    if k > 0 {
        lemma_walk_frame(m, n, s, (k - 1) as nat);
        m.lemma_walk_live(s, (k - 1) as nat, false);
    }
}

/// A loop along `next` found in `m` is found the same in `n`, with any
/// bound at least as large, where `n` keeps `m`'s live half-edges and
/// their successors.
pub proof fn lemma_cycle_frame<P>(m: MeshModel<P>, n: MeshModel<P>, s: HalfEdgeId, bound: nat, bound2: nat)
    requires
        forall|x: HalfEdgeId| #[trigger] m.hes.contains_key(x) ==> n.hes.contains_key(x) && n.hes[x].next == m.hes[x].next,
        m.cycle(s, false, bound) is Ok,
        bound <= bound2,
    ensures
        n.cycle(s, false, bound2) == m.cycle(s, false, bound),
{
    lemma_cycle_len_frame(m, n, s, 0, bound, bound2);
    m.lemma_cycle_len(s, false, 0, bound);
    let k = m.cycle_len_from(s, false, 0, bound)->Ok_0;
    assert forall|j: int| 0 <= j < k implies #[trigger] n.walk(s, j as nat, false) == m.walk(s, j as nat, false) by {
        if j > 0 {
            assert(m.walk(s, j as nat, false) is Ok);
        }
        lemma_walk_frame(m, n, s, j as nat);
    }
    assert(n.cycle(s, false, bound2)->Ok_0 =~= m.cycle(s, false, bound)->Ok_0);
}

pub proof fn lemma_cycle_len_frame<P>(m: MeshModel<P>, n: MeshModel<P>, s: HalfEdgeId, i: nat, bound: nat, bound2: nat)
    requires
        forall|x: HalfEdgeId| #[trigger] m.hes.contains_key(x) ==> n.hes.contains_key(x) && n.hes[x].next == m.hes[x].next,
        m.cycle_len_from(s, false, i, bound) is Ok,
        bound <= bound2,
    ensures
        n.cycle_len_from(s, false, i, bound2) == m.cycle_len_from(s, false, i, bound),
    decreases bound - i,
{
    if i < bound {
        lemma_walk_frame(m, n, s, i + 1);
        if m.walk(s, i + 1, false)->Ok_0 != s {
            lemma_cycle_len_frame(m, n, s, i + 1, bound, bound2);
        }
    }
}

/// `duplicate_edge` keeps every face loop closed: the old loops are
/// untouched, and the new face's loop is its two new half-edges.
pub proof fn lemma_duplicate_edge_keeps_faces_closed<P>(
    m: MeshModel<P>,
    n: MeshModel<P>,
    h: HalfEdgeId,
    v: VertexId,
    w: VertexId,
    a: HalfEdgeId,
    bound: nat,
    bound2: nat,
)
    requires
        faces_closed(m, bound),
        duplicated(m, n, h, v, w, a),
        m.hes.contains_key(h),
        m.twin_of(h) is Ok,
        bound <= bound2,
        2 <= bound2,
    ensures
        faces_closed(n, bound2),
{
    let (b, f) = choose|b: HalfEdgeId, f: FaceId|
        {
            &&& !m.hes.contains_key(a)
            &&& !m.hes.contains_key(b)
            &&& a != b
            &&& !m.faces.contains_key(f)
            &&& n == duplicate_edge_result(m, h, m.twin_of(h)->Ok_0, v, w, a, b, f)
        };
    assert forall|x: HalfEdgeId| #[trigger] m.hes.contains_key(x) implies n.hes.contains_key(x) && n.hes[x].next
        == m.hes[x].next && n.hes[x].face == m.hes[x].face by {}
    assert forall|g: FaceId| #[trigger] n.faces.contains_key(g) implies {
        &&& n.face_loop_of(g, bound2) is Ok
        &&& forall|j: int|
            0 <= j < n.face_loop_of(g, bound2)->Ok_0.len() ==> n.hes[#[trigger] n.face_loop_of(
                g,
                bound2,
            )->Ok_0[j]].face == Some(g)
    } by {
        if g == f {
            assert(m.hes.contains_key(m.twin_of(h)->Ok_0));
            assert(n.hes[a].next == Some(b));
            assert(n.hes[b].next == Some(a));
            assert(n.face_halfedge_of(f) == Ok::<HalfEdgeId, MeshError>(a));
            assert(n.walk(a, 0, false) == Ok::<HalfEdgeId, MeshError>(a));
            assert(n.walk(a, 1, false) == Ok::<HalfEdgeId, MeshError>(b));
            assert(n.walk(a, 2, false) == Ok::<HalfEdgeId, MeshError>(a));
            assert(n.cycle_len_from(a, false, 1, bound2) == Ok::<nat, MeshError>(2));
            assert(n.cycle_len_from(a, false, 0, bound2) == Ok::<nat, MeshError>(2));
            let l = n.face_loop_of(f, bound2)->Ok_0;
            assert(l.len() == 2);
            assert(l[0] == a);
            assert(l[1] == b);
        } else {
            assert(m.faces.contains_key(g));
            let s0 = m.face_halfedge_of(g)->Ok_0;
            assert(n.face_halfedge_of(g) == m.face_halfedge_of(g));
            lemma_cycle_frame(m, n, s0, bound, bound2);
            m.lemma_cycle_live(s0, false, bound);
            let l = m.face_loop_of(g, bound)->Ok_0;
            assert forall|j: int| 0 <= j < l.len() implies n.hes[#[trigger] l[j]].face == Some(g) by {
                assert(m.hes[l[j]].face == Some(g));
            }
        }
    }
}

impl<P: Copy> HalfEdgeMesh<P> {
    /// Whether every half-edge's twin is a live half-edge other than itself
    /// whose twin it is.
    pub fn check_twins(&self) -> (r: bool)
        ensures
            r == twins_involutive(self@),
    {
        let hs = self.iter_halfedges();
        let mut i: usize = 0;
        while i < hs.len()
            invariant
                i <= hs@.len(),
                forall|j: int| 0 <= j < hs@.len() ==> self@.hes.contains_key(#[trigger] hs@[j]),
                forall|j: int|
                    0 <= j < i ==> {
                        let h = #[trigger] hs@[j];
                        &&& self@.twin_of(h) is Ok
                        &&& self@.twin_of(h)->Ok_0 != h
                        &&& self@.twin_of(self@.twin_of(h)->Ok_0) == Ok::<HalfEdgeId, MeshError>(h)
                    },
            decreases hs@.len() - i,
        {
            let h = hs[i];
            let ok = match self.twin(h) {
                Ok(t) => t != h && match self.twin(t) {
                    Ok(b) => b == h,
                    Err(_) => false,
                },
                Err(_) => false,
            };
            if !ok {
                return false;
            }
            i += 1;
        }
        proof {
            assert forall|h: HalfEdgeId| #[trigger] self@.hes.contains_key(h) implies {
                &&& self@.twin_of(h) is Ok
                &&& self@.twin_of(h)->Ok_0 != h
                &&& self@.twin_of(self@.twin_of(h)->Ok_0) == Ok::<HalfEdgeId, MeshError>(h)
            } by {
                assert(hs@.contains(h));
                let j = choose|j: int| 0 <= j < hs@.len() && hs@[j] == h;
                assert(hs@[j] == h);
            }
        }
        true
    }

    /// Whether no two half-edges run between the same ordered pair of
    /// vertices.
    pub fn check_unique_pairs(&self) -> (r: bool)
        ensures
            r == unique_pairs(self@),
    {
        let hs = self.iter_halfedges();
        let n = hs.len();
        let mut i: usize = 0;
        while i < n
            invariant
                n == hs@.len(),
                i <= n,
                forall|j: int| 0 <= j < n ==> self@.hes.contains_key(#[trigger] hs@[j]),
                forall|a: int, b: int| 0 <= a < b < n ==> hs@[a].key.idx < hs@[b].key.idx,
                forall|a: int, b: int|
                    0 <= a < i && 0 <= b < n && a != b && self@.src_dst_of(hs@[a]) is Ok && self@.src_dst_of(hs@[b]) is Ok
                        ==> #[trigger] self@.src_dst_of(hs@[a]) != #[trigger] self@.src_dst_of(hs@[b]),
            decreases n - i,
        {
            match self.src_dst_pair(hs[i]) {
                Ok(pi) => {
                    let mut j: usize = 0;
                    while j < n
                        invariant
                            n == hs@.len(),
                            i < n,
                            j <= n,
                            self@.src_dst_of(hs@[i as int]) == Ok::<(VertexId, VertexId), MeshError>(pi),
                            forall|a: int, b: int| 0 <= a < b < n ==> hs@[a].key.idx < hs@[b].key.idx,
                            forall|q: int| 0 <= q < n ==> self@.hes.contains_key(#[trigger] hs@[q]),
                            forall|a: int, b: int|
                                0 <= a < i && 0 <= b < n && a != b && self@.src_dst_of(hs@[a]) is Ok && self@.src_dst_of(hs@[b]) is Ok
                                    ==> #[trigger] self@.src_dst_of(hs@[a]) != #[trigger] self@.src_dst_of(hs@[b]),
                            forall|b: int|
                                0 <= b < j && b != i && self@.src_dst_of(hs@[b]) is Ok ==> #[trigger] self@.src_dst_of(
                                    hs@[b],
                                ) != Ok::<(VertexId, VertexId), MeshError>(pi),
                        decreases n - j,
                    {
                        if j != i {
                            match self.src_dst_pair(hs[j]) {
                                Ok(pj) => {
                                    if pj.0 == pi.0 && pj.1 == pi.1 {
                                        proof {
                                            assert(hs@[i as int] != hs@[j as int]) by {
                                                if i < j {
                                                    assert(hs@[i as int].key.idx < hs@[j as int].key.idx);
                                                } else {
                                                    assert(hs@[j as int].key.idx < hs@[i as int].key.idx);
                                                }
                                            }
                                            assert(pj == pi);
                                        }
                                        return false;
                                    }
                                },
                                Err(_) => {},
                            }
                        }
                        j += 1;
                    }
                },
                Err(_) => {},
            }
            i += 1;
        }
        proof {
            assert forall|a: HalfEdgeId, b: HalfEdgeId|
                self@.hes.contains_key(a) && self@.hes.contains_key(b) && a != b && self@.src_dst_of(a) is Ok
                    && self@.src_dst_of(b) is Ok implies #[trigger] self@.src_dst_of(a) != #[trigger] self@.src_dst_of(b) by {
                assert(hs@.contains(a));
                assert(hs@.contains(b));
                let x = choose|x: int| 0 <= x < hs@.len() && hs@[x] == a;
                let y = choose|y: int| 0 <= y < hs@.len() && hs@[y] == b;
                assert(hs@[x] == a && hs@[y] == b);
            }
        }
        true
    }

    /// Whether `hs` all have face `f`.
    fn all_on_face(&self, hs: &Vec<HalfEdgeId>, f: FaceId) -> (r: bool)
        requires
            forall|j: int| 0 <= j < hs@.len() ==> self@.hes.contains_key(#[trigger] hs@[j]),
        ensures
            r == (forall|j: int| 0 <= j < hs@.len() ==> self@.hes[#[trigger] hs@[j]].face == Some(f)),
    {
        let mut i: usize = 0;
        while i < hs.len()
            invariant
                i <= hs@.len(),
                forall|j: int| 0 <= j < hs@.len() ==> self@.hes.contains_key(#[trigger] hs@[j]),
                forall|j: int| 0 <= j < i ==> self@.hes[#[trigger] hs@[j]].face == Some(f),
            decreases hs@.len() - i,
        {
            let x = self.halfedge(hs[i]).unwrap();
            if x.face != Some(f) {
                return false;
            }
            i += 1;
        }
        true
    }

    /// Whether `hs` all start at `v`.
    fn all_from(&self, hs: &Vec<HalfEdgeId>, v: VertexId) -> (r: bool)
        requires
            forall|j: int| 0 <= j < hs@.len() ==> self@.hes.contains_key(#[trigger] hs@[j]),
        ensures
            r == (forall|j: int| 0 <= j < hs@.len() ==> self@.hes[#[trigger] hs@[j]].vertex == Some(v)),
    {
        let mut i: usize = 0;
        while i < hs.len()
            invariant
                i <= hs@.len(),
                forall|j: int| 0 <= j < hs@.len() ==> self@.hes.contains_key(#[trigger] hs@[j]),
                forall|j: int| 0 <= j < i ==> self@.hes[#[trigger] hs@[j]].vertex == Some(v),
            decreases hs@.len() - i,
        {
            let x = self.halfedge(hs[i]).unwrap();
            if x.vertex != Some(v) {
                return false;
            }
            i += 1;
        }
        true
    }

    /// Whether every face's loop closes through half-edges of that face.
    pub fn check_faces(&self) -> (r: bool)
        ensures
            r == faces_closed(self@, self.walk_bound()),
    {
        let fs = self.iter_faces();
        let ghost bound = self.walk_bound();
        let mut i: usize = 0;
        while i < fs.len()
            invariant
                i <= fs@.len(),
                bound == self.walk_bound(),
                forall|j: int| 0 <= j < fs@.len() ==> self@.faces.contains_key(#[trigger] fs@[j]),
                forall|j: int|
                    0 <= j < i ==> {
                        let f = #[trigger] fs@[j];
                        &&& self@.face_loop_of(f, bound) is Ok
                        &&& forall|q: int|
                            0 <= q < self@.face_loop_of(f, bound)->Ok_0.len() ==> self@.hes[#[trigger] self@.face_loop_of(
                                f,
                                bound,
                            )->Ok_0[q]].face == Some(f)
                    },
            decreases fs@.len() - i,
        {
            let f = fs[i];
            match self.face_halfedges(f) {
                Ok(hs) => {
                    proof {
                        self@.lemma_cycle_live(self@.face_halfedge_of(f)->Ok_0, false, bound);
                    }
                    if !self.all_on_face(&hs, f) {
                        return false;
                    }
                },
                Err(_) => {
                    return false;
                },
            }
            i += 1;
        }
        proof {
            assert forall|f: FaceId| #[trigger] self@.faces.contains_key(f) implies {
                &&& self@.face_loop_of(f, bound) is Ok
                &&& forall|q: int|
                    0 <= q < self@.face_loop_of(f, bound)->Ok_0.len() ==> self@.hes[#[trigger] self@.face_loop_of(
                        f,
                        bound,
                    )->Ok_0[q]].face == Some(f)
            } by {
                assert(fs@.contains(f));
                let j = choose|j: int| 0 <= j < fs@.len() && fs@[j] == f;
                assert(fs@[j] == f);
            }
        }
        true
    }

    /// Whether every vertex's fan closes through half-edges that start at it.
    pub fn check_fans(&self) -> (r: bool)
        ensures
            r == fans_closed(self@, self.walk_bound()),
    {
        let vs = self.iter_vertices();
        let ghost bound = self.walk_bound();
        let mut i: usize = 0;
        while i < vs.len()
            invariant
                i <= vs@.len(),
                bound == self.walk_bound(),
                forall|j: int| 0 <= j < vs@.len() ==> self@.verts.contains_key(#[trigger] vs@[j]),
                forall|j: int|
                    0 <= j < i && self@.verts[vs@[j]].halfedge is Some ==> {
                        let v = #[trigger] vs@[j];
                        &&& self@.outgoing_of(v, bound) is Ok
                        &&& forall|q: int|
                            0 <= q < self@.outgoing_of(v, bound)->Ok_0.len() ==> self@.hes[#[trigger] self@.outgoing_of(
                                v,
                                bound,
                            )->Ok_0[q]].vertex == Some(v)
                    },
            decreases vs@.len() - i,
        {
            let v = vs[i];
            if self.vertex(v).unwrap().halfedge.is_some() {
                match self.outgoing_halfedges(v) {
                    Ok(hs) => {
                        proof {
                            self@.lemma_cycle_live(self@.vertex_halfedge_of(v)->Ok_0, true, bound);
                        }
                        if !self.all_from(&hs, v) {
                            return false;
                        }
                    },
                    Err(_) => {
                        return false;
                    },
                }
            }
            i += 1;
        }
        proof {
            assert forall|v: VertexId| #[trigger] self@.verts.contains_key(v) && self@.verts[v].halfedge is Some implies {
                &&& self@.outgoing_of(v, bound) is Ok
                &&& forall|q: int|
                    0 <= q < self@.outgoing_of(v, bound)->Ok_0.len() ==> self@.hes[#[trigger] self@.outgoing_of(
                        v,
                        bound,
                    )->Ok_0[q]].vertex == Some(v)
            } by {
                assert(vs@.contains(v));
                let j = choose|j: int| 0 <= j < vs@.len() && vs@[j] == v;
                assert(vs@[j] == v);
            }
        }
        true
    }

    /// Whether the mesh passes four checks: twins pair up, no directed pair
    /// repeats, every face loop closes through that face's half-edges, and
    /// every vertex fan closes through half-edges leaving that vertex. It
    /// does not check that a loop passes through each of its face's
    /// half-edges, that a fan passes through each half-edge leaving its
    /// vertex, that loops agree with twins at vertices, or how boundary
    /// loops run.
    pub fn check_invariants(&self) -> (r: bool)
        ensures
            r == (twins_involutive(self@) && unique_pairs(self@) && faces_closed(self@, self.walk_bound())
                && fans_closed(self@, self.walk_bound())),
    {
        self.check_twins() && self.check_unique_pairs() && self.check_faces() && self.check_fans()
    }
}

} // verus!
