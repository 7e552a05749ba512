//! Operations built from the edit primitives.
use vstd::prelude::*;
use crate::arena::Key;
use crate::edit::{
    collapse_edge, cut_done, cut_face, cut_face_plan, dissolve_edge, dissolve_failed, dissolve_vertex, divide_edge,
    dissolve_vertex_model,
    divide_edge_plan, divided, duplicate_edge, split_done, split_vertex, split_vertex_plan, dissolve_edge_plan,
    dissolve_edge_result,
};
use crate::construct::{add_face, face_added, ring_succ, PairMap};
use crate::invariants::{
    lemma_collapse_edge_keeps_twins, lemma_cut_face_keeps_twins, lemma_dissolve_vertex_keeps_twins,
    lemma_divide_edge_keeps_twins, lemma_duplicate_edge_keeps_twins, twins_involutive,
};
use crate::mesh::{FaceId, HalfEdgeId, HalfEdgeMesh, MeshError, MeshModel, VertexId};
use crate::small::{face_items, vertex_items, FaceList, VertexList};

verus! {

/// The placement relation of a closure: `r` may be placed from `a` and `b`.
pub open spec fn placed_by<P, F: Fn(P, P) -> P>(place: F) -> spec_fn(P, P, P) -> bool {
    |a: P, b: P, r: P| place.ensures((a, b), r)
}

/// Dividing `h` of `m` (walks bounded by `b`) made `n` and the vertex `x`,
/// placed as `placed` allows from the positions of `h`'s ends.
pub open spec fn divide_step<P>(
    m: MeshModel<P>,
    b: nat,
    h: HalfEdgeId,
    placed: spec_fn(P, P, P) -> bool,
    n: MeshModel<P>,
    x: VertexId,
) -> bool {
    &&& m.src_dst_of(h) is Ok
    &&& divide_edge_plan(m, h, b) is Ok
    &&& exists|pos: P|
        #![trigger divided(m, n, h, divide_edge_plan(m, h, b)->Ok_0, pos, x)]
        placed(m.verts[m.src_dst_of(h)->Ok_0.0].position, m.verts[m.src_dst_of(h)->Ok_0.1].position, pos)
            && divided(m, n, h, divide_edge_plan(m, h, b)->Ok_0, pos, x)
}

/// Cutting the face between `a` and `c` of `m` made `n`.
pub open spec fn cut_step<P>(m: MeshModel<P>, b: nat, a: VertexId, c: VertexId, n: MeshModel<P>) -> bool {
    &&& cut_face_plan(m, a, c, b) is Ok
    &&& exists|e: HalfEdgeId| #[trigger] cut_done(m, n, a, c, cut_face_plan(m, a, c, b)->Ok_0, e)
}

/// The ring vertex after index `j` of a ring of `d` vertices.
pub open spec fn ring_next(xs: Seq<VertexId>, j: int, d: int) -> VertexId {
    if j + 1 < d {
        xs[j + 1]
    } else {
        xs[0]
    }
}

/// The states `ms` (with walk bounds `bs`) are those that `chamfer_vertex`
/// passes through in its first `k` steps from `ms[0]`: one division of each
/// edge of `outs` in turn, making the vertices `xs`, then one cut between
/// each pair of consecutive new vertices.
pub open spec fn chamfer_reached<P>(
    outs: Seq<HalfEdgeId>,
    placed: spec_fn(P, P, P) -> bool,
    ms: Seq<MeshModel<P>>,
    bs: Seq<nat>,
    xs: Seq<VertexId>,
    k: int,
) -> bool {
    let d = outs.len() as int;
    &&& 0 <= k <= 2 * d
    &&& ms.len() == k + 1
    &&& bs.len() == k + 1
    &&& xs.len() == if k < d { k } else { d }
    &&& forall|i: int| 0 <= i < k ==> bs[i] <= #[trigger] bs[i + 1] <= bs[i] + 2
    &&& forall|i: int|
        0 <= i < k && i < d ==> #[trigger] divide_step(ms[i], bs[i], outs[i], placed, ms[i + 1], xs[i])
    &&& forall|i: int|
        d <= i < k ==> #[trigger] cut_step(ms[i], bs[i], xs[i - d], ring_next(xs, i - d, d), ms[i + 1])
}

/// The step after `k` steps of `chamfer_vertex` fails with `e` at state
/// `m` (walks bounded by `b`): a division's reads, a cut, or the final
/// dissolve.
pub open spec fn chamfer_step_fails<P>(
    outs: Seq<HalfEdgeId>,
    v: VertexId,
    xs: Seq<VertexId>,
    k: int,
    m: MeshModel<P>,
    b: nat,
    e: MeshError,
) -> bool {
    let d = outs.len() as int;
    if k < d {
        m.src_dst_of(outs[k]) == Err::<(VertexId, VertexId), MeshError>(e) || (m.src_dst_of(outs[k]) is Ok
            && divide_edge_plan(m, outs[k], b) == Err::<crate::edit::EdgeDivide, MeshError>(e))
    } else if k < 2 * d {
        cut_face_plan(m, xs[k - d], ring_next(xs, k - d, d), b) == Err::<crate::edit::FaceCut, MeshError>(e)
    } else {
        match m.outgoing_of(v, b) {
            Err(MeshError::MissingHalfedge) => e == MeshError::IsolatedVertex,
            Err(e2) => e == e2,
            Ok(_) => dissolve_failed(m, v, b, e),
        }
    }
}

/// `chamfer_vertex` of `v` on `m` fails with `e` at one of its steps, after
/// the steps before it succeeded.
pub open spec fn chamfer_failed<P>(
    m: MeshModel<P>,
    b: nat,
    v: VertexId,
    outs: Seq<HalfEdgeId>,
    placed: spec_fn(P, P, P) -> bool,
    e: MeshError,
) -> bool {
    exists|ms: Seq<MeshModel<P>>, bs: Seq<nat>, xs: Seq<VertexId>, k: int|
        #![trigger chamfer_reached(outs, placed, ms, bs, xs, k)]
        ms.len() > 0 && ms[0] == m && bs[0] == b && chamfer_reached(outs, placed, ms, bs, xs, k) && chamfer_step_fails(
            outs,
            v,
            xs,
            k,
            ms[k],
            bs[k],
            e,
        )
}

/// `chamfer_vertex` of `v` on `m` made `n`, the new vertices `xs` and the
/// face `g`: the divisions and cuts passed through states that end in one
/// where dissolving `v` (making the fresh face `g`) gives `n`.
pub open spec fn chamfer_done<P>(
    m: MeshModel<P>,
    b: nat,
    v: VertexId,
    outs: Seq<HalfEdgeId>,
    placed: spec_fn(P, P, P) -> bool,
    xs: Seq<VertexId>,
    g: FaceId,
    n: MeshModel<P>,
) -> bool {
    exists|ms: Seq<MeshModel<P>>, bs: Seq<nat>|
        #![trigger chamfer_reached(outs, placed, ms, bs, xs, 2 * (outs.len() as int))]
        ms[0] == m && bs[0] == b && chamfer_reached(outs, placed, ms, bs, xs, 2 * (outs.len() as int)) && !ms[2 * (outs.len() as int)].faces.contains_key(g) && dissolve_vertex_model(ms[2 * (outs.len() as int)], v, bs[2 * (outs.len() as int)], g)
            == Ok::<MeshModel<P>, MeshError>(n)
}

/// A division step keeps twins paired.
pub proof fn lemma_divide_step_twins<P>(
    m: MeshModel<P>,
    b: nat,
    h: HalfEdgeId,
    placed: spec_fn(P, P, P) -> bool,
    n: MeshModel<P>,
    x: VertexId,
)
    requires
        twins_involutive(m),
        divide_step(m, b, h, placed, n, x),
    ensures
        twins_involutive(n),
{
    let p = divide_edge_plan(m, h, b)->Ok_0;
    let pos = choose|pos: P|
        #![trigger divided(m, n, h, p, pos, x)]
        placed(m.verts[m.src_dst_of(h)->Ok_0.0].position, m.verts[m.src_dst_of(h)->Ok_0.1].position, pos) && divided(
            m,
            n,
            h,
            p,
            pos,
            x,
        );
    m.lemma_cycle_live(h, false, b);
    lemma_divide_edge_keeps_twins(m, n, h, p, pos, x);
}

/// The first `k` steps of a chamfer keep twins paired.
pub proof fn lemma_chamfer_reached_twins<P>(
    outs: Seq<HalfEdgeId>,
    placed: spec_fn(P, P, P) -> bool,
    ms: Seq<MeshModel<P>>,
    bs: Seq<nat>,
    xs: Seq<VertexId>,
    k: int,
)
    requires
        chamfer_reached(outs, placed, ms, bs, xs, k),
        twins_involutive(ms[0]),
    ensures
        twins_involutive(ms[k]),
    decreases k,
{
    if k > 0 {
        let d = outs.len() as int;
        lemma_chamfer_reached_twins(outs, placed, ms.take(k), bs.take(k), if k - 1 < d { xs.take(k - 1) } else { xs }, k - 1);
        let i = k - 1;
        assert(ms.take(k)[i] == ms[i]);
        if i < d {
            assert(divide_step(ms[i], bs[i], outs[i], placed, ms[i + 1], xs[i]));
            lemma_divide_step_twins(ms[i], bs[i], outs[i], placed, ms[i + 1], xs[i]);
        } else {
            assert(cut_step(ms[i], bs[i], xs[i - d], ring_next(xs, i - d, d), ms[i + 1]));
            let a = xs[i - d];
            let c = ring_next(xs, i - d, d);
            let e = choose|e: HalfEdgeId| #[trigger] cut_done(ms[i], ms[i + 1], a, c, cut_face_plan(ms[i], a, c, bs[i])->Ok_0, e);
            lemma_cut_face_keeps_twins(ms[i], ms[i + 1], a, c, bs[i], e);
        }
    }
}

/// A chamfer keeps twins paired.
pub proof fn lemma_chamfer_twins<P>(
    m: MeshModel<P>,
    b: nat,
    v: VertexId,
    outs: Seq<HalfEdgeId>,
    placed: spec_fn(P, P, P) -> bool,
    xs: Seq<VertexId>,
    g: FaceId,
    n: MeshModel<P>,
)
    requires
        twins_involutive(m),
        chamfer_done(m, b, v, outs, placed, xs, g, n),
    ensures
        twins_involutive(n),
{
    let k = 2 * (outs.len() as int);
    let (ms, bs) = choose|ms: Seq<MeshModel<P>>, bs: Seq<nat>|
        ms[0] == m && bs[0] == b && chamfer_reached(outs, placed, ms, bs, xs, k) && !ms[k].faces.contains_key(g)
            && dissolve_vertex_model(ms[k], v, bs[k], g) == Ok::<MeshModel<P>, MeshError>(n);
    lemma_chamfer_reached_twins(outs, placed, ms, bs, xs, k);
    lemma_dissolve_vertex_keeps_twins(ms[k], v, bs[k], g);
}

/// Capacities grown by a chamfer of a vertex with `d` edges: at most `d`
/// vertex slots, `4 * d` half-edge slots and `d + 1` face slots.
pub open spec fn caps_grown(c: (nat, nat, nat), c2: (nat, nat, nat), d: nat) -> bool {
    &&& c.0 <= c2.0 <= c.0 + d
    &&& c.1 <= c2.1 <= c.1 + 4 * d
    &&& c.2 <= c2.2 <= c.2 + d + 1
}

/// A chamfer under one placement relation is one under any weaker one.
pub proof fn lemma_chamfer_weaken<P>(
    m: MeshModel<P>,
    b: nat,
    v: VertexId,
    outs: Seq<HalfEdgeId>,
    r1: spec_fn(P, P, P) -> bool,
    r2: spec_fn(P, P, P) -> bool,
    xs: Seq<VertexId>,
    g: FaceId,
    n: MeshModel<P>,
    e: MeshError,
)
    requires
        forall|a: P, c: P, q: P| #[trigger] r1(a, c, q) ==> r2(a, c, q),
    ensures
        chamfer_done(m, b, v, outs, r1, xs, g, n) ==> chamfer_done(m, b, v, outs, r2, xs, g, n),
        chamfer_failed(m, b, v, outs, r1, e) ==> chamfer_failed(m, b, v, outs, r2, e),
{
    if chamfer_done(m, b, v, outs, r1, xs, g, n) {
        let (ms, bs) = choose|ms: Seq<MeshModel<P>>, bs: Seq<nat>|
            ms[0] == m && bs[0] == b && chamfer_reached(outs, r1, ms, bs, xs, 2 * (outs.len() as int)) && !ms[2
                * (outs.len() as int)].faces.contains_key(g) && dissolve_vertex_model(
                ms[2 * (outs.len() as int)],
                v,
                bs[2 * (outs.len() as int)],
                g,
            ) == Ok::<MeshModel<P>, MeshError>(n);
        lemma_reached_weaken(outs, r1, r2, ms, bs, xs, 2 * (outs.len() as int));
    }
    if chamfer_failed(m, b, v, outs, r1, e) {
        let (ms, bs, xs2, k) = choose|ms: Seq<MeshModel<P>>, bs: Seq<nat>, xs2: Seq<VertexId>, k: int|
            ms.len() > 0 && ms[0] == m && bs[0] == b && chamfer_reached(outs, r1, ms, bs, xs2, k)
                && chamfer_step_fails(outs, v, xs2, k, ms[k], bs[k], e);
        lemma_reached_weaken(outs, r1, r2, ms, bs, xs2, k);
    }
}

pub proof fn lemma_reached_weaken<P>(
    outs: Seq<HalfEdgeId>,
    r1: spec_fn(P, P, P) -> bool,
    r2: spec_fn(P, P, P) -> bool,
    ms: Seq<MeshModel<P>>,
    bs: Seq<nat>,
    xs: Seq<VertexId>,
    k: int,
)
    requires
        forall|a: P, c: P, q: P| #[trigger] r1(a, c, q) ==> r2(a, c, q),
        chamfer_reached(outs, r1, ms, bs, xs, k),
    ensures
        chamfer_reached(outs, r2, ms, bs, xs, k),
{
    assert forall|i: int| 0 <= i < k && i < outs.len() implies #[trigger] divide_step(
        ms[i],
        bs[i],
        outs[i],
        r2,
        ms[i + 1],
        xs[i],
    ) by {
        assert(divide_step(ms[i], bs[i], outs[i], r1, ms[i + 1], xs[i]));
        let m = ms[i];
        let h = outs[i];
        let pos = choose|pos: P|
            #![trigger divided(m, ms[i + 1], h, divide_edge_plan(m, h, bs[i])->Ok_0, pos, xs[i])]
            r1(m.verts[m.src_dst_of(h)->Ok_0.0].position, m.verts[m.src_dst_of(h)->Ok_0.1].position, pos) && divided(
                m,
                ms[i + 1],
                h,
                divide_edge_plan(m, h, bs[i])->Ok_0,
                pos,
                xs[i],
            );
        assert(divided(m, ms[i + 1], h, divide_edge_plan(m, h, bs[i])->Ok_0, pos, xs[i]));
    }
}

/// The placement that keeps a new vertex where the edge starts.
pub open spec fn keeps_start<P>() -> spec_fn(P, P, P) -> bool {
    |a: P, c: P, r: P| r == a
}

/// Replaces `v` by a polygon: each edge leaving `v` is divided at a new
/// vertex placed by `place(start, end)` from the edge's end positions,
/// consecutive new vertices are joined across their face, and `v` is
/// dissolved into the polygon's face. The new vertices come in the order of
/// `v`'s outgoing half-edges.
pub fn chamfer_vertex<P: Copy, F: Fn(P, P) -> P>(mesh: &mut HalfEdgeMesh<P>, v: VertexId, place: F) -> (r:
    Result<(FaceId, VertexList), MeshError>)
    requires
        old(mesh).wf(),
        forall|a: P, b: P| place.requires((a, b)),
    ensures
        final(mesh).wf(),
        old(mesh)@.outgoing_of(v, old(mesh).walk_bound()) is Err ==> r is Err && r->Err_0 == old(
            mesh,
        )@.outgoing_of(v, old(mesh).walk_bound())->Err_0 && final(mesh)@ == old(mesh)@,
        r is Err && old(mesh)@.outgoing_of(v, old(mesh).walk_bound()) is Ok && old(mesh).has_room(
            (4 * old(mesh)@.outgoing_of(v, old(mesh).walk_bound())->Ok_0.len() + 4) as nat,
        ) ==> chamfer_failed(
            old(mesh)@,
            old(mesh).walk_bound(),
            v,
            old(mesh)@.outgoing_of(v, old(mesh).walk_bound())->Ok_0,
            placed_by(place),
            r->Err_0,
        ),
        twins_involutive(old(mesh)@) && r is Ok ==> twins_involutive(final(mesh)@),
        r is Ok ==> caps_grown(
            old(mesh).caps(),
            final(mesh).caps(),
            old(mesh)@.outgoing_of(v, old(mesh).walk_bound())->Ok_0.len(),
        ),
        r is Ok ==> {
            let vs = vertex_items(r->Ok_0.1);
            &&& chamfer_done(
                old(mesh)@,
                old(mesh).walk_bound(),
                v,
                old(mesh)@.outgoing_of(v, old(mesh).walk_bound())->Ok_0,
                placed_by(place),
                vs,
                r->Ok_0.0,
                final(mesh)@,
            )
            &&& old(mesh)@.outgoing_of(v, old(mesh).walk_bound()) is Ok
            &&& vs.len() == old(mesh)@.outgoing_of(v, old(mesh).walk_bound())->Ok_0.len()
            &&& forall|i: int| 0 <= i < vs.len() ==> !old(mesh)@.verts.contains_key(#[trigger] vs[i])
            &&& forall|i: int, j: int| 0 <= i < j < vs.len() ==> vs[i] != vs[j]
            &&& !final(mesh)@.verts.contains_key(v)
            &&& final(mesh)@.verts.dom() == old(mesh)@.verts.dom().remove(v).union(vs.to_set())
            &&& forall|u: VertexId|
                #[trigger] old(mesh)@.verts.contains_key(u) && u != v ==> final(mesh)@.verts[u].position
                    == old(mesh)@.verts[u].position
        },
{
    let ghost m = mesh@;
    let ghost b0 = mesh.walk_bound();
    let ghost c0 = mesh.caps();
    let out = mesh.outgoing_halfedges(v)?;
    let ghost d = out@.len() as int;
    let ghost mut ms: Seq<MeshModel<P>> = seq![m];
    let ghost mut bs: Seq<nat> = seq![b0];
    let mut vs = VertexList::empty();
    proof {
        assert(vertex_items(vs).to_set() =~= Set::<VertexId>::empty());
        assert(mesh@.verts.dom() =~= m.verts.dom().union(vertex_items(vs).to_set()));
    }
    let mut i: usize = 0;
    while i < out.len()
        invariant
            mesh.wf(),
            i <= out@.len(),
            vertex_items(vs).len() == i,
            m.verts.dom().subset_of(mesh@.verts.dom()),
            forall|k: int| 0 <= k < vertex_items(vs).len() ==> !m.verts.contains_key(#[trigger] vertex_items(vs)[k]),
            forall|k: int| 0 <= k < vertex_items(vs).len() ==> mesh@.verts.contains_key(#[trigger] vertex_items(vs)[k]),
            forall|a: int, b: int| 0 <= a < b < vertex_items(vs).len() ==> vertex_items(vs)[a] != vertex_items(vs)[b],
            forall|a: P, b: P| place.requires((a, b)),
            m == old(mesh)@,
            m.outgoing_of(v, old(mesh).walk_bound()) == Ok::<Seq<HalfEdgeId>, MeshError>(out@),
            mesh@.verts.dom() == m.verts.dom().union(vertex_items(vs).to_set()),
            forall|u: VertexId| #[trigger] m.verts.contains_key(u) ==> mesh@.verts[u].position == m.verts[u].position,
            d == out@.len(),
            b0 == old(mesh).walk_bound(),
            c0 == old(mesh).caps(),
            chamfer_reached(out@, placed_by(place), ms, bs, vertex_items(vs), i as int),
            ms[0] == m,
            bs[0] == b0,
            ms[i as int] == mesh@,
            bs[i as int] == mesh.walk_bound(),
            mesh.caps().0 <= c0.0 + i,
            mesh.caps().1 <= c0.1 + 2 * i,
            mesh.caps().2 == c0.2,
            mesh.caps().0 >= c0.0,
            mesh.caps().1 >= c0.1,
        decreases out@.len() - i,
    {
        let h = out[i];
        let (a, b) = match mesh.src_dst_pair(h) {
            Ok(x) => x,
            Err(e) => {
                assert(chamfer_step_fails(out@, v, vertex_items(vs), i as int, ms[i as int], bs[i as int], e));
                assert(chamfer_failed(m, b0, v, out@, placed_by(place), e));
                return Err(e);
            },
        };
        let pa = mesh.vertex_position(a)?;
        let pb = mesh.vertex_position(b)?;
        let pos = place(pa, pb);
        if !mesh.room_for(2) {
            return Err(MeshError::CapacityExhausted);
        }
        let ghost pre = mesh@;
        let ghost pre_b = mesh.walk_bound();
        let ghost items = vertex_items(vs);
        let x = match divide_edge(mesh, h, pos) {
            Ok(x) => x,
            Err(e) => {
                assert(chamfer_step_fails(out@, v, items, i as int, ms[i as int], bs[i as int], e));
                assert(chamfer_failed(m, b0, v, out@, placed_by(place), e));
                return Err(e);
            },
        };
        vs.append(x);
        proof {
            assert(divided(pre, mesh@, h, divide_edge_plan(pre, h, pre_b)->Ok_0, pos, x));
            assert(divide_step(pre, pre_b, h, placed_by(place), mesh@, x));
            let ms0 = ms;
            let bs0 = bs;
            ms = ms.push(mesh@);
            bs = bs.push(mesh.walk_bound());
            assert forall|q: int| 0 <= q < i + 1 && q < d implies #[trigger] divide_step(
                ms[q],
                bs[q],
                out@[q],
                placed_by(place),
                ms[q + 1],
                vertex_items(vs)[q],
            ) by {
                if q < i {
                    assert(ms[q] == ms0[q] && ms[q + 1] == ms0[q + 1] && bs[q] == bs0[q]);
                    assert(vertex_items(vs)[q] == items[q]);
                    assert(divide_step(ms0[q], bs0[q], out@[q], placed_by(place), ms0[q + 1], items[q]));
                }
            }
            assert forall|q: int| 0 <= q < i + 1 implies bs[q] <= #[trigger] bs[q + 1] <= bs[q] + 2 by {
                if q < i {
                    assert(bs[q] == bs0[q] && bs[q + 1] == bs0[q + 1]);
                }
            }
            assert(chamfer_reached(out@, placed_by(place), ms, bs, vertex_items(vs), i as int + 1));
        }
        proof {
            items.lemma_push_to_set_commute(x);
            assert(mesh@.verts.dom() =~= m.verts.dom().union(vertex_items(vs).to_set()));
            assert forall|u: VertexId| #[trigger] m.verts.contains_key(u) implies mesh@.verts[u].position
                == m.verts[u].position by {
                assert(pre.verts.contains_key(u));
            }
        }
        i += 1;
    }
    let n = vs.len();
    let ghost mv = mesh@;
    let mut j: usize = 0;
    while j < n
        invariant
            mesh.wf(),
            j <= n,
            mesh@.verts == mv.verts,
            n == vertex_items(vs).len(),
            m == old(mesh)@,
            m.outgoing_of(v, old(mesh).walk_bound()) == Ok::<Seq<HalfEdgeId>, MeshError>(out@),
            out@.len() == n,
            forall|k: int| 0 <= k < vertex_items(vs).len() ==> !m.verts.contains_key(#[trigger] vertex_items(vs)[k]),
            forall|a: int, b: int| 0 <= a < b < vertex_items(vs).len() ==> vertex_items(vs)[a] != vertex_items(vs)[b],
            d == n,
            b0 == old(mesh).walk_bound(),
            c0 == old(mesh).caps(),
            chamfer_reached(out@, placed_by(place), ms, bs, vertex_items(vs), d + j),
            ms[0] == m,
            bs[0] == b0,
            ms[d + j] == mesh@,
            bs[d + j] == mesh.walk_bound(),
            mesh.caps().0 <= c0.0 + d,
            mesh.caps().1 <= c0.1 + 2 * d + 2 * j,
            mesh.caps().2 <= c0.2 + j,
            mesh.caps().0 >= c0.0,
            mesh.caps().1 >= c0.1,
            mesh.caps().2 >= c0.2,
        decreases n - j,
    {
        let a = vs.get(j);
        let b = if j + 1 < n { vs.get(j + 1) } else { vs.get(0) };
        if !mesh.room_for(2) {
            return Err(MeshError::CapacityExhausted);
        }
        let ghost pre = mesh@;
        let ghost pre_b = mesh.walk_bound();
        assert(b == ring_next(vertex_items(vs), j as int, d));
        match cut_face(mesh, a, b) {
            Ok(e) => {
                proof {
                    assert(cut_done(pre, mesh@, a, b, cut_face_plan(pre, a, b, pre_b)->Ok_0, e));
                    assert(cut_step(pre, pre_b, a, b, mesh@));
                    let ms0 = ms;
                    let bs0 = bs;
                    ms = ms.push(mesh@);
                    bs = bs.push(mesh.walk_bound());
                    assert forall|q: int| 0 <= q < d + j + 1 && q < d implies #[trigger] divide_step(
                        ms[q],
                        bs[q],
                        out@[q],
                        placed_by(place),
                        ms[q + 1],
                        vertex_items(vs)[q],
                    ) by {
                        assert(ms[q] == ms0[q] && ms[q + 1] == ms0[q + 1] && bs[q] == bs0[q]);
                        assert(divide_step(ms0[q], bs0[q], out@[q], placed_by(place), ms0[q + 1], vertex_items(vs)[q]));
                    }
                    assert forall|q: int| d <= q < d + j + 1 implies #[trigger] cut_step(
                        ms[q],
                        bs[q],
                        vertex_items(vs)[q - d],
                        ring_next(vertex_items(vs), q - d, d),
                        ms[q + 1],
                    ) by {
                        if q < d + j {
                            assert(ms[q] == ms0[q] && ms[q + 1] == ms0[q + 1] && bs[q] == bs0[q]);
                            assert(cut_step(
                                ms0[q],
                                bs0[q],
                                vertex_items(vs)[q - d],
                                ring_next(vertex_items(vs), q - d, d),
                                ms0[q + 1],
                            ));
                        }
                    }
                    assert forall|q: int| 0 <= q < d + j + 1 implies bs[q] <= #[trigger] bs[q + 1] <= bs[q] + 2 by {
                        if q < d + j {
                            assert(bs[q] == bs0[q] && bs[q + 1] == bs0[q + 1]);
                        }
                    }
                    assert(chamfer_reached(out@, placed_by(place), ms, bs, vertex_items(vs), d + j + 1));
                }
            },
            Err(e) => {
                assert(chamfer_step_fails(out@, v, vertex_items(vs), d + j, ms[d + j], bs[d + j], e));
                assert(chamfer_failed(m, b0, v, out@, placed_by(place), e));
                return Err(e);
            },
        }
        j += 1;
    }
    if !mesh.room_for(1) {
        return Err(MeshError::CapacityExhausted);
    }
    let ghost pre_d = mesh@;
    let ghost pre_db = mesh.walk_bound();
    let f = match dissolve_vertex(mesh, v) {
        Ok(f) => f,
        Err(e) => {
            assert(chamfer_step_fails(out@, v, vertex_items(vs), 2 * d, ms[2 * d], bs[2 * d], e));
            assert(chamfer_failed(m, b0, v, out@, placed_by(place), e));
            return Err(e);
        },
    };
    proof {
        assert(ms[2 * d] == pre_d && bs[2 * d] == pre_db);
        assert(chamfer_done(m, b0, v, out@, placed_by(place), vertex_items(vs), f, mesh@));
        if twins_involutive(m) {
            lemma_chamfer_twins(m, b0, v, out@, placed_by(place), vertex_items(vs), f, mesh@);
        }
        m.lemma_cycle_live(m.vertex_halfedge_of(v)->Ok_0, true, old(mesh).walk_bound());
        assert(!vertex_items(vs).to_set().contains(v));
        assert(mesh@.verts.dom() =~= m.verts.dom().remove(v).union(vertex_items(vs).to_set()));
        assert forall|u: VertexId| #[trigger] m.verts.contains_key(u) && u != v implies mesh@.verts[u].position
            == m.verts[u].position by {
            assert(mv.verts.contains_key(u));
            assert(mesh@.verts.contains_key(u));
        }
    }
    Ok((f, vs))
}

/// `nv` is `m`'s ring `us` copied into `n`: fresh, distinct vertices, one
/// per vertex of `us`, each placed by `offset` from the position of the
/// vertex it copies; `n` has exactly `m`'s vertices and these, and the old
/// vertices keep their positions.
pub open spec fn ring_copied<P, F: Fn(P) -> P>(
    m: MeshModel<P>,
    n: MeshModel<P>,
    us: Seq<VertexId>,
    nv: Seq<VertexId>,
    offset: F,
) -> bool {
    &&& nv.len() == us.len()
    &&& forall|i: int| 0 <= i < nv.len() ==> !m.verts.contains_key(#[trigger] nv[i])
    &&& forall|i: int, j: int| 0 <= i < j < nv.len() ==> nv[i] != nv[j]
    &&& n.verts.dom() == m.verts.dom().union(nv.to_set())
    &&& forall|i: int|
        0 <= i < nv.len() ==> offset.ensures((m.verts[us[i]].position,), #[trigger] n.verts[nv[i]].position)
    &&& forall|u: VertexId| #[trigger] m.verts.contains_key(u) ==> n.verts[u].position == m.verts[u].position
}

/// `n` is `m` with the vertices `nv` added, one copy of each vertex of
/// `us`, placed by `offset`, with no half-edge yet; nothing else changes.
pub open spec fn ring_allocated<P, F: Fn(P) -> P>(
    m: MeshModel<P>,
    n: MeshModel<P>,
    us: Seq<VertexId>,
    nv: Seq<VertexId>,
    offset: F,
) -> bool {
    &&& ring_copied(m, n, us, nv, offset)
    &&& n.hes == m.hes
    &&& n.faces == m.faces
    &&& forall|u: VertexId| #[trigger] m.verts.contains_key(u) ==> n.verts[u] == m.verts[u]
    &&& forall|i: int| 0 <= i < nv.len() ==> (#[trigger] n.verts[nv[i]]).halfedge is None
}

/// The first `k` sides of a face, recorded by their pair of vertices: side
/// `i` runs from `us[i]` to the next vertex of the ring and is `hs[i]`.
pub open spec fn side_pairs(us: Seq<VertexId>, hs: Seq<HalfEdgeId>, k: nat) -> Map<(VertexId, VertexId), HalfEdgeId>
    decreases k,
{
    if k == 0 {
        Map::empty()
    } else {
        side_pairs(us, hs, (k - 1) as nat).insert((us[k - 1], us[ring_succ(k, us.len())]), hs[k - 1])
    }
}

/// The ring of side face `j` of an extrusion: `us[j]`, the next vertex, its
/// copy, and the copy of `us[j]`.
pub open spec fn side_quad(us: Seq<VertexId>, nv: Seq<VertexId>, j: int) -> Seq<VertexId> {
    let jn = ring_succ((j + 1) as nat, us.len());
    seq![us[j], us[jn], nv[jn], nv[j]]
}

/// The side faces were added in turn from `ms[0]` (pairs `ps[0]`), one for
/// each side `j`, and then the front face on the copied ring, giving `mf`.
pub open spec fn extrude_trace<P>(
    us: Seq<VertexId>,
    nv: Seq<VertexId>,
    sides: Seq<FaceId>,
    front: FaceId,
    ms: Seq<MeshModel<P>>,
    ps: Seq<Map<(VertexId, VertexId), HalfEdgeId>>,
    mf: MeshModel<P>,
) -> bool {
    let n = us.len() as int;
    &&& sides.len() == n
    &&& ms.len() == n + 1
    &&& ps.len() == n + 1
    &&& forall|j: int|
        0 <= j < n ==> #[trigger] face_added(ms[j], ps[j], side_quad(us, nv, j), sides[j], ms[j + 1], ps[j + 1])
    &&& exists|pf: Map<(VertexId, VertexId), HalfEdgeId>| #[trigger] face_added(ms[n], ps[n], nv, front, mf, pf)
}

/// `extrude_face_connectivity(f)` on `m` made `n` with the side faces
/// `sides` and the front face `front`: the copies of `f`'s ring were
/// allocated, `f`'s sides recorded, the side faces and the front face added
/// as `add_face` does, and `f` removed.
pub open spec fn extrude_done<P, F: Fn(P) -> P>(
    m: MeshModel<P>,
    b: nat,
    f: FaceId,
    offset: F,
    sides: Seq<FaceId>,
    front: FaceId,
    n: MeshModel<P>,
) -> bool {
    let hs = m.face_loop_of(f, b)->Ok_0;
    let us = m.face_vertices_of(f, b)->Ok_0;
    exists|
        nv: Seq<VertexId>,
        m1: MeshModel<P>,
        ms: Seq<MeshModel<P>>,
        ps: Seq<Map<(VertexId, VertexId), HalfEdgeId>>,
        mf: MeshModel<P>,
    |
        #![trigger ring_allocated(m, m1, us, nv, offset), extrude_trace(us, nv, sides, front, ms, ps, mf)]
        ring_allocated(m, m1, us, nv, offset) && ms[0] == m1 && ps[0] == side_pairs(us, hs, us.len()) && extrude_trace(
            us,
            nv,
            sides,
            front,
            ms,
            ps,
            mf,
        ) && n == mf.without_face(f)
}

/// Extrudes face `f`: its ring of vertices is copied, each copy placed by
/// `offset` from the position of the vertex it copies; a quad side face
/// joins each side of `f` to its copy, a front face closes the copied ring,
/// and `f` itself is removed. The old half-edges of `f` go to the side
/// faces. Returns the side faces, in the order of `f`'s half-edges, and the
/// front face. It succeeds whenever `f`'s loop and its vertices read and
/// there is room for the new elements.
pub fn extrude_face_connectivity<P: Copy, F: Fn(P) -> P>(mesh: &mut HalfEdgeMesh<P>, f: FaceId, offset: F) -> (r:
    Result<(FaceList, FaceId), MeshError>)
    requires
        old(mesh).wf(),
        forall|p: P| offset.requires((p,)),
    ensures
        final(mesh).wf(),
        old(mesh)@.face_loop_of(f, old(mesh).walk_bound()) is Err ==> r is Err && r->Err_0 == old(mesh)@.face_loop_of(f, old(mesh).walk_bound())->Err_0 && final(mesh)@ == old(mesh)@,
        old(mesh)@.face_vertices_of(f, old(mesh).walk_bound()) is Ok && old(mesh).has_room(
            5 * old(mesh)@.face_loop_of(f, old(mesh).walk_bound())->Ok_0.len() + 6,
        ) ==> r is Ok,
        r is Ok ==> {
            let sides = face_items(r->Ok_0.0);
            let front = r->Ok_0.1;
            &&& old(mesh)@.face_vertices_of(f, old(mesh).walk_bound()) is Ok
            &&& sides.len() == old(mesh)@.face_loop_of(f, old(mesh).walk_bound())->Ok_0.len()
            &&& !final(mesh)@.faces.contains_key(f)
            &&& final(mesh)@.faces.dom() == old(mesh)@.faces.dom().remove(f).union(sides.to_set().insert(front))
            &&& forall|i: int| 0 <= i < sides.len() ==> !old(mesh)@.faces.contains_key(#[trigger] sides[i])
            &&& !old(mesh)@.faces.contains_key(front)
            &&& forall|i: int, j: int| 0 <= i < j < sides.len() ==> sides[i] != sides[j]
            &&& extrude_done(old(mesh)@, old(mesh).walk_bound(), f, offset, sides, front, final(mesh)@)
            &&& exists|nv: Seq<VertexId>|
                #[trigger] ring_copied(
                    old(mesh)@,
                    final(mesh)@,
                    old(mesh)@.face_vertices_of(f, old(mesh).walk_bound())->Ok_0,
                    nv,
                    offset,
                )
        },
{
    let ghost m0 = mesh@;
    let ghost c0 = mesh.caps();
    let hs = mesh.face_halfedges(f)?;
    let vs = mesh.src_vertices(&hs)?;
    proof {
        m0.lemma_srcs_of(hs@);
        m0.lemma_cycle_live(m0.face_halfedge_of(f)->Ok_0, false, mesh.walk_bound());
    }
    let ghost loop_ok = old(mesh)@.face_loop_of(f, old(mesh).walk_bound()) == Ok::<Seq<HalfEdgeId>, MeshError>(hs@);
    assert(loop_ok);
    let n = vs.len();
    let ghost enough = old(mesh).has_room((5 * n + 6) as nat);
    let mut new_vs: Vec<VertexId> = Vec::new();
    proof {
        assert(new_vs@.to_set() =~= Set::<VertexId>::empty());
        assert(mesh@.verts.dom() =~= m0.verts.dom().union(new_vs@.to_set()));
    }
    let mut i: usize = 0;
    while i < n
        invariant
            mesh.wf(),
            i <= n,
            n == vs@.len(),
            n <= old(mesh).walk_bound(),
            m0 == old(mesh)@,
            c0 == old(mesh).caps(),
            forall|q: int| 0 <= q < n ==> m0.verts.contains_key(#[trigger] vs@[q]),
            new_vs@.len() == i,
            forall|p: P| offset.requires((p,)),
            mesh@.faces == old(mesh)@.faces,
            mesh@.hes == old(mesh)@.hes,
            old(mesh)@.face_loop_of(f, old(mesh).walk_bound()) == Ok::<Seq<HalfEdgeId>, MeshError>(hs@),
            old(mesh)@.face_vertices_of(f, old(mesh).walk_bound()) == Ok::<Seq<VertexId>, MeshError>(vs@),
            hs@.len() == n,
            mesh.caps().0 <= c0.0 + i,
            mesh.caps().1 == c0.1,
            mesh.caps().2 == c0.2,
            enough == old(mesh).has_room((5 * n + 6) as nat),
            ring_copied(m0, mesh@, vs@.take(i as int), new_vs@, offset),
            forall|u: VertexId| #[trigger] m0.verts.contains_key(u) ==> mesh@.verts[u] == m0.verts[u],
            forall|q: int| 0 <= q < i ==> (#[trigger] mesh@.verts[new_vs@[q]]).halfedge is None,
        decreases n - i,
    {
        let pos = mesh.vertex_position(vs[i])?;
        if !mesh.room_for(1) {
            return Err(MeshError::CapacityExhausted);
        }
        let ghost before = mesh@;
        let ghost nv0 = new_vs@;
        let p2 = offset(pos);
        let x = mesh.alloc_vertex(p2, None);
        new_vs.push(x);
        proof {
            nv0.lemma_push_to_set_commute(x);
            assert(vs@.take(i as int + 1) =~= vs@.take(i as int).push(vs@[i as int]));
            assert(mesh@.verts.dom() =~= m0.verts.dom().union(new_vs@.to_set()));
            assert forall|u: VertexId| #[trigger] m0.verts.contains_key(u) implies mesh@.verts[u] == m0.verts[u] by {
                assert(before.verts.contains_key(u));
            }
            assert forall|q: int| 0 <= q < i + 1 implies (#[trigger] mesh@.verts[new_vs@[q]]).halfedge is None by {
                if q < i {
                    assert(new_vs@[q] == nv0[q]);
                    assert(before.verts.contains_key(nv0[q]));
                }
            }
            assert forall|q: int| 0 <= q < new_vs@.len() implies offset.ensures(
                (m0.verts[vs@.take(i as int + 1)[q]].position,),
                #[trigger] mesh@.verts[new_vs@[q]].position,
            ) by {
                if q < i {
                    assert(vs@.take(i as int + 1)[q] == vs@.take(i as int)[q]);
                    assert(before.verts.contains_key(nv0[q]));
                }
            }
        }
        i += 1;
    }
    assert(vs@.take(n as int) =~= vs@);
    let ghost m1 = mesh@;
    assert(ring_allocated(m0, m1, vs@, new_vs@, offset));

    // The face's own sides are recorded, so that the side faces reuse them.
    let mut pairs = PairMap::new();
    let mut k: usize = 0;
    while k < n
        invariant
            k <= n,
            n == vs@.len(),
            n == hs@.len(),
            forall|q: int| 0 <= q < n ==> m0.hes.contains_key(#[trigger] hs@[q]),
            forall|key: (VertexId, VertexId)| #[trigger] pairs@.contains_key(key) ==> m0.hes.contains_key(pairs@[key]),
            pairs@ == side_pairs(vs@, hs@, k as nat),
        decreases n - k,
    {
        let b = if k + 1 < n { vs[k + 1] } else { vs[0] };
        pairs.insert(vs[k], b, hs[k]);
        k += 1;
    }
    let ghost mut ms: Seq<MeshModel<P>> = seq![m1];
    let ghost mut ps: Seq<Map<(VertexId, VertexId), HalfEdgeId>> = seq![pairs@];
    let ghost ps0 = pairs@;

    let mut sides = FaceList::empty();
    let mut j: usize = 0;
    while j < n
        invariant
            mesh.wf(),
            j <= n,
            n == vs@.len(),
            n == new_vs@.len(),
            m0 == old(mesh)@,
            c0 == old(mesh).caps(),
            n <= old(mesh).walk_bound(),
            face_items(sides).len() == j,
            mesh@.faces.dom() == old(mesh)@.faces.dom().union(face_items(sides).to_set()),
            forall|q: int| 0 <= q < face_items(sides).len() ==> !old(mesh)@.faces.contains_key(#[trigger] face_items(sides)[q]),
            forall|q: int, t: int| 0 <= q < t < face_items(sides).len() ==> face_items(sides)[q] != face_items(sides)[t],
            old(mesh)@.faces.contains_key(f),
            old(mesh)@.face_loop_of(f, old(mesh).walk_bound()) == Ok::<Seq<HalfEdgeId>, MeshError>(hs@),
            old(mesh)@.face_vertices_of(f, old(mesh).walk_bound()) == Ok::<Seq<VertexId>, MeshError>(vs@),
            hs@.len() == n,
            mesh@.verts.dom() == m1.verts.dom(),
            forall|u: VertexId| #[trigger] m1.verts.contains_key(u) ==> mesh@.verts[u].position == m1.verts[u].position,
            ring_copied(m0, m1, vs@, new_vs@, offset),
            forall|q: int| 0 <= q < n ==> m0.verts.contains_key(#[trigger] vs@[q]),
            forall|key: (VertexId, VertexId)| #[trigger] pairs@.contains_key(key) ==> mesh@.hes.contains_key(pairs@[key]),
            mesh.caps().0 <= c0.0 + n,
            mesh.caps().1 <= c0.1 + 4 * j,
            mesh.caps().2 <= c0.2 + j,
            enough == old(mesh).has_room((5 * n + 6) as nat),
            ms.len() == j + 1,
            ps.len() == j + 1,
            ms[0] == m1,
            ps[0] == ps0,
            ps0 == side_pairs(vs@, hs@, n as nat),
            ms[j as int] == mesh@,
            ps[j as int] == pairs@,
            forall|q: int|
                0 <= q < j ==> #[trigger] face_added(
                    ms[q],
                    ps[q],
                    side_quad(vs@, new_vs@, q),
                    face_items(sides)[q],
                    ms[q + 1],
                    ps[q + 1],
                ),
        decreases n - j,
    {
        let jn = if j + 1 < n { j + 1 } else { 0 };
        let quad = vec![vs[j], vs[jn], new_vs[jn], new_vs[j]];
        if !mesh.room_for(5) {
            return Err(MeshError::CapacityExhausted);
        }
        proof {
            assert(new_vs@.to_set().contains(new_vs@[j as int]));
            assert(new_vs@.to_set().contains(new_vs@[jn as int]));
            assert(crate::construct::ring_ready(mesh@, pairs@, quad@));
        }
        let ghost pre_m = mesh@;
        let ghost pre_p = pairs@;
        assert(quad@ == side_quad(vs@, new_vs@, j as int));
        let side = add_face(mesh, &quad, &mut pairs)?;
        proof {
            assert(!face_items(sides).to_set().contains(side));
        }
        let ghost before = face_items(sides);
        sides.append(side);
        proof {
            before.lemma_push_to_set_commute(side);
            assert(face_items(sides).to_set() == before.to_set().insert(side));
            assert(mesh@.faces.dom() =~= old(mesh)@.faces.dom().union(face_items(sides).to_set()));
            let ms0 = ms;
            let psq = ps;
            ms = ms.push(mesh@);
            ps = ps.push(pairs@);
            assert forall|q: int| 0 <= q < j + 1 implies #[trigger] face_added(
                ms[q],
                ps[q],
                side_quad(vs@, new_vs@, q),
                face_items(sides)[q],
                ms[q + 1],
                ps[q + 1],
            ) by {
                assert(face_items(sides)[q] == if q < j { before[q] } else { side });
                if q < j {
                    assert(ms[q] == ms0[q] && ms[q + 1] == ms0[q + 1] && ps[q] == psq[q] && ps[q + 1] == psq[q + 1]);
                    assert(face_added(ms0[q], psq[q], side_quad(vs@, new_vs@, q), before[q], ms0[q + 1], psq[q + 1]));
                }
            }
        }
        j += 1;
    }
    if n == 0 || n >= usize::MAX - 1 || !mesh.room_for(n + 1) {
        return Err(MeshError::CapacityExhausted);
    }
    proof {
        assert forall|q: int| 0 <= q < new_vs@.len() implies mesh@.verts.contains_key(#[trigger] new_vs@[q]) by {
            assert(new_vs@.to_set().contains(new_vs@[q]));
        }
        assert(crate::construct::ring_ready(mesh@, pairs@, new_vs@));
    }
    let ghost pre_front = mesh@;
    let ghost pre_fp = pairs@;
    let front = add_face(mesh, &new_vs, &mut pairs)?;
    let ghost mf = mesh@;
    assert(face_added(ms[n as int], ps[n as int], new_vs@, front, mf, pairs@));
    mesh.remove_face(f);
    proof {
        assert(!face_items(sides).to_set().contains(f));
        assert(mesh@.faces.dom() =~= old(mesh)@.faces.dom().remove(f).union(face_items(sides).to_set().insert(front)));
        assert(mesh@.verts.dom() =~= m1.verts.dom());
        assert forall|q: int| 0 <= q < new_vs@.len() implies offset.ensures(
            (m0.verts[vs@[q]].position,),
            #[trigger] mesh@.verts[new_vs@[q]].position,
        ) by {
            assert(new_vs@.to_set().contains(new_vs@[q]));
            assert(m1.verts.contains_key(new_vs@[q]));
        }
        assert forall|u: VertexId| #[trigger] m0.verts.contains_key(u) implies mesh@.verts[u].position
            == m0.verts[u].position by {
            assert(m1.verts.contains_key(u));
        }
        assert(ring_copied(m0, mesh@, vs@, new_vs@, offset));
        assert(extrude_trace(vs@, new_vs@, face_items(sides), front, ms, ps, mf));
        assert(extrude_done(m0, old(mesh).walk_bound(), f, offset, face_items(sides), front, mesh@));
    }
    Ok((sides, front))
}

/// Whether handle `a` orders before handle `b`: by slot, then generation.
pub open spec fn key_before(a: Key, b: Key) -> bool {
    a.idx < b.idx || (a.idx == b.idx && a.generation < b.generation)
}

pub open spec fn sorted_keys(s: Seq<Key>) -> bool {
    forall|i: int, j: int| 0 <= i < j < s.len() ==> key_before(s[i], s[j])
}

/// The first index of the sorted `s` whose key does not order before `k`.
fn key_position(s: &Vec<Key>, k: Key) -> (r: usize)
    requires
        sorted_keys(s@),
    ensures
        r <= s@.len(),
        forall|j: int| 0 <= j < r ==> key_before(s@[j], k),
        r < s@.len() ==> !key_before(s@[r as int], k),
{
    let mut i: usize = 0;
    while i < s.len()
        invariant
            i <= s@.len(),
            forall|j: int| 0 <= j < i ==> key_before(s@[j], k),
        decreases s@.len() - i,
    {
        let x = s[i];
        if !(x.idx < k.idx || (x.idx == k.idx && x.generation < k.generation)) {
            return i;
        }
        i += 1;
    }
    i
}

/// Inserts `k` into the sorted set `s`; returns whether it was new.
fn insert_key(s: &mut Vec<Key>, k: Key) -> (r: bool)
    requires
        sorted_keys(old(s)@),
    ensures
        sorted_keys(final(s)@),
        r == !old(s)@.contains(k),
        final(s)@.to_set() == old(s)@.to_set().insert(k),
{
    let i = key_position(s, k);
    let ghost pre = s@;
    if i < s.len() && s[i] == k {
        assert(s@.to_set() =~= s@.to_set().insert(k)) by {
            assert(s@.contains(k)) by {
                assert(s@[i as int] == k);
            }
        }
        return false;
    }
    proof {
        assert(!pre.contains(k)) by {
            if pre.contains(k) {
                let j = choose|j: int| 0 <= j < pre.len() && pre[j] == k;
                if j > i {
                    assert(key_before(pre[i as int], pre[j]));
                }
            }
        }
    }
    s.insert(i, k);
    proof {
        assert(s@ =~= pre.take(i as int).push(k) + pre.skip(i as int));
        assert forall|x: int, y: int| 0 <= x < y < s@.len() implies key_before(s@[x], s@[y]) by {
            if y < i {
            } else if y == i {
            } else if x < i {
                assert(s@[y] == pre[y - 1]);
                if i < pre.len() {
                    assert(!key_before(pre[i as int], k));
                    if y - 1 > i {
                        assert(key_before(pre[i as int], pre[y - 1]));
                    }
                }
            } else if x == i {
                assert(s@[y] == pre[y - 1]);
                assert(!key_before(pre[i as int], k));
                assert(pre[i as int] != k);
                if y - 1 > i {
                    assert(key_before(pre[i as int], pre[y - 1]));
                }
            } else {
                assert(s@[x] == pre[x - 1]);
                assert(s@[y] == pre[y - 1]);
            }
        }
        assert(s@.to_set() =~= pre.to_set().insert(k)) by {
            assert forall|x: Key| s@.contains(x) implies pre.to_set().insert(k).contains(x) by {
                let j = choose|j: int| 0 <= j < s@.len() && s@[j] == x;
                if j < i {
                    assert(pre[j] == x);
                } else if j > i {
                    assert(pre[j - 1] == x);
                }
            }
            assert forall|x: Key| pre.to_set().insert(k).contains(x) implies s@.contains(x) by {
                if x == k {
                    assert(s@[i as int] == k);
                } else {
                    let j = choose|j: int| 0 <= j < pre.len() && pre[j] == x;
                    if j < i {
                        assert(s@[j] == x);
                    } else {
                        assert(s@[j + 1] == x);
                    }
                }
            }
        }
    }
    true
}

/// Whether the sorted set `s` holds `k`.
fn has_key(s: &Vec<Key>, k: Key) -> (r: bool)
    ensures
        r == s@.contains(k),
{
    let mut i: usize = 0;
    while i < s.len()
        invariant
            i <= s@.len(),
            forall|j: int| 0 <= j < i ==> s@[j] != k,
        decreases s@.len() - i,
    {
        if s[i] == k {
            return true;
        }
        i += 1;
    }
    false
}

/// Where the last of the first `i` recorded moves that starts at `v` sends it.
pub open spec fn last_move(moves: Seq<(VertexId, VertexId)>, v: VertexId, i: nat) -> Option<VertexId>
    decreases i,
{
    if i == 0 {
        None
    } else if moves[i - 1].0 == v {
        Some(moves[i - 1].1)
    } else {
        last_move(moves, v, (i - 1) as nat)
    }
}

/// Where `v` ends up after following recorded moves, at most `fuel` of
/// them; one more is `CycleExceeded`.
pub open spec fn translate(moves: Seq<(VertexId, VertexId)>, v: VertexId, fuel: nat) -> Result<VertexId, MeshError>
    decreases fuel,
{
    match last_move(moves, v, moves.len()) {
        None => Ok(v),
        Some(n) => if fuel == 0 {
            Err(MeshError::CycleExceeded)
        } else {
            translate(moves, n, (fuel - 1) as nat)
        },
    }
}

/// Follows the recorded moves of `v`: each collapse records where the
/// collapsed vertex went. A chain longer than the record is `CycleExceeded`.
fn translated(moves: &Vec<(VertexId, VertexId)>, v: VertexId) -> (r: Result<VertexId, MeshError>)
    ensures
        r == translate(moves@, v, moves@.len()),
{
    let mut cur = v;
    let limit = moves.len();
    let mut steps: usize = 0;
    loop
        invariant
            steps <= limit,
            limit == moves@.len(),
            translate(moves@, v, limit as nat) == translate(moves@, cur, (limit - steps) as nat),
        decreases limit - steps,
    {
        let mut found: Option<VertexId> = None;
        let mut i: usize = 0;
        while i < moves.len()
            invariant
                i <= moves@.len(),
                found == last_move(moves@, cur, i as nat),
            decreases moves@.len() - i,
        {
            if moves[i].0 == cur {
                found = Some(moves[i].1);
            }
            i += 1;
        }
        match found {
            Some(next) => {
                cur = next;
            },
            None => {
                return Ok(cur);
            },
        }
        if steps >= limit {
            return Err(MeshError::CycleExceeded);
        }
        steps += 1;
    }
}

/// Whether, for consecutive outgoing half-edges `a` then `b` around a
/// vertex, the two chamfer vertices on them are to be merged: `bev` and
/// `dup` say whether each is beveled or a duplicate.
pub open spec fn merges_spec(a_bev: bool, a_dup: bool, b_bev: bool, b_dup: bool) -> bool {
    let a_none = !a_bev && !a_dup;
    let b_none = !b_bev && !b_dup;
    (a_bev && b_none) || (a_dup && b_bev) || (a_dup && b_none) || (a_none && b_bev)
}

pub fn merges(a_bev: bool, a_dup: bool, b_bev: bool, b_dup: bool) -> (r: bool)
    ensures
        r == merges_spec(a_bev, a_dup, b_bev, b_dup),
{
    let a_none = !a_bev && !a_dup;
    let b_none = !b_bev && !b_dup;
    (a_bev && b_none) || (a_dup && b_bev) || (a_dup && b_none) || (a_none && b_bev)
}

/// `x` is one of the first `i` given half-edges, or the twin that one of
/// them had in `m`.
pub open spec fn beveled_by<P>(m: MeshModel<P>, hs: Seq<HalfEdgeId>, i: int, x: HalfEdgeId) -> bool {
    exists|j: int| 0 <= j < i && (x == hs[j] || x == m.twin_of(hs[j])->Ok_0)
}

/// One step of collecting the beveled set keeps it equal to the given
/// half-edges so far and their twins, on a mesh whose twins pair up.
pub proof fn lemma_beveled_step<P>(
    m0: MeshModel<P>,
    hs: Seq<HalfEdgeId>,
    i: int,
    pre: Seq<Key>,
    post: Seq<Key>,
    h: HalfEdgeId,
    first: bool,
    tw: Option<HalfEdgeId>,
)
    requires
        0 <= i < hs.len(),
        h == hs[i],
        first == !pre.contains(h.key),
        first ==> tw is Some && (twins_involutive(m0) && m0.hes.contains_key(h) ==> tw->Some_0 == m0.twin_of(h)->Ok_0)
            && post.to_set() == pre.to_set().insert(h.key).insert(tw->Some_0.key),
        !first ==> post.to_set() == pre.to_set().insert(h.key),
        twins_involutive(m0) && (forall|j: int| 0 <= j < i ==> m0.hes.contains_key(#[trigger] hs[j]))
            ==> forall|k: Key| #[trigger] pre.contains(k) <==> beveled_by(m0, hs, i, HalfEdgeId { key: k }),
    ensures
        twins_involutive(m0) && (forall|j: int| 0 <= j < i + 1 ==> m0.hes.contains_key(#[trigger] hs[j]))
            ==> forall|k: Key| #[trigger] post.contains(k) <==> beveled_by(m0, hs, i + 1, HalfEdgeId { key: k }),
{
    if !first {
        assert(pre.to_set().contains(h.key));
        assert(pre.to_set().insert(h.key) =~= pre.to_set());
    }
    if twins_involutive(m0) && (forall|j: int| 0 <= j < i + 1 ==> m0.hes.contains_key(#[trigger] hs[j])) {
        assert(m0.hes.contains_key(hs[i]));
        let t = m0.twin_of(h)->Ok_0;
        assert forall|k: Key| #[trigger] post.contains(k) <==> beveled_by(m0, hs, i + 1, HalfEdgeId { key: k }) by {
            let x = HalfEdgeId { key: k };
            assert(post.contains(k) == post.to_set().contains(k));
            assert(pre.contains(k) == pre.to_set().contains(k));
            if beveled_by(m0, hs, i + 1, x) {
                let j = choose|j: int| 0 <= j < i + 1 && (x == hs[j] || x == m0.twin_of(hs[j])->Ok_0);
                if j < i {
                    assert(beveled_by(m0, hs, i, x));
                } else if !first {
                    // h was already collected, and with it its twin.
                    assert(pre.contains(h.key));
                    assert(beveled_by(m0, hs, i, h));
                    let q = choose|q: int| 0 <= q < i && (h == hs[q] || h == m0.twin_of(hs[q])->Ok_0);
                    if x != h {
                        assert(x == t);
                        if h == hs[q] {
                            assert(beveled_by(m0, hs, i, x));
                        } else {
                            assert(m0.hes.contains_key(hs[q]));
                            assert(m0.twin_of(t) == Ok::<HalfEdgeId, MeshError>(h));
                            assert(x == hs[q]);
                            assert(beveled_by(m0, hs, i, x));
                        }
                    }
                }
            }
            if post.contains(k) {
                if pre.contains(k) {
                    assert(beveled_by(m0, hs, i, x));
                    let j = choose|j: int| 0 <= j < i && (x == hs[j] || x == m0.twin_of(hs[j])->Ok_0);
                    assert(beveled_by(m0, hs, i + 1, x));
                } else {
                    assert(x == h || x == t);
                    assert(beveled_by(m0, hs, i + 1, x)) by {
                        assert(0 <= i < i + 1);
                    }
                }
            }
        }
    }
}

/// `duplicate_edge(h)` changes the twins of `h` and of its twin only, and
/// removes no half-edge.
pub proof fn lemma_duplicate_frame<P>(m: MeshModel<P>, n: MeshModel<P>, h: HalfEdgeId, a: HalfEdgeId, set: Seq<Key>)
    requires
        m.src_dst_of(h) is Ok,
        crate::edit::duplicated(m, n, h, m.src_dst_of(h)->Ok_0.0, m.src_dst_of(h)->Ok_0.1, a),
    ensures
        forall|g: HalfEdgeId| #[trigger] m.hes.contains_key(g) ==> n.hes.contains_key(g),
        forall|g: HalfEdgeId|
            m.hes.contains_key(g) && g != h && g != m.twin_of(h)->Ok_0 && m.twin_of(g) is Ok ==> #[trigger] n.twin_of(g)
                == m.twin_of(g),
{
    let vw = m.src_dst_of(h)->Ok_0;
    let (b, f) = choose|b: HalfEdgeId, f: FaceId|
        {
            &&& !m.hes.contains_key(a)
            &&& !m.hes.contains_key(b)
            &&& a != b
            &&& !m.faces.contains_key(f)
            &&& n == crate::edit::duplicate_edge_result(m, h, m.twin_of(h)->Ok_0, vw.0, vw.1, a, b, f)
        };
    let t = m.twin_of(h)->Ok_0;
    assert(m.hes.contains_key(t));
    assert forall|g: HalfEdgeId|
        m.hes.contains_key(g) && g != h && g != t && m.twin_of(g) is Ok implies #[trigger] n.twin_of(g) == m.twin_of(g) by {
        assert(g != a && g != b);
        assert(n.hes[g] == m.hes[g]);
        if m.hes[g].twin is Some {
            let y = m.hes[g].twin->Some_0;
            assert(m.hes.contains_key(y) ==> n.hes.contains_key(y));
            assert(n.hes.contains_key(y) ==> (m.hes.contains_key(y) || y == a || y == b));
            if y == a || y == b {
                assert(!m.hes.contains_key(y));
            }
        }
    }
}

/// Room for `n` more elements of each kind, given the slots used `c`.
pub open spec fn room_in(c: (nat, nat, nat), n: nat) -> bool {
    c.0 + n < usize::MAX && c.1 + n < usize::MAX && c.2 + n < usize::MAX
}

/// `duplicate_edge(h)` on `m` (slots `c`) made `n` (slots `c2`) and the
/// half-edge `a`.
pub open spec fn dup_done<P>(m: MeshModel<P>, c: (nat, nat, nat), h: HalfEdgeId, n: MeshModel<P>, c2: (nat, nat, nat), a: HalfEdgeId) -> bool {
    &&& m.src_dst_of(h) is Ok
    &&& crate::edit::duplicated(m, n, h, m.src_dst_of(h)->Ok_0.0, m.src_dst_of(h)->Ok_0.1, a)
    &&& c2.0 == c.0
    &&& c.1 <= c2.1 <= c.1 + 2
    &&& c.2 <= c2.2 <= c.2 + 1
}

/// One step of collecting the edges to bevel, for the given half-edge `h`,
/// from mesh `m` (slots `c`) and the sets `bs` (beveled), `ds`
/// (duplicates), `ts` (vertices to chamfer): an edge seen before is
/// skipped; otherwise `h` and its twin join `bs`, and unless the twin was
/// there already the edge is duplicated, the two new half-edges join `ds`
/// and the ends of `h` join `ts`.
pub open spec fn collect_step<P>(
    m: MeshModel<P>,
    c: (nat, nat, nat),
    h: HalfEdgeId,
    bs: Set<Key>,
    ds: Set<Key>,
    ts: Set<Key>,
    m2: MeshModel<P>,
    c2: (nat, nat, nat),
    bs2: Set<Key>,
    ds2: Set<Key>,
    ts2: Set<Key>,
) -> bool {
    if bs.contains(h.key) {
        m2 == m && c2 == c && bs2 == bs && ds2 == ds && ts2 == ts
    } else {
        &&& m.twin_of(h) is Ok
        &&& bs2 == bs.insert(h.key).insert(m.twin_of(h)->Ok_0.key)
        &&& if bs.insert(h.key).contains(m.twin_of(h)->Ok_0.key) {
            m2 == m && c2 == c && ds2 == ds && ts2 == ts
        } else {
            &&& room_in(c, 2)
            &&& exists|a: HalfEdgeId|
                #[trigger] dup_done(m, c, h, m2, c2, a) && m2.next_of(a) is Ok && m2.src_dst_of(h) is Ok && ds2
                    == ds.insert(a.key).insert(m2.next_of(a)->Ok_0.key) && ts2 == ts.insert(
                    m2.src_dst_of(h)->Ok_0.0.key,
                ).insert(m2.src_dst_of(h)->Ok_0.1.key)
        }
    }
}

/// The collecting step for `h` fails with `e`.
pub open spec fn collect_fails<P>(m: MeshModel<P>, c: (nat, nat, nat), h: HalfEdgeId, bs: Set<Key>, e: MeshError) -> bool {
    &&& !bs.contains(h.key)
    &&& match m.twin_of(h) {
        Err(e2) => e == e2,
        Ok(t) => !bs.insert(h.key).contains(t.key) && if !room_in(c, 2) {
            e == MeshError::CapacityExhausted
        } else {
            match m.src_dst_of(h) {
                Err(e2) => e == e2,
                Ok(_) => exists|a: HalfEdgeId, m2: MeshModel<P>, c2: (nat, nat, nat)|
                    #[trigger] dup_done(m, c, h, m2, c2, a) && (m2.next_of(a) == Err::<HalfEdgeId, MeshError>(e) || (
                    m2.next_of(a) is Ok && m2.src_dst_of(h) == Err::<(VertexId, VertexId), MeshError>(e))),
            }
        },
    }
}

/// The first `k` collecting steps, over `hs`, passing through the states
/// `sm` and sets `sb`, `sd`, `st`.
pub open spec fn collect_reached<P>(
    hs: Seq<HalfEdgeId>,
    sm: Seq<(MeshModel<P>, (nat, nat, nat))>,
    sb: Seq<Set<Key>>,
    sd: Seq<Set<Key>>,
    st: Seq<Set<Key>>,
    k: int,
) -> bool {
    &&& 0 <= k <= hs.len()
    &&& sm.len() == k + 1 && sb.len() == k + 1 && sd.len() == k + 1 && st.len() == k + 1
    &&& forall|j: int|
        0 <= j < k ==> #[trigger] collect_step(
            sm[j].0,
            sm[j].1,
            hs[j],
            sb[j],
            sd[j],
            st[j],
            sm[j + 1].0,
            sm[j + 1].1,
            sb[j + 1],
            sd[j + 1],
            st[j + 1],
        )
}

/// Which consecutive pairs of chamfer vertices around a vertex with
/// outgoing half-edges `out` are merged.
pub open spec fn flags_of(out: Seq<HalfEdgeId>, bs: Set<Key>, ds: Set<Key>) -> Seq<bool> {
    Seq::new(
        out.len(),
        |k: int|
            {
                let nk = if k + 1 < out.len() {
                    k + 1
                } else {
                    0
                };
                merges_spec(bs.contains(out[k].key), ds.contains(out[k].key), bs.contains(out[nk].key), ds.contains(out[nk].key))
            },
    )
}

/// The merge for position `q` among the chamfer vertices `vs`: where `fl`
/// asks for one, the vertex at `q` and the next, each followed through the
/// moves `mv`, are joined by collapsing the edge from the second to the
/// first, and the move is recorded.
pub open spec fn merge_step<P>(
    fl: bool,
    vs: Seq<VertexId>,
    q: int,
    m: MeshModel<P>,
    c: (nat, nat, nat),
    mv: Seq<(VertexId, VertexId)>,
    m2: MeshModel<P>,
    c2: (nat, nat, nat),
    mv2: Seq<(VertexId, VertexId)>,
) -> bool {
    if !fl {
        m2 == m && c2 == c && mv2 == mv
    } else {
        match translate(mv, vs[q], mv.len()) {
            Err(_) => false,
            Ok(gone) => match translate(mv, ring_next(vs, q, vs.len() as int), mv.len()) {
                Err(_) => false,
                Ok(keep) => match m.halfedge_to_of(keep, gone, c.1) {
                    Err(_) => false,
                    Ok(h) => match crate::edit::collapse_edge_plan(m, h, c.1) {
                        Err(_) => false,
                        Ok(p) => m2 == crate::edit::collapse_edge_result(m, h, p) && c2 == c && mv2 == mv.push(
                            (gone, keep),
                        ),
                    },
                },
            },
        }
    }
}

/// The merge for position `q` fails with `e`.
pub open spec fn merge_fails<P>(
    fl: bool,
    vs: Seq<VertexId>,
    q: int,
    m: MeshModel<P>,
    c: (nat, nat, nat),
    mv: Seq<(VertexId, VertexId)>,
    e: MeshError,
) -> bool {
    fl && match translate(mv, vs[q], mv.len()) {
        Err(e2) => e == e2,
        Ok(gone) => match translate(mv, ring_next(vs, q, vs.len() as int), mv.len()) {
            Err(e2) => e == e2,
            Ok(keep) => match m.halfedge_to_of(keep, gone, c.1) {
                Err(e2) => e == e2,
                Ok(h) => crate::edit::collapse_edge_plan(m, h, c.1) == Err::<crate::edit::EdgeCollapse, MeshError>(e),
            },
        },
    }
}

/// The first `k` merges, through states `cs` and move records `mvs`.
pub open spec fn merges_reached<P>(
    fl: Seq<bool>,
    vs: Seq<VertexId>,
    cs: Seq<(MeshModel<P>, (nat, nat, nat))>,
    mvs: Seq<Seq<(VertexId, VertexId)>>,
    k: int,
) -> bool {
    &&& 0 <= k <= fl.len()
    &&& cs.len() == k + 1
    &&& mvs.len() == k + 1
    &&& mvs[0] == Seq::<(VertexId, VertexId)>::empty()
    &&& forall|q: int|
        0 <= q < k ==> #[trigger] merge_step(fl[q], vs, q, cs[q].0, cs[q].1, mvs[q], cs[q + 1].0, cs[q + 1].1, mvs[q + 1])
}

/// Beveling at vertex `v` of `m` (slots `c`), with beveled set `bs` and
/// duplicates `ds`, made `n` (slots `c2`): `v` was chamfered in place, then
/// the chamfer vertices that `merges_spec` picks were merged in turn.
pub open spec fn vertex_done<P>(
    m: MeshModel<P>,
    c: (nat, nat, nat),
    v: VertexId,
    bs: Set<Key>,
    ds: Set<Key>,
    n: MeshModel<P>,
    c2: (nat, nat, nat),
) -> bool {
    &&& m.outgoing_of(v, c.1) is Ok
    &&& exists|
        vs: Seq<VertexId>,
        g: FaceId,
        m1: MeshModel<P>,
        c1: (nat, nat, nat),
        cs: Seq<(MeshModel<P>, (nat, nat, nat))>,
        mvs: Seq<Seq<(VertexId, VertexId)>>,
    |
        #![trigger chamfer_done(m, c.1, v, m.outgoing_of(v, c.1)->Ok_0, keeps_start(), vs, g, m1), caps_grown(c, c1, m.outgoing_of(v, c.1)->Ok_0.len()), merges_reached(flags_of(m.outgoing_of(v, c.1)->Ok_0, bs, ds), vs, cs, mvs, m.outgoing_of(v, c.1)->Ok_0.len() as int)]
        {
            let out = m.outgoing_of(v, c.1)->Ok_0;
            &&& chamfer_done(m, c.1, v, out, keeps_start(), vs, g, m1)
            &&& caps_grown(c, c1, out.len())
            &&& vs.len() == out.len()
            &&& cs[0] == (m1, c1)
            &&& merges_reached(flags_of(out, bs, ds), vs, cs, mvs, out.len() as int)
            &&& cs[out.len() as int] == (n, c2)
        }
}

/// Beveling at vertex `v` fails with `e`: reading its fan, the chamfer
/// (where there is room for it), or a merge.
pub open spec fn vertex_fails<P>(m: MeshModel<P>, c: (nat, nat, nat), v: VertexId, bs: Set<Key>, ds: Set<Key>, e: MeshError) -> bool {
    match m.outgoing_of(v, c.1) {
        Err(e2) => e == e2,
        Ok(out) => !room_in(c, 4 * out.len() + 4) || chamfer_failed(m, c.1, v, out, keeps_start(), e) || exists|
            vs: Seq<VertexId>,
            g: FaceId,
            m1: MeshModel<P>,
            c1: (nat, nat, nat),
            cs: Seq<(MeshModel<P>, (nat, nat, nat))>,
            mvs: Seq<Seq<(VertexId, VertexId)>>,
            k: int,
        |
            #![trigger chamfer_done(m, c.1, v, out, keeps_start(), vs, g, m1), caps_grown(c, c1, out.len()), merges_reached(flags_of(out, bs, ds), vs, cs, mvs, k)]
            chamfer_done(m, c.1, v, out, keeps_start(), vs, g, m1) && caps_grown(c, c1, out.len()) && vs.len()
                == out.len() && cs[0] == (m1, c1) && merges_reached(flags_of(out, bs, ds), vs, cs, mvs, k) && k
                < out.len() && merge_fails(flags_of(out, bs, ds)[k], vs, k, cs[k].0, cs[k].1, mvs[k], e),
    }
}

/// The first `k` vertices of `tseq` beveled in turn, through states `vm`.
pub open spec fn vertices_reached<P>(
    tseq: Seq<Key>,
    bs: Set<Key>,
    ds: Set<Key>,
    vm: Seq<(MeshModel<P>, (nat, nat, nat))>,
    k: int,
) -> bool {
    &&& 0 <= k <= tseq.len()
    &&& vm.len() == k + 1
    &&& forall|j: int|
        0 <= j < k ==> #[trigger] vertex_done(vm[j].0, vm[j].1, VertexId { key: tseq[j] }, bs, ds, vm[j + 1].0, vm[j + 1].1)
}

/// The collecting phase over all of `hs` from `m` (slots `c`) ends in
/// state `sm.last()` with sets `sb.last()`, `sd.last()`, `st.last()`, and
/// `tseq` lists the vertices to chamfer in handle order.
pub open spec fn collected<P>(
    m: MeshModel<P>,
    c: (nat, nat, nat),
    hs: Seq<HalfEdgeId>,
    sm: Seq<(MeshModel<P>, (nat, nat, nat))>,
    sb: Seq<Set<Key>>,
    sd: Seq<Set<Key>>,
    st: Seq<Set<Key>>,
    tseq: Seq<Key>,
) -> bool {
    &&& collect_reached(hs, sm, sb, sd, st, hs.len() as int)
    &&& sm[0] == (m, c)
    &&& sb[0] == Set::<Key>::empty() && sd[0] == Set::<Key>::empty() && st[0] == Set::<Key>::empty()
    &&& sorted_keys(tseq)
    &&& tseq.to_set() == st[hs.len() as int]
}

/// `bevel_edges_connectivity(hs)` on `m` (slots `c`) made `n`: the edges
/// were collected and duplicated, and then each vertex to chamfer, in
/// handle order, was chamfered in place and its chamfer vertices merged as
/// `merges_spec` picks.
pub open spec fn bevel_done<P>(m: MeshModel<P>, c: (nat, nat, nat), hs: Seq<HalfEdgeId>, n: MeshModel<P>) -> bool {
    exists|
        sm: Seq<(MeshModel<P>, (nat, nat, nat))>,
        sb: Seq<Set<Key>>,
        sd: Seq<Set<Key>>,
        st: Seq<Set<Key>>,
        tseq: Seq<Key>,
        vm: Seq<(MeshModel<P>, (nat, nat, nat))>,
    |
        #![trigger collected(m, c, hs, sm, sb, sd, st, tseq), vertices_reached(tseq, sb[hs.len() as int], sd[hs.len() as int], vm, tseq.len() as int)]
        collected(m, c, hs, sm, sb, sd, st, tseq) && vm[0] == sm[hs.len() as int] && vertices_reached(
            tseq,
            sb[hs.len() as int],
            sd[hs.len() as int],
            vm,
            tseq.len() as int,
        ) && vm[tseq.len() as int].0 == n
}

/// `bevel_edges_connectivity(hs)` on `m` fails with `e`: while collecting
/// the edges, or at a vertex, after the steps before succeeded.
pub open spec fn bevel_failed<P>(m: MeshModel<P>, c: (nat, nat, nat), hs: Seq<HalfEdgeId>, e: MeshError) -> bool {
    (exists|
        sm: Seq<(MeshModel<P>, (nat, nat, nat))>,
        sb: Seq<Set<Key>>,
        sd: Seq<Set<Key>>,
        st: Seq<Set<Key>>,
        k: int,
    |
        #![trigger collect_reached(hs, sm, sb, sd, st, k)]
        sm.len() > 0 && sm[0] == (m, c) && sb[0] == Set::<Key>::empty() && collect_reached(hs, sm, sb, sd, st, k) && k
            < hs.len() && collect_fails(sm[k].0, sm[k].1, hs[k], sb[k], e)) || (exists|
        sm: Seq<(MeshModel<P>, (nat, nat, nat))>,
        sb: Seq<Set<Key>>,
        sd: Seq<Set<Key>>,
        st: Seq<Set<Key>>,
        tseq: Seq<Key>,
        vm: Seq<(MeshModel<P>, (nat, nat, nat))>,
        k: int,
    |
        #![trigger collected(m, c, hs, sm, sb, sd, st, tseq), vertices_reached(tseq, sb[hs.len() as int], sd[hs.len() as int], vm, k)]
        collected(m, c, hs, sm, sb, sd, st, tseq) && vm[0] == sm[hs.len() as int] && vertices_reached(
            tseq,
            sb[hs.len() as int],
            sd[hs.len() as int],
            vm,
            k,
        ) && k < tseq.len() && vertex_fails(
            vm[k].0,
            vm[k].1,
            VertexId { key: tseq[k] },
            sb[hs.len() as int],
            sd[hs.len() as int],
            e,
        ))
}

/// The first `k` collecting steps keep twins paired.
pub proof fn lemma_collect_twins<P>(
    hs: Seq<HalfEdgeId>,
    sm: Seq<(MeshModel<P>, (nat, nat, nat))>,
    sb: Seq<Set<Key>>,
    sd: Seq<Set<Key>>,
    st: Seq<Set<Key>>,
    k: int,
)
    requires
        collect_reached(hs, sm, sb, sd, st, k),
        twins_involutive(sm[0].0),
    ensures
        twins_involutive(sm[k].0),
    decreases k,
{
    if k > 0 {
        lemma_collect_twins(hs, sm.take(k), sb.take(k), sd.take(k), st.take(k), k - 1);
        let j = k - 1;
        assert(sm.take(k)[j] == sm[j]);
        assert(collect_step(sm[j].0, sm[j].1, hs[j], sb[j], sd[j], st[j], sm[k].0, sm[k].1, sb[k], sd[k], st[k]));
        let m = sm[j].0;
        let h = hs[j];
        if !sb[j].contains(h.key) && !sb[j].insert(h.key).contains(m.twin_of(h)->Ok_0.key) {
            let a = choose|a: HalfEdgeId|
                #[trigger] dup_done(m, sm[j].1, h, sm[k].0, sm[k].1, a) && sm[k].0.next_of(a) is Ok && sm[k].0.src_dst_of(h) is Ok
                    && sd[k] == sd[j].insert(a.key).insert(sm[k].0.next_of(a)->Ok_0.key) && st[k] == st[j].insert(
                    sm[k].0.src_dst_of(h)->Ok_0.0.key,
                ).insert(sm[k].0.src_dst_of(h)->Ok_0.1.key);
            let vw = m.src_dst_of(h)->Ok_0;
            lemma_duplicate_edge_keeps_twins(m, sm[k].0, h, vw.0, vw.1, a);
        }
    }
}

/// The first `k` merges keep twins paired.
pub proof fn lemma_merges_twins<P>(
    fl: Seq<bool>,
    vs: Seq<VertexId>,
    cs: Seq<(MeshModel<P>, (nat, nat, nat))>,
    mvs: Seq<Seq<(VertexId, VertexId)>>,
    k: int,
)
    requires
        merges_reached(fl, vs, cs, mvs, k),
        twins_involutive(cs[0].0),
    ensures
        twins_involutive(cs[k].0),
    decreases k,
{
    if k > 0 {
        lemma_merges_twins(fl, vs, cs.take(k), mvs.take(k), k - 1);
        let q = k - 1;
        assert(cs.take(k)[q] == cs[q]);
        assert(merge_step(fl[q], vs, q, cs[q].0, cs[q].1, mvs[q], cs[k].0, cs[k].1, mvs[k]));
        if fl[q] {
            let m = cs[q].0;
            let gone = translate(mvs[q], vs[q], mvs[q].len())->Ok_0;
            let keep = translate(mvs[q], ring_next(vs, q, vs.len() as int), mvs[q].len())->Ok_0;
            let h = m.halfedge_to_of(keep, gone, cs[q].1.1)->Ok_0;
            lemma_collapse_edge_keeps_twins(m, h, cs[q].1.1);
        }
    }
}

/// Beveling at one vertex keeps twins paired.
pub proof fn lemma_vertex_twins<P>(
    m: MeshModel<P>,
    c: (nat, nat, nat),
    v: VertexId,
    bs: Set<Key>,
    ds: Set<Key>,
    n: MeshModel<P>,
    c2: (nat, nat, nat),
)
    requires
        twins_involutive(m),
        vertex_done(m, c, v, bs, ds, n, c2),
    ensures
        twins_involutive(n),
{
    let out = m.outgoing_of(v, c.1)->Ok_0;
    let (vs, g, m1, c1, cs, mvs) = choose|
        vs: Seq<VertexId>,
        g: FaceId,
        m1: MeshModel<P>,
        c1: (nat, nat, nat),
        cs: Seq<(MeshModel<P>, (nat, nat, nat))>,
        mvs: Seq<Seq<(VertexId, VertexId)>>,
    |
        #![trigger chamfer_done(m, c.1, v, out, keeps_start(), vs, g, m1), caps_grown(c, c1, out.len()), merges_reached(flags_of(out, bs, ds), vs, cs, mvs, out.len() as int)]
        {
            &&& chamfer_done(m, c.1, v, out, keeps_start(), vs, g, m1)
            &&& caps_grown(c, c1, out.len())
            &&& vs.len() == out.len()
            &&& cs[0] == (m1, c1)
            &&& merges_reached(flags_of(out, bs, ds), vs, cs, mvs, out.len() as int)
            &&& cs[out.len() as int] == (n, c2)
        };
    lemma_chamfer_twins(m, c.1, v, out, keeps_start(), vs, g, m1);
    lemma_merges_twins(flags_of(out, bs, ds), vs, cs, mvs, out.len() as int);
}

/// The first `k` vertices beveled keep twins paired.
pub proof fn lemma_vertices_twins<P>(tseq: Seq<Key>, bs: Set<Key>, ds: Set<Key>, vm: Seq<(MeshModel<P>, (nat, nat, nat))>, k: int)
    requires
        vertices_reached(tseq, bs, ds, vm, k),
        twins_involutive(vm[0].0),
    ensures
        twins_involutive(vm[k].0),
    decreases k,
{
    if k > 0 {
        lemma_vertices_twins(tseq, bs, ds, vm.take(k), k - 1);
        let j = k - 1;
        assert(vm.take(k)[j] == vm[j]);
        assert(vertex_done(vm[j].0, vm[j].1, VertexId { key: tseq[j] }, bs, ds, vm[k].0, vm[k].1));
        lemma_vertex_twins(vm[j].0, vm[j].1, VertexId { key: tseq[j] }, bs, ds, vm[k].0, vm[k].1);
    }
}

/// A bevel keeps twins paired: every step is a primitive that does.
pub proof fn lemma_bevel_keeps_twins<P>(m: MeshModel<P>, c: (nat, nat, nat), hs: Seq<HalfEdgeId>, n: MeshModel<P>)
    requires
        twins_involutive(m),
        bevel_done(m, c, hs, n),
    ensures
        twins_involutive(n),
{
    let (sm, sb, sd, st, tseq, vm) = choose|
        sm: Seq<(MeshModel<P>, (nat, nat, nat))>,
        sb: Seq<Set<Key>>,
        sd: Seq<Set<Key>>,
        st: Seq<Set<Key>>,
        tseq: Seq<Key>,
        vm: Seq<(MeshModel<P>, (nat, nat, nat))>,
    |
        #![trigger collected(m, c, hs, sm, sb, sd, st, tseq), vertices_reached(tseq, sb[hs.len() as int], sd[hs.len() as int], vm, tseq.len() as int)]
        collected(m, c, hs, sm, sb, sd, st, tseq) && vm[0] == sm[hs.len() as int] && vertices_reached(
            tseq,
            sb[hs.len() as int],
            sd[hs.len() as int],
            vm,
            tseq.len() as int,
        ) && vm[tseq.len() as int].0 == n;
    lemma_collect_twins(hs, sm, sb, sd, st, hs.len() as int);
    lemma_vertices_twins(tseq, sb[hs.len() as int], sd[hs.len() as int], vm, tseq.len() as int);
}

/// Bevels at vertex `v`: chamfers it in place, then merges the chamfer
/// vertices that `merges_spec` picks from the beveled set `beveled` and the
/// duplicates `duplicated`.
fn bevel_vertex<P: Copy>(mesh: &mut HalfEdgeMesh<P>, v: VertexId, beveled: &Vec<Key>, duplicated: &Vec<Key>) -> (r:
    Result<(), MeshError>)
    requires
        old(mesh).wf(),
    ensures
        final(mesh).wf(),
        r is Ok ==> vertex_done(
            old(mesh)@,
            old(mesh).caps(),
            v,
            beveled@.to_set(),
            duplicated@.to_set(),
            final(mesh)@,
            final(mesh).caps(),
        ),
        r is Err ==> vertex_fails(old(mesh)@, old(mesh).caps(), v, beveled@.to_set(), duplicated@.to_set(), r->Err_0),
{
    let ghost m = mesh@;
    let ghost c = mesh.caps();
    let ghost bs = beveled@.to_set();
    let ghost ds = duplicated@.to_set();
    let out = mesh.outgoing_halfedges(v)?;
    let n = out.len();
    let ghost fl = flags_of(out@, bs, ds);
    let mut flags: Vec<bool> = Vec::new();
    let mut k: usize = 0;
    while k < n
        invariant
            k <= n,
            n == out@.len(),
            fl == flags_of(out@, bs, ds),
            bs == beveled@.to_set(),
            ds == duplicated@.to_set(),
            flags@ == fl.take(k as int),
        decreases n - k,
    {
        let a = out[k];
        let b = if k + 1 < n { out[k + 1] } else { out[0] };
        let mm = merges(
            has_key(beveled, a.key),
            has_key(duplicated, a.key),
            has_key(beveled, b.key),
            has_key(duplicated, b.key),
        );
        flags.push(mm);
        proof {
            assert(flags@ =~= fl.take(k as int + 1));
        }
        k += 1;
    }
    assert(flags@ =~= fl);
    let keep = |a: P, b: P| -> (r: P)
        ensures
            r == a,
        { a };
    proof {
        assert forall|a: P, c: P, q: P| #[trigger] placed_by(keep)(a, c, q) implies keeps_start::<P>()(a, c, q) by {}
    }
    let (g, list) = match chamfer_vertex(mesh, v, keep) {
        Ok(x) => x,
        Err(e) => {
            proof {
                lemma_chamfer_weaken(m, c.1, v, out@, placed_by(keep), keeps_start(), Seq::empty(), FaceId { key: Key { idx: 0, generation: 0 } }, m, e);
            }
            return Err(e);
        },
    };
    let ghost m1 = mesh@;
    let ghost c1 = mesh.caps();
    proof {
        lemma_chamfer_weaken(m, c.1, v, out@, placed_by(keep), keeps_start(), vertex_items(list), g, m1, MeshError::StaleHandle);
    }
    let new_vs = list.to_vec();
    let nv = new_vs.len();
    let mut moves: Vec<(VertexId, VertexId)> = Vec::new();
    let ghost mut cs: Seq<(MeshModel<P>, (nat, nat, nat))> = seq![(m1, c1)];
    let ghost mut mvs: Seq<Seq<(VertexId, VertexId)>> = seq![Seq::<(VertexId, VertexId)>::empty()];
    let mut q: usize = 0;
    while q < nv && q < flags.len()
        invariant
            mesh.wf(),
            q <= nv,
            nv == new_vs@.len(),
            nv == n,
            flags@ == fl,
            fl.len() == n,
            new_vs@ == vertex_items(list),
            merges_reached(fl, new_vs@, cs, mvs, q as int),
            cs[q as int] == (mesh@, mesh.caps()),
            mvs[q as int] == moves@,
            cs[0] == (m1, c1),
            m == old(mesh)@,
            c == old(mesh).caps(),
            c.1 == old(mesh).walk_bound(),
            m.outgoing_of(v, c.1) == Ok::<Seq<HalfEdgeId>, MeshError>(out@),
            fl == flags_of(out@, bs, ds),
            bs == beveled@.to_set(),
            ds == duplicated@.to_set(),
            chamfer_done(m, c.1, v, out@, keeps_start(), vertex_items(list), g, m1),
            caps_grown(c, c1, out@.len()),
            vertex_items(list).len() == n,
        decreases nv - q,
    {
        let ghost mq = mesh@;
        let ghost cq = mesh.caps();
        if flags[q] {
            let keep = if q + 1 < nv { new_vs[q + 1] } else { new_vs[0] };
            assert(keep == ring_next(new_vs@, q as int, nv as int));
            let gone = match translated(&moves, new_vs[q]) {
                Ok(x) => x,
                Err(e) => {
                    assert(merge_fails(fl[q as int], new_vs@, q as int, mq, cq, moves@, e));
                    assert(vertex_fails(m, c, v, bs, ds, e));
                    return Err(e);
                },
            };
            let keep = match translated(&moves, keep) {
                Ok(x) => x,
                Err(e) => {
                    assert(merge_fails(fl[q as int], new_vs@, q as int, mq, cq, moves@, e));
                    assert(vertex_fails(m, c, v, bs, ds, e));
                    return Err(e);
                },
            };
            let h = match mesh.halfedge_to(keep, gone) {
                Ok(x) => x,
                Err(e) => {
                    assert(merge_fails(fl[q as int], new_vs@, q as int, mq, cq, moves@, e));
                    assert(vertex_fails(m, c, v, bs, ds, e));
                    return Err(e);
                },
            };
            match collapse_edge(mesh, h) {
                Ok(_) => {},
                Err(e) => {
                    assert(merge_fails(fl[q as int], new_vs@, q as int, mq, cq, moves@, e));
                    assert(vertex_fails(m, c, v, bs, ds, e));
                    return Err(e);
                },
            }
            moves.push((gone, keep));
        }
        proof {
            assert(merge_step(fl[q as int], new_vs@, q as int, mq, cq, mvs[q as int], mesh@, mesh.caps(), moves@));
            let cs0 = cs;
            let mvs0 = mvs;
            cs = cs.push((mesh@, mesh.caps()));
            mvs = mvs.push(moves@);
            assert forall|j: int| 0 <= j < q + 1 implies #[trigger] merge_step(
                fl[j],
                new_vs@,
                j,
                cs[j].0,
                cs[j].1,
                mvs[j],
                cs[j + 1].0,
                cs[j + 1].1,
                mvs[j + 1],
            ) by {
                if j < q {
                    assert(cs[j] == cs0[j] && cs[j + 1] == cs0[j + 1] && mvs[j] == mvs0[j] && mvs[j + 1] == mvs0[j + 1]);
                    assert(merge_step(fl[j], new_vs@, j, cs0[j].0, cs0[j].1, mvs0[j], cs0[j + 1].0, cs0[j + 1].1, mvs0[j + 1]));
                }
            }
            assert(merges_reached(fl, new_vs@, cs, mvs, q as int + 1));
        }
        q += 1;
    }
    assert(vertex_done(m, c, v, bs, ds, mesh@, mesh.caps()));
    Ok(())
}

/// Rewrites the connectivity for a bevel of the edges of `halfedges`: each
/// edge gets a two-sided face inside it, each endpoint is chamfered in place,
/// and the chamfer vertices between edges that stay joined are merged again.
/// Returns, in handle order, the beveled half-edges: the given ones and
/// their twins. No edge given leaves the mesh as it is.
pub fn bevel_edges_connectivity<P: Copy>(mesh: &mut HalfEdgeMesh<P>, halfedges: &Vec<HalfEdgeId>) -> (r: Result<
    Vec<HalfEdgeId>,
    MeshError,
>)
    requires
        old(mesh).wf(),
    ensures
        final(mesh).wf(),
        halfedges@.len() == 0 ==> r is Ok && r->Ok_0@.len() == 0 && final(mesh)@ == old(mesh)@,
        r is Ok ==> forall|i: int| 0 <= i < halfedges@.len() ==> (#[trigger] r->Ok_0@.contains(halfedges@[i])),
        r is Ok ==> forall|i: int, j: int|
            0 <= i < j < r->Ok_0@.len() ==> key_before(r->Ok_0@[i].key, r->Ok_0@[j].key),
        r is Ok && twins_involutive(old(mesh)@) && (forall|i: int|
            0 <= i < halfedges@.len() ==> old(mesh)@.hes.contains_key(#[trigger] halfedges@[i])) ==> forall|
            x: HalfEdgeId,
        | #[trigger] r->Ok_0@.contains(x) <==> beveled_by(old(mesh)@, halfedges@, halfedges@.len() as int, x),
        twins_involutive(old(mesh)@) && r is Ok ==> twins_involutive(final(mesh)@),
        r is Ok ==> bevel_done(old(mesh)@, old(mesh).caps(), halfedges@, final(mesh)@),
        r is Err ==> bevel_failed(old(mesh)@, old(mesh).caps(), halfedges@, r->Err_0),
{
    let ghost m0 = mesh@;
    let ghost c0 = mesh.caps();
    let mut beveled: Vec<Key> = Vec::new();
    let mut duplicated: Vec<Key> = Vec::new();
    let mut to_chamfer: Vec<Key> = Vec::new();
    let ghost mut sm: Seq<(MeshModel<P>, (nat, nat, nat))> = seq![(m0, c0)];
    let ghost mut sb: Seq<Set<Key>> = seq![Set::<Key>::empty()];
    let ghost mut sd: Seq<Set<Key>> = seq![Set::<Key>::empty()];
    let ghost mut st: Seq<Set<Key>> = seq![Set::<Key>::empty()];
    assert(beveled@.to_set() =~= Set::<Key>::empty());
    assert(duplicated@.to_set() =~= Set::<Key>::empty());
    assert(to_chamfer@.to_set() =~= Set::<Key>::empty());

    // Duplicate each edge once.
    let mut i: usize = 0;
    while i < halfedges.len()
        invariant
            mesh.wf(),
            i <= halfedges@.len(),
            sorted_keys(beveled@),
            sorted_keys(duplicated@),
            sorted_keys(to_chamfer@),
            forall|j: int| 0 <= j < i ==> beveled@.contains(#[trigger] halfedges@[j].key),
            i == 0 ==> beveled@.len() == 0 && to_chamfer@.len() == 0 && mesh@ == old(mesh)@,
            m0 == old(mesh)@,
            forall|g: HalfEdgeId| #[trigger] m0.hes.contains_key(g) ==> mesh@.hes.contains_key(g),
            twins_involutive(m0) ==> forall|g: HalfEdgeId|
                m0.hes.contains_key(g) && !beveled@.contains(g.key) ==> #[trigger] mesh@.twin_of(g) == m0.twin_of(g),
            twins_involutive(m0) && (forall|j: int| 0 <= j < i ==> m0.hes.contains_key(#[trigger] halfedges@[j]))
                ==> forall|k: Key| #[trigger] beveled@.contains(k) <==> beveled_by(m0, halfedges@, i as int, HalfEdgeId { key: k }),
            c0 == old(mesh).caps(),
            collect_reached(halfedges@, sm, sb, sd, st, i as int),
            sm[0] == (m0, c0),
            sb[0] == Set::<Key>::empty() && sd[0] == Set::<Key>::empty() && st[0] == Set::<Key>::empty(),
            sm[i as int] == (mesh@, mesh.caps()),
            sb[i as int] == beveled@.to_set(),
            sd[i as int] == duplicated@.to_set(),
            st[i as int] == to_chamfer@.to_set(),
        decreases halfedges@.len() - i,
    {
        let h = halfedges[i];
        let ghost pre = beveled@;
        let ghost mcur = mesh@;
        let ghost ccur = mesh.caps();
        let ghost pre_d = duplicated@.to_set();
        let ghost pre_t = to_chamfer@.to_set();
        let first = insert_key(&mut beveled, h.key);
        let ghost mid = beveled@;
        let mut tw: Option<HalfEdgeId> = None;
        let fresh = if first {
            let t = match mesh.twin(h) {
                Ok(t) => t,
                Err(e) => {
                    proof {
                        assert(collect_fails(mcur, ccur, h, pre.to_set(), e));
                        assert(bevel_failed(m0, c0, halfedges@, e));
                    }
                    return Err(e);
                },
            };
            tw = Some(t);
            insert_key(&mut beveled, t.key)
        } else {
            false
        };
        proof {
            if first && twins_involutive(m0) && m0.hes.contains_key(h) {
                assert(!pre.contains(h.key));
                assert(mcur.twin_of(h) == m0.twin_of(h));
            }
            lemma_beveled_step(m0, halfedges@, i as int, pre, beveled@, h, first, tw);
            assert forall|k: Key| pre.contains(k) implies #[trigger] beveled@.contains(k) by {
                assert(pre.to_set().contains(k));
                assert(beveled@.to_set().contains(k));
            }
            assert(beveled@.to_set().contains(h.key));
            if first {
                assert(beveled@.to_set().contains(tw->Some_0.key));
            }
        }
        let ghost after_sets = beveled@;
        if fresh {
            if !mesh.room_for(2) {
                proof {
                    assert(collect_fails(mcur, ccur, h, pre.to_set(), MeshError::CapacityExhausted));
                    assert(bevel_failed(m0, c0, halfedges@, MeshError::CapacityExhausted));
                }
                return Err(MeshError::CapacityExhausted);
            }
            let ghost mprev = mesh@;
            let d = match duplicate_edge(mesh, h) {
                Ok(d) => d,
                Err(e) => {
                    proof {
                        assert(collect_fails(mcur, ccur, h, pre.to_set(), e));
                        assert(bevel_failed(m0, c0, halfedges@, e));
                    }
                    return Err(e);
                },
            };
            let ghost mdup = mesh@;
            let ghost cdup = mesh.caps();
            proof {
                let t = tw->Some_0;
                assert(mprev.twin_of(h) == Ok::<HalfEdgeId, MeshError>(t));
                lemma_duplicate_frame(mprev, mesh@, h, d, after_sets);
                if twins_involutive(m0) {
                    assert forall|g: HalfEdgeId|
                        m0.hes.contains_key(g) && !beveled@.contains(g.key) implies #[trigger] mesh@.twin_of(g)
                        == m0.twin_of(g) by {
                        assert(!pre.contains(g.key));
                        assert(g != h);
                        assert(g != t);
                        assert(mprev.twin_of(g) == m0.twin_of(g));
                    }
                }
            }
            assert(dup_done(mcur, ccur, h, mdup, cdup, d));
            insert_key(&mut duplicated, d.key);
            let dn = match mesh.next(d) {
                Ok(x) => x,
                Err(e) => {
                    proof {
                        assert(collect_fails(mcur, ccur, h, pre.to_set(), e));
                        assert(bevel_failed(m0, c0, halfedges@, e));
                    }
                    return Err(e);
                },
            };
            insert_key(&mut duplicated, dn.key);
            let (a, b) = match mesh.src_dst_pair(h) {
                Ok(x) => x,
                Err(e) => {
                    proof {
                        assert(collect_fails(mcur, ccur, h, pre.to_set(), e));
                        assert(bevel_failed(m0, c0, halfedges@, e));
                    }
                    return Err(e);
                },
            };
            insert_key(&mut to_chamfer, a.key);
            insert_key(&mut to_chamfer, b.key);
        }
        proof {
            if !first {
                assert(beveled@.to_set() =~= pre.to_set());
            }
            assert(collect_step(
                mcur,
                ccur,
                h,
                pre.to_set(),
                pre_d,
                pre_t,
                mesh@,
                mesh.caps(),
                beveled@.to_set(),
                duplicated@.to_set(),
                to_chamfer@.to_set(),
            ));
            let sm0 = sm;
            let sb0 = sb;
            let sd0 = sd;
            let st0 = st;
            sm = sm.push((mesh@, mesh.caps()));
            sb = sb.push(beveled@.to_set());
            sd = sd.push(duplicated@.to_set());
            st = st.push(to_chamfer@.to_set());
            assert forall|j: int| 0 <= j < i + 1 implies #[trigger] collect_step(
                sm[j].0,
                sm[j].1,
                halfedges@[j],
                sb[j],
                sd[j],
                st[j],
                sm[j + 1].0,
                sm[j + 1].1,
                sb[j + 1],
                sd[j + 1],
                st[j + 1],
            ) by {
                if j < i {
                    assert(sm[j] == sm0[j] && sm[j + 1] == sm0[j + 1] && sb[j] == sb0[j] && sb[j + 1] == sb0[j + 1]);
                    assert(sd[j] == sd0[j] && sd[j + 1] == sd0[j + 1] && st[j] == st0[j] && st[j + 1] == st0[j + 1]);
                    assert(collect_step(
                        sm0[j].0,
                        sm0[j].1,
                        halfedges@[j],
                        sb0[j],
                        sd0[j],
                        st0[j],
                        sm0[j + 1].0,
                        sm0[j + 1].1,
                        sb0[j + 1],
                        sd0[j + 1],
                        st0[j + 1],
                    ));
                }
            }
            assert(collect_reached(halfedges@, sm, sb, sd, st, i as int + 1));
        }
        proof {
            assert forall|j: int| 0 <= j < i + 1 implies beveled@.contains(#[trigger] halfedges@[j].key) by {
                assert(beveled@.to_set().contains(halfedges@[j].key));
            }
        }
        i += 1;
    }

    let mut result: Vec<HalfEdgeId> = Vec::new();
    let mut j: usize = 0;
    while j < beveled.len()
        invariant
            j <= beveled@.len(),
            result@ == Seq::new(j as nat, |x: int| HalfEdgeId { key: beveled@[x] }),
        decreases beveled@.len() - j,
    {
        result.push(HalfEdgeId { key: beveled[j] });
        j += 1;
    }
    proof {
        assert forall|x: int| 0 <= x < halfedges@.len() implies #[trigger] result@.contains(halfedges@[x]) by {
            assert(beveled@.contains(halfedges@[x].key));
            let y = choose|y: int| 0 <= y < beveled@.len() && beveled@[y] == halfedges@[x].key;
            assert(result@[y] == halfedges@[x]);
        }
        if twins_involutive(m0) && (forall|q: int| 0 <= q < halfedges@.len() ==> m0.hes.contains_key(#[trigger] halfedges@[q])) {
            assert forall|x: HalfEdgeId| #[trigger] result@.contains(x) <==> beveled_by(m0, halfedges@, halfedges@.len() as int, x) by {
                if result@.contains(x) {
                    let y = choose|y: int| 0 <= y < result@.len() && result@[y] == x;
                    assert(beveled@.contains(beveled@[y]));
                }
                if beveled_by(m0, halfedges@, halfedges@.len() as int, x) {
                    assert(beveled@.contains(x.key));
                    let y = choose|y: int| 0 <= y < beveled@.len() && beveled@[y] == x.key;
                    assert(result@[y] == x);
                }
            }
        }
        if halfedges@.len() == 0 {
            assert(result@ =~= Seq::<HalfEdgeId>::empty());
        }
    }

    // Chamfer each endpoint in place, then merge what stays joined.
    let ghost nh = halfedges@.len() as int;
    assert(collected(m0, c0, halfedges@, sm, sb, sd, st, to_chamfer@));
    let ghost mut vm: Seq<(MeshModel<P>, (nat, nat, nat))> = seq![(mesh@, mesh.caps())];
    let mut c: usize = 0;
    while c < to_chamfer.len()
        invariant
            mesh.wf(),
            c <= to_chamfer@.len(),
            halfedges@.len() == 0 ==> beveled@.len() == 0 && to_chamfer@.len() == 0 && mesh@ == old(mesh)@,
            m0 == old(mesh)@,
            c0 == old(mesh).caps(),
            nh == halfedges@.len(),
            collected(m0, c0, halfedges@, sm, sb, sd, st, to_chamfer@),
            sb[nh] == beveled@.to_set(),
            sd[nh] == duplicated@.to_set(),
            vm[0] == sm[nh],
            vertices_reached(to_chamfer@, sb[nh], sd[nh], vm, c as int),
            vm[c as int] == (mesh@, mesh.caps()),
        decreases to_chamfer@.len() - c,
    {
        let v = VertexId { key: to_chamfer[c] };
        let ghost mc = mesh@;
        let ghost cc = mesh.caps();
        match bevel_vertex(mesh, v, &beveled, &duplicated) {
            Ok(()) => {},
            Err(e) => {
                proof {
                    assert(vertex_fails(vm[c as int].0, vm[c as int].1, VertexId { key: to_chamfer@[c as int] }, sb[nh], sd[nh], e));
                    assert(bevel_failed(m0, c0, halfedges@, e));
                }
                return Err(e);
            },
        }
        proof {
            let vm0 = vm;
            vm = vm.push((mesh@, mesh.caps()));
            assert forall|j: int| 0 <= j < c + 1 implies #[trigger] vertex_done(
                vm[j].0,
                vm[j].1,
                VertexId { key: to_chamfer@[j] },
                sb[nh],
                sd[nh],
                vm[j + 1].0,
                vm[j + 1].1,
            ) by {
                if j < c {
                    assert(vm[j] == vm0[j] && vm[j + 1] == vm0[j + 1]);
                    assert(vertex_done(vm0[j].0, vm0[j].1, VertexId { key: to_chamfer@[j] }, sb[nh], sd[nh], vm0[j + 1].0, vm0[j + 1].1));
                }
            }
            assert(vertices_reached(to_chamfer@, sb[nh], sd[nh], vm, c as int + 1));
        }
        c += 1;
    }
    assert(bevel_done(m0, c0, halfedges@, mesh@));
    proof {
        if twins_involutive(m0) {
            lemma_bevel_keeps_twins(m0, c0, halfedges@, mesh@);
        }
    }

    Ok(result)
}

/// The vertex before `v` along the edge loop through the edge from `v` to
/// `w`: the start of `previous(twin(previous(h)))` for that half-edge `h`.
pub open spec fn loop_neighbour_of<P>(m: MeshModel<P>, v: VertexId, w: VertexId, b: nat) -> Result<VertexId, MeshError> {
    match m.halfedge_to_of(v, w, b) {
        Err(e) => Err(e),
        Ok(h) => match m.previous_of(h, b) {
            Err(e) => Err(e),
            Ok(p) => match m.twin_of(p) {
                Err(e) => Err(e),
                Ok(t) => match m.previous_of(t, b) {
                    Err(e) => Err(e),
                    Ok(q) => m.vertex_of(q),
                },
            },
        },
    }
}

/// After both splits of `split_edge`, with new vertices `x1` (from `v`) and
/// `x2` (from `w`): finding the edge from `x2` to `v`, dissolving it, or
/// finding the edge from `x1` to `x2` fails with `e`.
pub open spec fn split_edge_tail_fails<P>(m2: MeshModel<P>, b2: nat, v: VertexId, x1: VertexId, x2: VertexId, e: MeshError) -> bool {
    match m2.halfedge_to_of(x2, v, b2) {
        Err(e2) => e == e2,
        Ok(arc) => match dissolve_edge_plan(m2, arc, b2) {
            Err(e2) => e == e2,
            Ok(p) => dissolve_edge_result(m2, arc, p).halfedge_to_of(x1, x2, b2) == Err::<HalfEdgeId, MeshError>(e),
        },
    }
}

/// After the first split of `split_edge` made `x1`, in `m1`: the second
/// split, of `w`, or what follows it fails with `e`.
pub open spec fn split_edge_second_fails<P, F: Fn(P) -> P>(
    m1: MeshModel<P>,
    b1: nat,
    v: VertexId,
    w: VertexId,
    wn: VertexId,
    pw: P,
    x1: VertexId,
    offset: F,
    e: MeshError,
) -> bool {
    match split_vertex_plan(m1, w, v, wn, b1) {
        Err(e2) => e == e2,
        Ok(p2) => exists|m2: MeshModel<P>, b2: nat, q2: P, x2: VertexId|
            #![trigger split_done(m1, m2, w, v, wn, q2, p2, x2), split_edge_tail_fails(m2, b2, v, x1, x2, e)]
            b1 <= b2 <= b1 + 6 && offset.ensures((pw,), q2) && split_done(m1, m2, w, v, wn, q2, p2, x2)
                && split_edge_tail_fails(m2, b2, v, x1, x2, e),
    }
}

/// `split_edge(h)` on `m` fails with `e` at one of its steps, after the
/// steps before it succeeded: a read, the split of either end, or the
/// dissolve between them.
pub open spec fn split_edge_failed<P, F: Fn(P) -> P>(m: MeshModel<P>, b: nat, h: HalfEdgeId, offset: F, e: MeshError) -> bool {
    match m.src_dst_of(h) {
        Err(e2) => e == e2,
        Ok(vw) => match loop_neighbour_of(m, vw.0, vw.1, b) {
            Err(e2) => e == e2,
            Ok(vp) => match loop_neighbour_of(m, vw.1, vw.0, b) {
                Err(e2) => e == e2,
                Ok(wn) => match split_vertex_plan(m, vw.0, vp, vw.1, b) {
                    Err(e2) => e == e2,
                    Ok(p1) => exists|m1: MeshModel<P>, b1: nat, q1: P, x1: VertexId|
                        #![trigger split_done(m, m1, vw.0, vp, vw.1, q1, p1, x1), split_edge_second_fails(m1, b1, vw.0, vw.1, wn, m.verts[vw.1].position, x1, offset, e)]
                        b <= b1 <= b + 6 && offset.ensures((m.verts[vw.0].position,), q1) && split_done(
                            m,
                            m1,
                            vw.0,
                            vp,
                            vw.1,
                            q1,
                            p1,
                            x1,
                        ) && split_edge_second_fails(m1, b1, vw.0, vw.1, wn, m.verts[vw.1].position, x1, offset, e),
                },
            },
        },
    }
}

/// After both splits of `split_edge`, with new vertices `x1` and `x2` in
/// `m2`: the edge from `x2` to `v` is dissolved, giving `n`, in which `r`
/// is the edge from `x1` to `x2`.
pub open spec fn split_edge_tail_done<P>(
    m2: MeshModel<P>,
    b2: nat,
    v: VertexId,
    x1: VertexId,
    x2: VertexId,
    r: HalfEdgeId,
    n: MeshModel<P>,
) -> bool {
    match m2.halfedge_to_of(x2, v, b2) {
        Err(_) => false,
        Ok(arc) => match dissolve_edge_plan(m2, arc, b2) {
            Err(_) => false,
            Ok(p) => n == dissolve_edge_result(m2, arc, p) && n.halfedge_to_of(x1, x2, b2) == Ok::<
                HalfEdgeId,
                MeshError,
            >(r),
        },
    }
}

/// After the first split of `split_edge` made `x1` in `m1`: the second
/// split, of `w`, and what follows it give `n` and `r`.
pub open spec fn split_edge_second_done<P, F: Fn(P) -> P>(
    m1: MeshModel<P>,
    b1: nat,
    v: VertexId,
    w: VertexId,
    wn: VertexId,
    pw: P,
    x1: VertexId,
    offset: F,
    r: HalfEdgeId,
    n: MeshModel<P>,
) -> bool {
    match split_vertex_plan(m1, w, v, wn, b1) {
        Err(_) => false,
        Ok(p2) => exists|m2: MeshModel<P>, b2: nat, q2: P, x2: VertexId|
            #![trigger split_done(m1, m2, w, v, wn, q2, p2, x2), split_edge_tail_done(m2, b2, v, x1, x2, r, n)]
            b1 <= b2 <= b1 + 6 && offset.ensures((pw,), q2) && split_done(m1, m2, w, v, wn, q2, p2, x2)
                && split_edge_tail_done(m2, b2, v, x1, x2, r, n),
    }
}

/// `split_edge(h)` on `m` made `n` and returned `r`: every step succeeded,
/// in order, as its primitive's model says.
pub open spec fn split_edge_done<P, F: Fn(P) -> P>(
    m: MeshModel<P>,
    b: nat,
    h: HalfEdgeId,
    offset: F,
    r: HalfEdgeId,
    n: MeshModel<P>,
) -> bool {
    match m.src_dst_of(h) {
        Err(_) => false,
        Ok(vw) => match loop_neighbour_of(m, vw.0, vw.1, b) {
            Err(_) => false,
            Ok(vp) => match loop_neighbour_of(m, vw.1, vw.0, b) {
                Err(_) => false,
                Ok(wn) => match split_vertex_plan(m, vw.0, vp, vw.1, b) {
                    Err(_) => false,
                    Ok(p1) => exists|m1: MeshModel<P>, b1: nat, q1: P, x1: VertexId|
                        #![trigger split_done(m, m1, vw.0, vp, vw.1, q1, p1, x1), split_edge_second_done(m1, b1, vw.0, vw.1, wn, m.verts[vw.1].position, x1, offset, r, n)]
                        b <= b1 <= b + 6 && offset.ensures((m.verts[vw.0].position,), q1) && split_done(
                            m,
                            m1,
                            vw.0,
                            vp,
                            vw.1,
                            q1,
                            p1,
                            x1,
                        ) && split_edge_second_done(m1, b1, vw.0, vw.1, wn, m.verts[vw.1].position, x1, offset, r, n),
                },
            },
        },
    }
}

fn loop_neighbour<P: Copy>(mesh: &HalfEdgeMesh<P>, v: VertexId, w: VertexId) -> (r: Result<VertexId, MeshError>)
    ensures
        r == loop_neighbour_of(mesh@, v, w, mesh.walk_bound()),
{
    let h = mesh.halfedge_to(v, w)?;
    let p = mesh.previous(h)?;
    let t = mesh.twin(p)?;
    let q = mesh.previous(t)?;
    mesh.src_vertex(q)
}

/// `a` and `b` are the vertices that splitting the edge from `vw.0` to
/// `vw.1` of `m` added to make `n`: fresh and distinct, placed by `offset`
/// from the positions of `vw.0` and `vw.1`; no other vertex is added or
/// removed, and the old vertices keep their positions.
pub open spec fn edge_split_vertices<P, F: Fn(P) -> P>(
    m: MeshModel<P>,
    n: MeshModel<P>,
    vw: (VertexId, VertexId),
    a: VertexId,
    b: VertexId,
    offset: F,
) -> bool {
    &&& a != b
    &&& !m.verts.contains_key(a)
    &&& !m.verts.contains_key(b)
    &&& n.verts.dom() == m.verts.dom().insert(a).insert(b)
    &&& offset.ensures((m.verts[vw.0].position,), n.verts[a].position)
    &&& offset.ensures((m.verts[vw.1].position,), n.verts[b].position)
    &&& forall|u: VertexId| #[trigger] m.verts.contains_key(u) ==> n.verts[u].position == m.verts[u].position
}

/// Splits both ends of the edge of `h` along its edge loop, each new vertex
/// placed by `offset` from the position of the vertex it splits from, and
/// dissolves the edge left between the two splits. Returns the half-edge
/// from the first split vertex to the second.
pub fn split_edge<P: Copy, F: Fn(P) -> P>(mesh: &mut HalfEdgeMesh<P>, h: HalfEdgeId, offset: F) -> (r: Result<
    HalfEdgeId,
    MeshError,
>)
    requires
        old(mesh).wf(),
        forall|p: P| offset.requires((p,)),
    ensures
        final(mesh).wf(),
        old(mesh)@.src_dst_of(h) is Err ==> r == Err::<HalfEdgeId, MeshError>(old(mesh)@.src_dst_of(h)->Err_0)
            && final(mesh)@ == old(mesh)@,
        r is Err && old(mesh).has_room(12) ==> split_edge_failed(old(mesh)@, old(mesh).walk_bound(), h, offset, r->Err_0),
        r is Ok ==> split_edge_done(old(mesh)@, old(mesh).walk_bound(), h, offset, r->Ok_0, final(mesh)@),
        r is Ok ==> final(mesh)@.hes.contains_key(r->Ok_0),
        r is Ok ==> final(mesh)@.dst_of(r->Ok_0) is Ok && !old(mesh)@.verts.contains_key(
            final(mesh)@.dst_of(r->Ok_0)->Ok_0,
        ),
        r is Ok ==> old(mesh)@.src_dst_of(h) is Ok && exists|a: VertexId, b: VertexId|
            #[trigger] edge_split_vertices(old(mesh)@, final(mesh)@, old(mesh)@.src_dst_of(h)->Ok_0, a, b, offset)
                && final(mesh)@.dst_of(r->Ok_0) == Ok::<VertexId, MeshError>(b),
{
    let ghost m0 = mesh@;
    let ghost b0 = mesh.walk_bound();
    let (v, w) = mesh.src_dst_pair(h)?;
    let v_prev = loop_neighbour(mesh, v, w)?;
    let w_next = loop_neighbour(mesh, w, v)?;
    let pv = mesh.vertex_position(v)?;
    let pw = mesh.vertex_position(w)?;
    if !mesh.room_for(12) {
        return Err(MeshError::CapacityExhausted);
    }
    let qv = offset(pv);
    let qw = offset(pw);
    let v_split = split_vertex(mesh, v, v_prev, w, qv)?;
    let ghost m1 = mesh@;
    let ghost b1 = mesh.walk_bound();
    let w_split = match split_vertex(mesh, w, v, w_next, qw) {
        Ok(x) => x,
        Err(e) => {
            assert(split_edge_second_fails(m1, b1, v, w, w_next, pw, v_split, offset, e));
            assert(split_done(m0, m1, v, v_prev, w, qv, split_vertex_plan(m0, v, v_prev, w, b0)->Ok_0, v_split));
            return Err(e);
        },
    };
    let ghost m2 = mesh@;
    let ghost b2 = mesh.walk_bound();
    assert(split_done(m0, m1, v, v_prev, w, qv, split_vertex_plan(m0, v, v_prev, w, b0)->Ok_0, v_split));
    assert(split_done(m1, m2, w, v, w_next, qw, split_vertex_plan(m1, w, v, w_next, b1)->Ok_0, w_split));
    assert(!m0.verts.contains_key(w_split)) by {
        assert(m1.verts.dom() == m0.verts.dom().insert(v_split));
        assert(!m1.verts.contains_key(w_split));
    }
    let arc = match mesh.halfedge_to(w_split, v) {
        Ok(x) => x,
        Err(e) => {
            assert(split_edge_tail_fails(m2, b2, v, v_split, w_split, e));
            assert(split_edge_second_fails(m1, b1, v, w, w_next, pw, v_split, offset, e));
            return Err(e);
        },
    };
    match dissolve_edge(mesh, arc) {
        Ok(_) => {},
        Err(e) => {
            assert(split_edge_tail_fails(m2, b2, v, v_split, w_split, e));
            assert(split_edge_second_fails(m1, b1, v, w, w_next, pw, v_split, offset, e));
            return Err(e);
        },
    }
    assert(mesh.walk_bound() == b2);
    proof {
        assert(mesh@.verts.dom() =~= m0.verts.dom().insert(v_split).insert(w_split));
        assert forall|u: VertexId| #[trigger] m0.verts.contains_key(u) implies mesh@.verts[u].position
            == m0.verts[u].position by {
            assert(m1.verts.contains_key(u));
            assert(m2.verts.contains_key(u));
        }
        assert(m1.verts.contains_key(v_split));
        assert(m2.verts.contains_key(v_split));
        assert(edge_split_vertices(m0, mesh@, (v, w), v_split, w_split, offset));
    }
    let e = match mesh.halfedge_to(v_split, w_split) {
        Ok(x) => x,
        Err(e) => {
            assert(split_edge_tail_fails(m2, b2, v, v_split, w_split, e));
            assert(split_edge_second_fails(m1, b1, v, w, w_next, pw, v_split, offset, e));
            return Err(e);
        },
    };
    proof {
        assert(split_edge_tail_done(m2, b2, v, v_split, w_split, e, mesh@));
        assert(split_edge_second_done(m1, b1, v, w, w_next, pw, v_split, offset, e, mesh@));
        assert(split_edge_done(m0, b0, h, offset, e, mesh@));
        let m = mesh@;
        m.lemma_cycle_live(m.vertex_halfedge_of(v_split)->Ok_0, true, mesh.walk_bound());
        let s = m.outgoing_of(v_split, mesh.walk_bound())->Ok_0;
        lemma_first_to_in(m, s, w_split, 0);
        lemma_first_to_dst(m, s, w_split, 0);
    }
    Ok(e)
}

/// What `first_to` finds ends at the vertex asked for.
pub proof fn lemma_first_to_dst<P>(m: crate::mesh::MeshModel<P>, s: Seq<HalfEdgeId>, w: VertexId, i: nat)
    ensures
        m.first_to(s, w, i) is Some ==> m.dst_of(m.first_to(s, w, i)->Some_0) == Ok::<VertexId, MeshError>(w),
    decreases s.len() - i,
{
    if i < s.len() {
        lemma_first_to_dst(m, s, w, i + 1);
    }
}

/// What `first_to` finds is an entry of the list.
pub proof fn lemma_first_to_in<P>(m: crate::mesh::MeshModel<P>, s: Seq<HalfEdgeId>, w: VertexId, i: nat)
    ensures
        m.first_to(s, w, i) is Some ==> s.contains(m.first_to(s, w, i)->Some_0),
    decreases s.len() - i,
{
    if i < s.len() {
        lemma_first_to_in(m, s, w, i + 1);
        if m.dst_of(s[i as int]) == Ok::<VertexId, MeshError>(w) {
            assert(s[i as int] == m.first_to(s, w, i)->Some_0);
        }
    }
}

/// Whether every read that a bevel pull of `h` makes succeeds: its ends,
/// its predecessor's start, and the start of its successor's successor.
pub open spec fn pull_reads_ok<P>(m: crate::mesh::MeshModel<P>, h: HalfEdgeId, b: nat) -> bool {
    &&& m.src_dst_of(h) is Ok
    &&& m.previous_of(h, b) is Ok
    &&& m.vertex_of(m.previous_of(h, b)->Ok_0) is Ok
    &&& m.next_of(h) is Ok
    &&& m.next_of(m.next_of(h)->Ok_0) is Ok
    &&& m.vertex_of(m.next_of(m.next_of(h)->Ok_0)->Ok_0) is Ok
}

/// The reads of one bevel pull: the ends of `h`, the start of its
/// predecessor, and the start of its successor's successor.
fn pull_reads<P: Copy>(mesh: &HalfEdgeMesh<P>, h: HalfEdgeId) -> (r: Result<
    (VertexId, VertexId, VertexId, VertexId),
    MeshError,
>)
    ensures
        r is Ok <==> pull_reads_ok(mesh@, h, mesh.walk_bound()),
        r is Ok ==> r->Ok_0 == (
            mesh@.src_dst_of(h)->Ok_0.0,
            mesh@.src_dst_of(h)->Ok_0.1,
            mesh@.vertex_of(mesh@.previous_of(h, mesh.walk_bound())->Ok_0)->Ok_0,
            mesh@.vertex_of(mesh@.next_of(mesh@.next_of(h)->Ok_0)->Ok_0)->Ok_0,
        ),
{
    let (v, w) = mesh.src_dst_pair(h)?;
    let p = mesh.previous(h)?;
    let v_to = mesh.src_vertex(p)?;
    let n = mesh.next(h)?;
    let nn = mesh.next(n)?;
    let w_to = mesh.src_vertex(nn)?;
    Ok((v, w, v_to, w_to))
}

/// For a bevel's geometry: for each beveled half-edge `h`, the start of `h`
/// is pulled toward the start of `previous(h)`, and the end of `h` toward
/// the start of `next(next(h))`. Gives (vertex, pulled toward) pairs, two
/// per half-edge, in order.
pub fn bevel_pulls<P: Copy>(mesh: &HalfEdgeMesh<P>, beveled: &Vec<HalfEdgeId>) -> (r: Result<
    Vec<(VertexId, VertexId)>,
    MeshError,
>)
    ensures
        r is Ok <==> forall|i: int| 0 <= i < beveled@.len() ==> pull_reads_ok(mesh@, #[trigger] beveled@[i], mesh.walk_bound()),
        r is Ok ==> r->Ok_0@.len() == 2 * beveled@.len() && forall|i: int|
            0 <= i < beveled@.len() ==> {
                let h = #[trigger] beveled@[i];
                let m = mesh@;
                let b = mesh.walk_bound();
                &&& m.src_dst_of(h) is Ok
                &&& r->Ok_0@[2 * i] == (m.src_dst_of(h)->Ok_0.0, m.vertex_of(m.previous_of(h, b)->Ok_0)->Ok_0)
                &&& r->Ok_0@[2 * i + 1] == (m.src_dst_of(h)->Ok_0.1, m.vertex_of(
                    m.next_of(m.next_of(h)->Ok_0)->Ok_0,
                )->Ok_0)
            },
{
    let mut out: Vec<(VertexId, VertexId)> = Vec::new();
    let mut i: usize = 0;
    while i < beveled.len()
        invariant
            i <= beveled@.len(),
            out@.len() == 2 * i,
            forall|j: int| 0 <= j < i ==> pull_reads_ok(mesh@, #[trigger] beveled@[j], mesh.walk_bound()),
            forall|j: int|
                0 <= j < i ==> {
                    let h = #[trigger] beveled@[j];
                    let m = mesh@;
                    let b = mesh.walk_bound();
                    &&& m.src_dst_of(h) is Ok
                    &&& out@[2 * j] == (m.src_dst_of(h)->Ok_0.0, m.vertex_of(m.previous_of(h, b)->Ok_0)->Ok_0)
                    &&& out@[2 * j + 1] == (m.src_dst_of(h)->Ok_0.1, m.vertex_of(
                        m.next_of(m.next_of(h)->Ok_0)->Ok_0,
                    )->Ok_0)
                },
        decreases beveled@.len() - i,
    {
        let h = beveled[i];
        let reads = pull_reads(mesh, h);
        let (v, w, v_to, w_to) = match reads {
            Ok(x) => x,
            Err(e) => {
                assert(!pull_reads_ok(mesh@, beveled@[i as int], mesh.walk_bound()));
                return Err(e);
            },
        };
        out.push((v, v_to));
        out.push((w, w_to));
        i += 1;
    }
    Ok(out)
}

/// Whether `fs` holds `f`.
fn has_face(fs: &Vec<FaceId>, f: FaceId) -> (r: bool)
    ensures
        r == fs@.contains(f),
{
    let mut i: usize = 0;
    while i < fs.len()
        invariant
            i <= fs@.len(),
            forall|j: int| 0 <= j < i ==> fs@[j] != f,
        decreases fs@.len() - i,
    {
        if fs[i] == f {
            return true;
        }
        i += 1;
    }
    false
}

/// The half-edges of `hs`, in order, whose twin lies on a face outside
/// `faces`; a half-edge whose twin is on a boundary is left out. A twin
/// that cannot be read is an error.
pub open spec fn loop_silhouette<P>(m: crate::mesh::MeshModel<P>, hs: Seq<HalfEdgeId>, faces: Seq<FaceId>) -> Result<
    Seq<HalfEdgeId>,
    MeshError,
>
    decreases hs.len(),
{
    if hs.len() == 0 {
        Ok(Seq::empty())
    } else {
        match loop_silhouette(m, hs.drop_last(), faces) {
            Err(e) => Err(e),
            Ok(acc) => match m.twin_of(hs.last()) {
                Err(e) => Err(e),
                Ok(t) => match m.face_of(t) {
                    Ok(tf) => if faces.contains(tf) {
                        Ok(acc)
                    } else {
                        Ok(acc.push(hs.last()))
                    },
                    Err(_) => Ok(acc),
                },
            },
        }
    }
}

/// The silhouette of the faces `fs`, taken face by face in order, of the
/// face set `faces`.
pub open spec fn faces_silhouette<P>(m: crate::mesh::MeshModel<P>, fs: Seq<FaceId>, faces: Seq<FaceId>, bound: nat) -> Result<
    Seq<HalfEdgeId>,
    MeshError,
>
    decreases fs.len(),
{
    if fs.len() == 0 {
        Ok(Seq::empty())
    } else {
        match faces_silhouette(m, fs.drop_last(), faces, bound) {
            Err(e) => Err(e),
            Ok(acc) => match m.face_loop_of(fs.last(), bound) {
                Err(e) => Err(e),
                Ok(hs) => match loop_silhouette(m, hs, faces) {
                    Err(e) => Err(e),
                    Ok(part) => Ok(acc + part),
                },
            },
        }
    }
}

pub proof fn lemma_loop_silhouette_err<P>(m: crate::mesh::MeshModel<P>, hs: Seq<HalfEdgeId>, faces: Seq<FaceId>, k: int)
    requires
        0 <= k <= hs.len(),
        loop_silhouette(m, hs.take(k), faces) is Err,
    ensures
        loop_silhouette(m, hs, faces) == loop_silhouette(m, hs.take(k), faces),
    decreases hs.len() - k,
{
    if k < hs.len() {
        assert(hs.drop_last().take(k) =~= hs.take(k));
        lemma_loop_silhouette_err(m, hs.drop_last(), faces, k);
    } else {
        assert(hs.take(k) =~= hs);
    }
}

pub proof fn lemma_faces_silhouette_err<P>(m: crate::mesh::MeshModel<P>, fs: Seq<FaceId>, faces: Seq<FaceId>, bound: nat, k: int)
    requires
        0 <= k <= fs.len(),
        faces_silhouette(m, fs.take(k), faces, bound) is Err,
    ensures
        faces_silhouette(m, fs, faces, bound) == faces_silhouette(m, fs.take(k), faces, bound),
    decreases fs.len() - k,
{
    if k < fs.len() {
        assert(fs.drop_last().take(k) =~= fs.take(k));
        lemma_faces_silhouette_err(m, fs.drop_last(), faces, bound, k);
    } else {
        assert(fs.take(k) =~= fs);
    }
}

/// The silhouette of the faces `faces`: their half-edges whose twin lies on
/// a face outside the set, in the order of `faces` and of each face's loop.
/// Half-edges whose twin is on a boundary are left out.
pub fn silhouette<P: Copy>(mesh: &HalfEdgeMesh<P>, faces: &Vec<FaceId>) -> (r: Result<Vec<HalfEdgeId>, MeshError>)
    ensures
        crate::mesh::seq_result(r) == faces_silhouette(mesh@, faces@, faces@, mesh.walk_bound()),
{
    let ghost m = mesh@;
    let ghost bound = mesh.walk_bound();
    let mut out: Vec<HalfEdgeId> = Vec::new();
    let mut i: usize = 0;
    while i < faces.len()
        invariant
            m == mesh@,
            bound == mesh.walk_bound(),
            i <= faces@.len(),
            faces_silhouette(m, faces@.take(i as int), faces@, bound) == Ok::<Seq<HalfEdgeId>, MeshError>(out@),
        decreases faces@.len() - i,
    {
        assert(faces@.take(i as int + 1).drop_last() =~= faces@.take(i as int));
        assert(faces@.take(i as int + 1).last() == faces@[i as int]);
        let hs = match mesh.face_halfedges(faces[i]) {
            Ok(x) => x,
            Err(e) => {
                proof {
                    lemma_faces_silhouette_err(m, faces@, faces@, bound, i as int + 1);
                }
                return Err(e);
            },
        };
        let ghost acc = out@;
        let mut k: usize = 0;
        while k < hs.len()
            invariant
                m == mesh@,
                bound == mesh.walk_bound(),
                i < faces@.len(),
                k <= hs@.len(),
                faces_silhouette(m, faces@.take(i as int), faces@, bound) == Ok::<Seq<HalfEdgeId>, MeshError>(acc),
                m.face_loop_of(faces@[i as int], bound) == Ok::<Seq<HalfEdgeId>, MeshError>(hs@),
                faces@.take(i as int + 1).drop_last() == faces@.take(i as int),
                faces@.take(i as int + 1).last() == faces@[i as int],
                loop_silhouette(m, hs@.take(k as int), faces@) is Ok,
                out@ == acc + loop_silhouette(m, hs@.take(k as int), faces@)->Ok_0,
            decreases hs@.len() - k,
        {
            assert(hs@.take(k as int + 1).drop_last() =~= hs@.take(k as int));
            assert(hs@.take(k as int + 1).last() == hs@[k as int]);
            let h = hs[k];
            let t = match mesh.twin(h) {
                Ok(t) => t,
                Err(e) => {
                    proof {
                        lemma_loop_silhouette_err(m, hs@, faces@, k as int + 1);
                        assert(faces_silhouette(m, faces@.take(i as int + 1), faces@, bound) == Err::<
                            Seq<HalfEdgeId>,
                            MeshError,
                        >(e));
                        lemma_faces_silhouette_err(m, faces@, faces@, bound, i as int + 1);
                    }
                    return Err(e);
                },
            };
            match mesh.face_of(t) {
                Ok(tf) => {
                    if !has_face(faces, tf) {
                        out.push(h);
                        proof {
                            assert(out@ =~= acc + loop_silhouette(m, hs@.take(k as int + 1), faces@)->Ok_0);
                        }
                    }
                },
                Err(_) => {},
            }
            k += 1;
        }
        assert(hs@.take(hs@.len() as int) =~= hs@);
        i += 1;
    }
    assert(faces@.take(faces@.len() as int) =~= faces@);
    Ok(out)
}

/// Rewrites the connectivity to extrude the faces `faces` together: their
/// silhouette is beveled. Gives, for each beveled half-edge on one of the
/// faces, its two endpoints each paired with that face, in order: each such
/// vertex is then pushed along the face's normal.
pub fn extrude_faces_connectivity<P: Copy>(mesh: &mut HalfEdgeMesh<P>, faces: &Vec<FaceId>) -> (r: Result<
    Vec<(VertexId, FaceId)>,
    MeshError,
>)
    requires
        old(mesh).wf(),
    ensures
        final(mesh).wf(),
        faces@.len() == 0 ==> r is Ok && r->Ok_0@.len() == 0 && final(mesh)@ == old(mesh)@,
        faces_silhouette(old(mesh)@, faces@, faces@, old(mesh).walk_bound()) is Err ==> r is Err && r->Err_0
            == faces_silhouette(old(mesh)@, faces@, faces@, old(mesh).walk_bound())->Err_0 && final(mesh)@ == old(
            mesh,
        )@,
        r is Ok ==> faces_silhouette(old(mesh)@, faces@, faces@, old(mesh).walk_bound()) is Ok && faces_extruded(
            old(mesh)@,
            final(mesh)@,
            faces@,
            old(mesh).walk_bound(),
            r->Ok_0@,
        ),
        r is Ok ==> bevel_done(
            old(mesh)@,
            old(mesh).caps(),
            faces_silhouette(old(mesh)@, faces@, faces@, old(mesh).walk_bound())->Ok_0,
            final(mesh)@,
        ),
        twins_involutive(old(mesh)@) && r is Ok ==> twins_involutive(final(mesh)@),
        r is Err ==> faces_extrude_failed(old(mesh)@, old(mesh).caps(), faces@, r->Err_0),
{
    let ghost m0 = mesh@;
    let ghost bound0 = mesh.walk_bound();
    let ghost c0 = mesh.caps();
    let sil = silhouette(mesh, faces)?;
    let beveled = match bevel_edges_connectivity(mesh, &sil) {
        Ok(x) => x,
        Err(e) => {
            assert(faces_extrude_failed(m0, c0, faces@, e));
            return Err(e);
        },
    };
    let ghost mb = mesh@;
    let mut out: Vec<(VertexId, FaceId)> = Vec::new();
    let mut i: usize = 0;
    while i < beveled.len()
        invariant
            mesh.wf(),
            i <= beveled@.len(),
            push_pairs(mesh@, faces@, beveled@.take(i as int)) == Ok::<Seq<(VertexId, FaceId)>, MeshError>(out@),
            m0 == old(mesh)@,
            bound0 == old(mesh).walk_bound(),
            faces_silhouette(m0, faces@, faces@, bound0) == Ok::<Seq<HalfEdgeId>, MeshError>(sil@),
            faces@.len() == 0 ==> beveled@.len() == 0,
            c0 == old(mesh).caps(),
            mesh@ == mb,
            bevel_done(m0, c0, sil@, mb),
            beveled_set_of(m0, sil@, beveled@),
        decreases beveled@.len() - i,
    {
        assert(beveled@.take(i as int + 1).drop_last() =~= beveled@.take(i as int));
        assert(beveled@.take(i as int + 1).last() == beveled@[i as int]);
        let h = beveled[i];
        let fo = match mesh.face_or_boundary(h) {
            Ok(x) => x,
            Err(e) => {
                proof {
                    crate::compound::lemma_push_pairs_err(mesh@, faces@, beveled@, i as int + 1);
                    assert(faces_extrude_failed(m0, c0, faces@, e));
                }
                return Err(e);
            },
        };
        match fo {
            Some(f) => {
                if has_face(faces, f) {
                    let (a, b) = match mesh.src_dst_pair(h) {
                        Ok(x) => x,
                        Err(e) => {
                            proof {
                                crate::compound::lemma_push_pairs_err(mesh@, faces@, beveled@, i as int + 1);
                                assert(faces_extrude_failed(m0, c0, faces@, e));
                            }
                            return Err(e);
                        },
                    };
                    out.push((a, f));
                    out.push((b, f));
                }
            },
            None => {},
        }
        i += 1;
    }
    assert(beveled@.take(beveled@.len() as int) =~= beveled@);
    if faces.len() == 0 {
        assert(beveled@.len() == 0);
        assert(out@ =~= Seq::<(VertexId, FaceId)>::empty());
    }
    assert(faces_extruded(m0, mesh@, faces@, bound0, out@)) by {
        assert(beveled_set_of(m0, sil@, beveled@));
    }
    Ok(out)
}

/// `beveled` is what beveling the half-edges `sil` of `m` hands back: in
/// handle order, and, where twins pair up and `sil` is live, exactly `sil`
/// and the twins it had.
pub open spec fn beveled_set_of<P>(m: MeshModel<P>, sil: Seq<HalfEdgeId>, beveled: Seq<HalfEdgeId>) -> bool {
    &&& (twins_involutive(m) && (forall|i: int| 0 <= i < sil.len() ==> m.hes.contains_key(#[trigger] sil[i])))
        ==> forall|x: HalfEdgeId| #[trigger] beveled.contains(x) <==> beveled_by(m, sil, sil.len() as int, x)
    &&& forall|i: int, j: int| 0 <= i < j < beveled.len() ==> key_before(beveled[i].key, beveled[j].key)
}

/// `n` and the pairs `out` are what extruding `faces` of `m` gives: the
/// silhouette of the faces is beveled, and `out` lists the beveled
/// half-edges that lie on one of the faces, with their ends.
pub open spec fn faces_extruded<P>(
    m: MeshModel<P>,
    n: MeshModel<P>,
    faces: Seq<FaceId>,
    bound: nat,
    out: Seq<(VertexId, FaceId)>,
) -> bool {
    exists|beveled: Seq<HalfEdgeId>|
        #![trigger push_pairs(n, faces, beveled)]
        beveled_set_of(m, faces_silhouette(m, faces, faces, bound)->Ok_0, beveled) && push_pairs(n, faces, beveled)
            == Ok::<Seq<(VertexId, FaceId)>, MeshError>(out)
}

/// Extruding `faces` of `m` (slots `c`) fails with `e`: reading the
/// silhouette, the bevel of it, or reading the beveled half-edges after.
pub open spec fn faces_extrude_failed<P>(m: MeshModel<P>, c: (nat, nat, nat), faces: Seq<FaceId>, e: MeshError) -> bool {
    match faces_silhouette(m, faces, faces, c.1) {
        Err(e2) => e == e2,
        Ok(sil) => bevel_failed(m, c, sil, e) || exists|n: MeshModel<P>, beveled: Seq<HalfEdgeId>|
            #![trigger bevel_done(m, c, sil, n), push_pairs(n, faces, beveled)]
            bevel_done(m, c, sil, n) && beveled_set_of(m, sil, beveled) && push_pairs(n, faces, beveled) == Err::<
                Seq<(VertexId, FaceId)>,
                MeshError,
            >(e),
    }
}

pub proof fn lemma_push_pairs_err<P>(m: MeshModel<P>, faces: Seq<FaceId>, hs: Seq<HalfEdgeId>, k: int)
    requires
        0 <= k <= hs.len(),
        push_pairs(m, faces, hs.take(k)) is Err,
    ensures
        push_pairs(m, faces, hs) == push_pairs(m, faces, hs.take(k)),
    decreases hs.len() - k,
{
    if k < hs.len() {
        assert(hs.drop_last().take(k) =~= hs.take(k));
        lemma_push_pairs_err(m, faces, hs.drop_last(), k);
    } else {
        assert(hs.take(k) =~= hs);
    }
}

/// For each half-edge of `hs` that lies on one of `faces`, its start and
/// its end, each paired with that face, in order.
pub open spec fn push_pairs<P>(m: MeshModel<P>, faces: Seq<FaceId>, hs: Seq<HalfEdgeId>) -> Result<
    Seq<(VertexId, FaceId)>,
    MeshError,
>
    decreases hs.len(),
{
    if hs.len() == 0 {
        Ok(Seq::empty())
    } else {
        match push_pairs(m, faces, hs.drop_last()) {
            Err(e) => Err(e),
            Ok(acc) => match m.face_or_boundary_of(hs.last()) {
                Err(e) => Err(e),
                Ok(None) => Ok(acc),
                Ok(Some(f)) => if faces.contains(f) {
                    match m.src_dst_of(hs.last()) {
                        Err(e) => Err(e),
                        Ok(ab) => Ok(acc.push((ab.0, f)).push((ab.1, f))),
                    }
                } else {
                    Ok(acc)
                },
            },
        }
    }
}

} // verus!
