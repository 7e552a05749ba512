//! The short lists that operations hand back: vertex and face handles kept
//! in a `smallvec::SmallVec`, which stores a few items inline.
use vstd::prelude::*;
use crate::mesh::{FaceId, VertexId};

verus! {

/// A short list of vertex handles.
#[verifier::external_body]
pub struct VertexList {
    items: smallvec::SmallVec<[VertexId; 4]>,
}

/// A short list of face handles.
#[verifier::external_body]
pub struct FaceList {
    items: smallvec::SmallVec<[FaceId; 4]>,
}

/// The vertices that a list holds, in order.
pub uninterp spec fn vertex_items(v: VertexList) -> Seq<VertexId>;

/// The faces that a list holds, in order.
pub uninterp spec fn face_items(v: FaceList) -> Seq<FaceId>;

impl VertexList {
    /// Relies on `SmallVec::new`: an empty list.
    #[verifier::external_body]
    pub(crate) fn empty() -> (r: Self)
        ensures
            vertex_items(r) == Seq::<VertexId>::empty(),
    {
        VertexList { items: smallvec::SmallVec::new() }
    }

    /// Relies on `SmallVec::push`: the item goes at the end.
    #[verifier::external_body]
    pub(crate) fn append(&mut self, x: VertexId)
        ensures
            vertex_items(*final(self)) == vertex_items(*old(self)).push(x),
    {
        self.items.push(x)
    }

    /// Relies on `SmallVec::len`: the number of items.
    #[verifier::external_body]
    fn count(&self) -> (r: usize)
        ensures
            r == vertex_items(*self).len(),
    {
        self.items.len()
    }

    /// Relies on indexing a `SmallVec`: the item at `i`, which is in range.
    #[verifier::external_body]
    fn at(&self, i: usize) -> (r: VertexId)
        requires
            i < vertex_items(*self).len(),
        ensures
            r == vertex_items(*self)[i as int],
    {
        self.items[i]
    }

    pub fn len(&self) -> (r: usize)
        ensures
            r == vertex_items(*self).len(),
    {
        self.count()
    }

    pub fn get(&self, i: usize) -> (r: VertexId)
        requires
            i < vertex_items(*self).len(),
        ensures
            r == vertex_items(*self)[i as int],
    {
        self.at(i)
    }

    /// The items, in order.
    pub fn to_vec(&self) -> (r: Vec<VertexId>)
        ensures
            r@ == vertex_items(*self),
    {
        let n = self.count();
        let mut out: Vec<VertexId> = Vec::new();
        let mut i: usize = 0;
        while i < n
            invariant
                n == vertex_items(*self).len(),
                i <= n,
                out@ == vertex_items(*self).take(i as int),
            decreases n - i,
        {
            out.push(self.at(i));
            assert(vertex_items(*self).take(i as int + 1) =~= vertex_items(*self).take(i as int).push(
                vertex_items(*self)[i as int],
            ));
            i += 1;
        }
        assert(vertex_items(*self).take(n as int) =~= vertex_items(*self));
        out
    }
}

impl FaceList {
    /// Relies on `SmallVec::new`: an empty list.
    #[verifier::external_body]
    pub(crate) fn empty() -> (r: Self)
        ensures
            face_items(r) == Seq::<FaceId>::empty(),
    {
        FaceList { items: smallvec::SmallVec::new() }
    }

    /// Relies on `SmallVec::push`: the item goes at the end.
    #[verifier::external_body]
    pub(crate) fn append(&mut self, x: FaceId)
        ensures
            face_items(*final(self)) == face_items(*old(self)).push(x),
    {
        self.items.push(x)
    }

    /// Relies on `SmallVec::len`: the number of items.
    #[verifier::external_body]
    fn count(&self) -> (r: usize)
        ensures
            r == face_items(*self).len(),
    {
        self.items.len()
    }

    /// Relies on indexing a `SmallVec`: the item at `i`, which is in range.
    #[verifier::external_body]
    fn at(&self, i: usize) -> (r: FaceId)
        requires
            i < face_items(*self).len(),
        ensures
            r == face_items(*self)[i as int],
    {
        self.items[i]
    }

    pub fn len(&self) -> (r: usize)
        ensures
            r == face_items(*self).len(),
    {
        self.count()
    }

    pub fn get(&self, i: usize) -> (r: FaceId)
        requires
            i < face_items(*self).len(),
        ensures
            r == face_items(*self)[i as int],
    {
        self.at(i)
    }

    /// The items, in order.
    pub fn to_vec(&self) -> (r: Vec<FaceId>)
        ensures
            r@ == face_items(*self),
    {
        let n = self.count();
        let mut out: Vec<FaceId> = Vec::new();
        let mut i: usize = 0;
        while i < n
            invariant
                n == face_items(*self).len(),
                i <= n,
                out@ == face_items(*self).take(i as int),
            decreases n - i,
        {
            out.push(self.at(i));
            assert(face_items(*self).take(i as int + 1) =~= face_items(*self).take(i as int).push(
                face_items(*self)[i as int],
            ));
            i += 1;
        }
        assert(face_items(*self).take(n as int) =~= face_items(*self));
        out
    }
}

} // verus!
