//! Hierarchical signal paths.
//!
//! A [`Path`] is an immutable chain of name segments leading from the root of
//! the scope hierarchy to one signal.  A child path references its parent
//! through a shared handle, so many children may extend the same prefix
//! without copying it.  A path is abstracted as the sequence of its segment
//! views, from root to leaf.

use std::rc::Rc;
use vstd::prelude::*;

verus! {

/// Relies on `Rc::clone`: it returns a new handle to the same allocation,
/// carrying the same value as the original.
#[verifier::external_body]
fn rc_dup<T>(v: &Rc<T>) -> (res: Rc<T>)
    ensures
        res == *v,
{
    Rc::clone(v)
}

/// One signal's location in the scope hierarchy: a chain of segments that
/// shares its prefix with every sibling path.
pub enum Path<T> {
    /// The root: zero segments.
    Empty,
    /// A child location: the parent's path extended by one segment.
    Segment(Rc<Path<T>>, T),
}

/// The sequence of segment views of `p`, from root to leaf.
pub open spec fn path_view<T: View>(p: Path<T>) -> Seq<T::V>
    decreases p,
{
    match p {
        Path::Empty => Seq::empty(),
        Path::Segment(rest, item) => path_view(*rest).push(item.view()),
    }
}

impl<T: View> View for Path<T> {
    type V = Seq<T::V>;

    open spec fn view(&self) -> Seq<T::V> {
        path_view(*self)
    }
}

impl<T: View> Path<T> {
    /// The root path, with no segments.
    pub fn empty() -> (r: Self)
        ensures
            r@ == Seq::<T::V>::empty(),
    {
        Path::Empty
    }

    /// The child of `parent` named `segment`; `parent` itself is shared, not
    /// copied.
    pub fn extend(parent: &Rc<Path<T>>, segment: T) -> (r: Self)
        ensures
            r@ == (*parent)@.push(segment@),
    {
        Path::Segment(rc_dup(parent), segment)
    }

    /// The ordered list of segments from root to leaf, read-only.
    pub fn to_vec(&self) -> (r: Vec<&T>)
        ensures
            r@.len() == self@.len(),
            forall|i: int| 0 <= i < r@.len() ==> r@[i]@ == self@[i],
        decreases self,
    {
        match self {
            Path::Empty => Vec::new(),
            Path::Segment(rest, item) => {
                let mut v = rest.to_vec();
                v.push(item);
                v
            },
        }
    }
}

impl Path<String> {
    /// Whether two paths name the same location: their segment sequences are
    /// equal element-wise.
    pub fn equals(&self, other: &Path<String>) -> (r: bool)
        ensures
            r == (self@ == other@),
        decreases self,
    {
        match (self, other) {
            (Path::Empty, Path::Empty) => true,
            (Path::Segment(ra, sa), Path::Segment(rb, sb)) => {
                proof {
                    assert(self@ == path_view(**ra).push(sa@));
                    assert(other@ == path_view(**rb).push(sb@));
                    assert(self@.last() == sa@);
                    assert(other@.last() == sb@);
                    assert(self@.drop_last() =~= path_view(**ra));
                    assert(other@.drop_last() =~= path_view(**rb));
                }
                sa.eq(sb) && ra.equals(rb)
            },
            (Path::Empty, Path::Segment(_, _)) => false,
            (Path::Segment(_, _), Path::Empty) => false,
        }
    }
}

} // verus!
