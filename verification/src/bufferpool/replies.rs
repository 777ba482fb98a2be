//! Reply list of one bulk get, inline for a small chunk.

use crate::bufferpool::types::{PageReply, INLINE_PAGES};
use smallvec::SmallVec;
use vstd::prelude::*;

verus! {

/// One reply per page that a bulk get populated, in any order.
#[verifier::external_body]
pub struct PageReplies {
    inner: SmallVec<[PageReply; INLINE_PAGES]>,
}

/// The replies that a list holds, in the order they were pushed.
pub uninterp spec fn reply_seq(list: PageReplies) -> Seq<PageReply>;

impl View for PageReplies {
    type V = Seq<PageReply>;

    open spec fn view(&self) -> Seq<PageReply> {
        reply_seq(*self)
    }
}

/// `SmallVec::new`: a vector without elements.
#[verifier::external_body]
fn small_new() -> (r: PageReplies)
    ensures
        reply_seq(r) == Seq::<PageReply>::empty(),
{
    PageReplies { inner: SmallVec::new() }
}

/// `SmallVec::push`: appends one element behind the others. The list must be
/// short enough for the doubled allocation to stay within the address space,
/// where the vector would panic.
#[verifier::external_body]
fn small_push(list: &mut PageReplies, reply: PageReply)
    requires
        32 * (reply_seq(*old(list)).len() + 1) <= usize::MAX,
    ensures
        reply_seq(*final(list)) == reply_seq(*old(list)).push(reply),
{
    list.inner.push(reply);
}

/// `SmallVec::len`: the number of elements.
#[verifier::external_body]
fn small_len(list: &PageReplies) -> (r: usize)
    ensures
        r == reply_seq(*list).len(),
{
    list.inner.len()
}

/// Indexing of a `SmallVec`, which dereferences to the slice of its
/// elements: the element at a position within its length.
#[verifier::external_body]
fn small_at(list: &PageReplies, i: usize) -> (r: PageReply)
    requires
        i < reply_seq(*list).len(),
    ensures
        r == reply_seq(*list)[i as int],
{
    list.inner[i]
}

impl PageReplies {
    /// A list without replies.
    pub fn new() -> (r: Self)
        ensures
            r@ == Seq::<PageReply>::empty(),
    {
        small_new()
    }

    /// Appends a reply.
    pub fn push(&mut self, reply: PageReply)
        requires
            32 * (old(self)@.len() + 1) <= usize::MAX,
        ensures
            final(self)@ == old(self)@.push(reply),
    {
        small_push(self, reply);
    }

    /// Number of replies.
    pub fn len(&self) -> (r: usize)
        ensures
            r == self@.len(),
    {
        small_len(self)
    }

    /// The reply at a position, where there is one.
    pub fn get(&self, i: usize) -> (r: Option<PageReply>)
        ensures
            r == if i < self@.len() {
                Some(self@[i as int])
            } else {
                None
            },
    {
        if i < small_len(self) {
            Some(small_at(self, i))
        } else {
            None
        }
    }
}

} // verus!
