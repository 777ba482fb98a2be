//! Streams of pages and the windows they show of each page.

use crate::bufferpool::types::StripeKey;
use vstd::arithmetic::div_mod;
use vstd::prelude::*;

verus! {

/// The part of one page that a stream reads next.
#[derive(Clone, Copy, Debug, PartialEq, Eq, Structural)]
pub struct PageWindow {
    /// Page within the stripe.
    pub page_no: u64,
    /// First byte within the page.
    pub offset: usize,
    /// Number of bytes, which the page holds from `offset` on.
    pub len: usize,
}

/// Abstract state of a stream: the bytes `pos..end` of a stripe are still to
/// be read.
pub struct StreamView {
    pub key: StripeKey,
    pub pos: u64,
    pub end: u64,
    pub page_size: usize,
}

impl StreamView {
    /// Window on the page that holds the next byte, or `None` at the end.
    pub open spec fn window(self) -> Option<PageWindow> {
        let size = self.page_size as int;
        let offset = self.pos as int % size;
        let left = self.end - self.pos;
        if left <= 0 {
            None
        } else {
            Some(
                PageWindow {
                    page_no: (self.pos as int / size) as u64,
                    offset: offset as usize,
                    len: if left < size - offset {
                        left as usize
                    } else {
                        (size - offset) as usize
                    },
                },
            )
        }
    }

    /// The stream after its next window was read.
    pub open spec fn advanced(self) -> StreamView {
        match self.window() {
            Some(w) => StreamView { pos: (self.pos + w.len) as u64, ..self },
            None => self,
        }
    }

    /// All windows still to come, in order.
    pub open spec fn windows(self) -> Seq<PageWindow>
        decreases self.end - self.pos,
        when self.page_size > 0
        via Self::windows_come_to_an_end
    {
        match self.window() {
            Some(w) => seq![w] + self.advanced().windows(),
            None => Seq::empty(),
        }
    }

    #[via_fn]
    proof fn windows_come_to_an_end(self) {
        if self.pos < self.end {
            lemma_window(self);
        }
    }
}

/// Where a window is within its page, and its page within the stripe.
proof fn lemma_window(v: StreamView)
    requires
        v.page_size > 0,
        v.pos < v.end,
    ensures
        v.window() is Some,
        ({
            let w = v.window()->0;
            &&& w.len >= 1
            &&& w.offset + w.len <= v.page_size
            &&& v.pos + w.len <= v.end
            &&& w.page_no * v.page_size + w.offset == v.pos
        }),
{
    let size = v.page_size as int;
    let pos = v.pos as int;
    div_mod::lemma_fundamental_div_mod(pos, size);
    div_mod::lemma_mod_bound(pos, size);
    div_mod::lemma_div_pos_is_pos(pos, size);
    div_mod::lemma_div_nonincreasing(pos, size);
    vstd::arithmetic::mul::lemma_mul_is_commutative(size, pos / size);
}

/// A stream over a range of a stripe, page by page.
pub struct ReadStream {
    key: StripeKey,
    pos: u64,
    end: u64,
    page_size: usize,
}

impl View for ReadStream {
    type V = StreamView;

    closed spec fn view(&self) -> StreamView {
        StreamView { key: self.key, pos: self.pos, end: self.end, page_size: self.page_size }
    }
}

impl ReadStream {
    /// A stream over the bytes `pos..end` of the stripe `key`.
    pub(crate) fn new(key: StripeKey, pos: u64, end: u64, page_size: usize) -> (r: Self)
        ensures
            r@ == (StreamView { key, pos, end, page_size }),
    {
        ReadStream { key, pos, end, page_size }
    }

    /// The stripe that is read.
    pub fn key(&self) -> (r: StripeKey)
        ensures
            r == self@.key,
    {
        self.key
    }

    /// Window on the page that holds the next byte, or `None` at the end of
    /// the stream.
    pub fn window(&self) -> (r: Option<PageWindow>)
        requires
            self@.page_size > 0,
        ensures
            r == self@.window(),
            r is Some <==> self@.pos < self@.end,
            r matches Some(w) ==> {
                &&& w.page_no * self@.page_size + w.offset == self@.pos
                &&& w.offset < self@.page_size
                &&& w.len >= 1
                &&& w.offset + w.len <= self@.page_size
                &&& self@.pos + w.len <= self@.end
                &&& w.offset + w.len == self@.page_size || self@.pos + w.len == self@.end
            },
    {
        if self.pos >= self.end {
            return None;
        }
        proof {
            lemma_window(self@);
        }
        let size = self.page_size as u64;
        let page_no: u64 = self.pos / size;
        let offset: u64 = self.pos % size;
        let left: u64 = self.end - self.pos;
        let room: u64 = size - offset;
        let len: u64 = if left < room {
            left
        } else {
            room
        };
        Some(PageWindow { page_no, offset: offset as usize, len: len as usize })
    }

    /// Moves on to the next window.
    pub fn advance(&mut self)
        requires
            old(self)@.page_size > 0,
        ensures
            final(self)@ == old(self)@.advanced(),
            final(self)@.key == old(self)@.key,
            final(self)@.end == old(self)@.end,
            final(self)@.page_size == old(self)@.page_size,
            final(self)@.pos == old(self)@.pos + (match old(self)@.window() {
                Some(w) => w.len as int,
                None => 0,
            }),
    {
        if let Some(w) = self.window() {
            proof {
                lemma_window(self@);
            }
            self.pos = self.pos + w.len as u64;
        }
    }
}

/// Windows cover the stream from the first byte to the last without gap or
/// overlap: each starts where the one before stopped, and none leaves its
/// page.
pub proof fn law_windows_tile_the_stream(v: StreamView)
    requires
        v.page_size > 0,
    ensures
        ({
            let ws = v.windows();
            let size = v.page_size as int;
            &&& ws.len() == 0 <==> v.end <= v.pos
            &&& forall|i: int|
                0 <= i < ws.len() ==> {
                    &&& (#[trigger] ws[i]).len >= 1
                    &&& ws[i].offset + ws[i].len <= size
                }
            &&& ws.len() > 0 ==> {
                &&& ws[0].page_no * size + ws[0].offset == v.pos
                &&& ws.last().page_no * size + ws.last().offset + ws.last().len == v.end
            }
            &&& forall|i: int|
                #![trigger ws[i]]
                0 < i < ws.len() ==> ws[i - 1].page_no * size + ws[i - 1].offset + ws[i - 1].len
                    == ws[i].page_no * size + ws[i].offset
        }),
    decreases v.end - v.pos,
{
    if v.pos < v.end {
        lemma_window(v);
        let w = v.window()->0;
        let rest = v.advanced();
        let tail = rest.windows();
        let ws = v.windows();
        law_windows_tile_the_stream(rest);
        assert(ws =~= seq![w] + tail);
        assert forall|i: int| 0 <= i < ws.len() implies {
            &&& (#[trigger] ws[i]).len >= 1
            &&& ws[i].offset + ws[i].len <= v.page_size
        } by {
            if i > 0 {
                assert(ws[i] == tail[i - 1]);
            }
        }
        assert forall|i: int|
            #![trigger ws[i]]
            0 < i < ws.len() implies ws[i - 1].page_no * v.page_size + ws[i - 1].offset + ws[i
            - 1].len == ws[i].page_no * v.page_size + ws[i].offset by {
            assert(ws[i] == tail[i - 1]);
            if i > 1 {
                assert(ws[i - 1] == tail[i - 2]);
            }
        }
        if tail.len() > 0 {
            assert(ws.last() == tail.last());
        }
    }
}

} // verus!
