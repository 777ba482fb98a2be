//! Chunk splitter and the range fetch that issues one bulk get per chunk.

use crate::bufferpool::replies::PageReplies;
use crate::bufferpool::types::{Error, PageRange};
use vstd::arithmetic::div_mod;
use vstd::arithmetic::mul;
use vstd::prelude::*;

verus! {

/// Number of aligned blocks of `pages_per_chunk` pages that `range` touches.
pub open spec fn chunk_count(range: PageRange, pages_per_chunk: u32) -> nat {
    if range.end_page <= range.start_page {
        0
    } else {
        ((range.end_page - 1) / pages_per_chunk as int - range.start_page as int
            / pages_per_chunk as int + 1) as nat
    }
}

/// The part of `range` in the `i`-th aligned block that it touches.
pub open spec fn chunk_at(range: PageRange, pages_per_chunk: u32, i: int) -> PageRange {
    let block = range.start_page as int / pages_per_chunk as int + i;
    let from = block * pages_per_chunk;
    let to = (block + 1) * pages_per_chunk;
    PageRange {
        stripe: range.stripe,
        start_page: if from < range.start_page {
            range.start_page
        } else {
            from as u32
        },
        end_page: if to < range.end_page {
            to as u32
        } else {
            range.end_page
        },
    }
}

/// `range` cut at the multiples of `pages_per_chunk`.
pub open spec fn chunks_of(range: PageRange, pages_per_chunk: u32) -> Seq<PageRange> {
    Seq::new(chunk_count(range, pages_per_chunk), |i: int| chunk_at(range, pages_per_chunk, i))
}

/// Where a position lies in its block: `block * size <= pos < (block + 1) * size`
/// says which block it is.
proof fn lemma_block(pos: int, block: int, size: int)
    requires
        size > 0,
        pos >= 0,
    ensures
        block * size <= pos < (block + 1) * size <==> pos / size == block,
        (block * size) / size == block,
{
    div_mod::lemma_fundamental_div_mod(pos, size);
    div_mod::lemma_div_multiples_vanish(block, size);
    mul::lemma_mul_is_distributive_add_other_way(size, block, 1);
    let q = pos / size;
    mul::lemma_mul_is_distributive_add_other_way(size, q, 1);
    assert(size * q == q * size) by (nonlinear_arith);
    if block * size <= pos < (block + 1) * size {
        if q < block {
            mul::lemma_mul_inequality(q + 1, block, size);
        }
        if q > block {
            mul::lemma_mul_inequality(block + 1, q, size);
        }
    }
    assert(block * size == size * block) by (nonlinear_arith);
}

/// Split `range` into chunk-aligned sub-ranges of at most
/// `pages_per_chunk` pages each. The first chunk may be shorter
/// than `pages_per_chunk` if `range.start_page` does not land on a
/// chunk boundary; subsequent chunks align on multiples of
/// `pages_per_chunk` until the last (possibly short) chunk reaches
/// `range.end_page`.
pub fn split_into_chunks(range: PageRange, pages_per_chunk: u32) -> (out: Vec<PageRange>)
    requires
        pages_per_chunk > 0,
    ensures
        out@ == chunks_of(range, pages_per_chunk),
{
    let mut out: Vec<PageRange> = Vec::new();
    if range.is_empty() {
        assert(out@ =~= chunks_of(range, pages_per_chunk));
        return out;
    }
    let mut cur: u32 = range.start_page;
    let ghost size = pages_per_chunk as int;
    let ghost first = range.start_page as int / size;
    let ghost last = (range.end_page - 1) / size;
    proof {
        div_mod::lemma_div_is_ordered(range.start_page as int, range.end_page - 1, size);
    }
    while cur < range.end_page
        invariant
            pages_per_chunk > 0,
            size == pages_per_chunk,
            range.start_page < range.end_page,
            first == range.start_page as int / size,
            last == (range.end_page - 1) / size,
            first <= last,
            range.start_page <= cur <= range.end_page,
            out@.len() <= chunk_count(range, pages_per_chunk),
            forall|i: int|
                0 <= i < out@.len() ==> #[trigger] out@[i] == chunk_at(range, pages_per_chunk, i),
            cur == range.end_page <==> out@.len() == chunk_count(range, pages_per_chunk),
            cur < range.end_page ==> cur as int / size == first + out@.len(),
            cur < range.end_page && out@.len() > 0 ==> cur == (first + out@.len()) * size,
            out@.len() == 0 ==> cur == range.start_page,
        decreases range.end_page - cur,
    {
        let ghost n = out@.len() as int;
        let ghost block = first + n;
        proof {
            lemma_block(cur as int, block, size);
            lemma_block(range.start_page as int, first, size);
            lemma_block(range.end_page - 1, block, size);
            lemma_block(range.end_page - 1, last, size);
            div_mod::lemma_div_is_ordered(cur as int, range.end_page - 1, size);
            assert(block <= last);
            mul::lemma_mul_inequality(block + 1, last + 1, size);
            assert(n == 0 || cur == block * size);
            assert(n == 0 ==> block * size <= range.start_page);
            assert(n > 0 ==> block * size >= range.start_page);
        }
        // End of the current chunk: either the next chunk boundary
        // or the end of the requested range, whichever comes first.
        let size64: u64 = pages_per_chunk as u64;
        assert((cur as u64 / size64 + 1) * size64 <= 0x1_0000_0000 * 0xffff_ffff)
            by (nonlinear_arith)
            requires
                0 < size64 <= 0xffff_ffff,
                cur as u64 / size64 + 1 <= 0x1_0000_0000,
        ;
        let next_boundary: u64 = (cur as u64 / size64 + 1) * size64;
        let end: u32 = if next_boundary < range.end_page as u64 {
            next_boundary as u32
        } else {
            range.end_page
        };
        out.push(PageRange { stripe: range.stripe, start_page: cur, end_page: end });
        proof {
            assert(out@[n] == chunk_at(range, pages_per_chunk, n));
            if end < range.end_page {
                lemma_block(end as int, block + 1, size);
                div_mod::lemma_div_is_ordered(end as int, range.end_page - 1, size);
            }
        }
        cur = end;
    }
    assert(out@ =~= chunks_of(range, pages_per_chunk));
    out
}

/// The next bulk get of a range fetch: the chunk to ask for and the part of
/// the destination pages that receives it.
#[derive(Clone, Copy, Debug, PartialEq, Eq)]
pub struct ChunkCall {
    pub range: PageRange,
    pub slice_start: usize,
    pub slice_end: usize,
}

/// Abstract state of a range fetch: what is fetched and how many chunks of
/// it have arrived.
pub struct RangeFetchView {
    pub range: PageRange,
    pub pages_per_chunk: u32,
    pub done: nat,
}

impl RangeFetchView {
    /// All chunks of the fetch.
    pub open spec fn chunks(self) -> Seq<PageRange> {
        chunks_of(self.range, self.pages_per_chunk)
    }

    /// The bulk get that is next, where one is left. Destination page `i`
    /// receives page `range.start_page + i`.
    pub open spec fn call(self) -> Option<ChunkCall> {
        if self.done < self.chunks().len() {
            let chunk = self.chunks()[self.done as int];
            Some(
                ChunkCall {
                    range: chunk,
                    slice_start: (chunk.start_page - self.range.start_page) as usize,
                    slice_end: (chunk.end_page - self.range.start_page) as usize,
                },
            )
        } else {
            None
        }
    }

    /// What the outcome of the bulk get that is next makes of the fetch: a
    /// failure ends it, and so does a reply short of pages.
    pub open spec fn judged(self, replies: Result<PageReplies, Error>) -> Result<(), Error> {
        let chunk = self.chunks()[self.done as int];
        match replies {
            Err(e) => Err(e),
            Ok(list) => if list@.len() < chunk.end_page - chunk.start_page {
                Err(Error::Io(0))
            } else {
                Ok(())
            },
        }
    }
}

/// Fetch of a range from the transport in chunk-aligned pieces. The caller
/// has one destination page per page in the range, in ascending order.
/// Partial replies are failures.
pub struct RangeFetch {
    range: PageRange,
    pages_per_chunk: u32,
    chunks: Vec<PageRange>,
    next: usize,
}

impl View for RangeFetch {
    type V = RangeFetchView;

    closed spec fn view(&self) -> RangeFetchView {
        RangeFetchView {
            range: self.range,
            pages_per_chunk: self.pages_per_chunk,
            done: self.next as nat,
        }
    }
}

impl RangeFetch {
    /// Well-formedness of the fetch.
    pub closed spec fn wf(&self) -> bool {
        &&& self.pages_per_chunk > 0
        &&& self.range.start_page <= self.range.end_page
        &&& self.chunks@ == chunks_of(self.range, self.pages_per_chunk)
        &&& self.next <= self.chunks@.len()
    }

    /// A fetch of `range` into `dst_len` destination pages, of which there
    /// must be one per page.
    pub fn new(range: PageRange, dst_len: usize, pages_per_chunk: u32) -> (r: Self)
        requires
            pages_per_chunk > 0,
            range.start_page <= range.end_page,
            dst_len == range.end_page - range.start_page,
        ensures
            r.wf(),
            r@ == (RangeFetchView { range, pages_per_chunk, done: 0 }),
    {
        let chunks = split_into_chunks(range, pages_per_chunk);
        RangeFetch { range, pages_per_chunk, chunks, next: 0 }
    }

    /// The bulk get to issue next, or `None` once all chunks have arrived.
    pub fn next_call(&self) -> (r: Option<ChunkCall>)
        requires
            self.wf(),
        ensures
            r == self@.call(),
    {
        if self.next < self.chunks.len() {
            proof {
                lemma_chunk_within(self.range, self.pages_per_chunk, self.next as int);
            }
            let chunk = self.chunks[self.next];
            Some(
                ChunkCall {
                    range: chunk,
                    slice_start: (chunk.start_page - self.range.start_page) as usize,
                    slice_end: (chunk.end_page - self.range.start_page) as usize,
                },
            )
        } else {
            None
        }
    }

    /// Takes the outcome of the bulk get that was next.
    pub fn on_replies(&mut self, replies: Result<PageReplies, Error>) -> (r: Result<(), Error>)
        requires
            old(self).wf(),
            old(self)@.done < old(self)@.chunks().len(),
        ensures
            final(self).wf(),
            r == old(self)@.judged(replies),
            final(self)@ == (RangeFetchView {
                done: if r is Ok {
                    old(self)@.done + 1
                } else {
                    old(self)@.done
                },
                ..old(self)@
            }),
    {
        proof {
            lemma_chunk_within(self.range, self.pages_per_chunk, self.next as int);
        }
        let chunk_len: usize = self.chunks[self.next].len() as usize;
        match replies {
            Err(e) => Err(e),
            Ok(list) => {
                if list.len() < chunk_len {
                    return Err(Error::Io(0));
                }
                assert(self.next < self.chunks.len());
                self.next = self.next + 1;
                Ok(())
            },
        }
    }
}

/// Every chunk is a non-empty part of the range inside one aligned block.
proof fn lemma_chunk_within(range: PageRange, pages_per_chunk: u32, i: int)
    requires
        pages_per_chunk > 0,
        0 <= i < chunk_count(range, pages_per_chunk),
    ensures
        ({
            let size = pages_per_chunk as int;
            let block = range.start_page as int / size + i;
            let chunk = chunk_at(range, pages_per_chunk, i);
            &&& chunk.stripe == range.stripe
            &&& range.start_page <= chunk.start_page < chunk.end_page <= range.end_page
            &&& block * size <= chunk.start_page
            &&& chunk.end_page <= (block + 1) * size
            &&& chunk.start_page == if i == 0 {
                range.start_page as int
            } else {
                block * size
            }
            &&& chunk.end_page == if i + 1 == chunk_count(range, pages_per_chunk) {
                range.end_page as int
            } else {
                (block + 1) * size
            }
        }),
{
    let size = pages_per_chunk as int;
    let first = range.start_page as int / size;
    let last = (range.end_page - 1) / size;
    let block = first + i;
    lemma_block(range.start_page as int, first, size);
    lemma_block(range.end_page - 1, last, size);
    div_mod::lemma_div_is_ordered(range.start_page as int, range.end_page - 1, size);
    mul::lemma_mul_inequality(block + 1, last + 1, size);
    mul::lemma_mul_inequality(block, last, size);
    mul::lemma_mul_inequality(first, block, size);
    mul::lemma_mul_is_distributive_add_other_way(size, block, 1);
    if i > 0 {
        mul::lemma_mul_inequality(first + 1, block, size);
    }
    if block < last {
        mul::lemma_mul_inequality(block + 1, last, size);
    }
}

/// The chunks tile the range: the first starts it, the last ends it, each
/// one starts where the one before ends, and none is empty.
pub proof fn law_chunks_tile_the_range(range: PageRange, pages_per_chunk: u32)
    requires
        pages_per_chunk > 0,
        range.start_page < range.end_page,
    ensures
        ({
            let chunks = chunks_of(range, pages_per_chunk);
            &&& chunks.len() >= 1
            &&& chunks[0].start_page == range.start_page
            &&& chunks.last().end_page == range.end_page
            &&& forall|i: int|
                0 <= i < chunks.len() - 1 ==> #[trigger] chunks[i].end_page == chunks[i
                    + 1].start_page
            &&& forall|i: int|
                0 <= i < chunks.len() ==> (#[trigger] chunks[i]).start_page < chunks[i].end_page
                    && chunks[i].stripe == range.stripe
        }),
{
    let chunks = chunks_of(range, pages_per_chunk);
    let size = pages_per_chunk as int;
    div_mod::lemma_div_is_ordered(range.start_page as int, range.end_page - 1, size);
    assert forall|i: int| 0 <= i < chunks.len() implies (#[trigger] chunks[i]).start_page
        < chunks[i].end_page && chunks[i].stripe == range.stripe by {
        lemma_chunk_within(range, pages_per_chunk, i);
    }
    assert forall|i: int| 0 <= i < chunks.len() - 1 implies #[trigger] chunks[i].end_page == chunks[i
        + 1].start_page by {
        lemma_chunk_within(range, pages_per_chunk, i);
        lemma_chunk_within(range, pages_per_chunk, i + 1);
    }
    lemma_chunk_within(range, pages_per_chunk, 0);
    lemma_chunk_within(range, pages_per_chunk, chunks.len() - 1);
}

/// A range without pages has no chunks, and every other range has some.
pub proof fn law_only_empty_ranges_have_no_chunks(range: PageRange, pages_per_chunk: u32)
    requires
        pages_per_chunk > 0,
    ensures
        chunks_of(range, pages_per_chunk).len() == 0 <==> range.end_page <= range.start_page,
{
    if range.start_page < range.end_page {
        law_chunks_tile_the_range(range, pages_per_chunk);
    }
}

/// Number of pages in some ranges together.
pub open spec fn pages_in(chunks: Seq<PageRange>) -> int
    decreases chunks.len(),
{
    if chunks.len() == 0 {
        0
    } else {
        pages_in(chunks.drop_last()) + (chunks.last().end_page - chunks.last().start_page)
    }
}

/// The chunks together have as many pages as the range.
pub proof fn law_chunk_lengths_add_up(range: PageRange, pages_per_chunk: u32)
    requires
        pages_per_chunk > 0,
        range.start_page <= range.end_page,
    ensures
        pages_in(chunks_of(range, pages_per_chunk)) == range.end_page - range.start_page,
{
    let chunks = chunks_of(range, pages_per_chunk);
    if range.start_page < range.end_page {
        law_chunks_tile_the_range(range, pages_per_chunk);
        lemma_pages_in(chunks);
    }
}

/// Ranges that follow on each other have as many pages as lie between the
/// first page and the last.
proof fn lemma_pages_in(chunks: Seq<PageRange>)
    requires
        chunks.len() >= 1,
        forall|i: int|
            0 <= i < chunks.len() - 1 ==> #[trigger] chunks[i].end_page == chunks[i
                + 1].start_page,
    ensures
        pages_in(chunks) == chunks.last().end_page - chunks[0].start_page,
    decreases chunks.len(),
{
    let most = chunks.drop_last();
    if most.len() > 0 {
        assert forall|i: int| 0 <= i < most.len() - 1 implies #[trigger] most[i].end_page == most[i
            + 1].start_page by {
            assert(chunks[i].end_page == chunks[i + 1].start_page);
        }
        lemma_pages_in(most);
        let i = chunks.len() - 2;
        assert(chunks[i].end_page == chunks[i + 1].start_page);
    } else {
        assert(pages_in(most) == 0);
    }
}

/// No chunk is longer than `pages_per_chunk` pages or crosses a multiple of
/// it, and every chunk but the first starts on one.
pub proof fn law_chunks_are_aligned(range: PageRange, pages_per_chunk: u32, i: int)
    requires
        pages_per_chunk > 0,
        0 <= i < chunks_of(range, pages_per_chunk).len(),
    ensures
        ({
            let size = pages_per_chunk as int;
            let chunk = chunks_of(range, pages_per_chunk)[i];
            &&& chunk.end_page - chunk.start_page <= size
            &&& chunk.start_page as int / size == (chunk.end_page - 1) / size
            &&& i > 0 ==> chunk.start_page as int % size == 0
        }),
{
    let size = pages_per_chunk as int;
    let chunk = chunks_of(range, pages_per_chunk)[i];
    let block = range.start_page as int / size + i;
    lemma_chunk_within(range, pages_per_chunk, i);
    mul::lemma_mul_is_distributive_add_other_way(size, block, 1);
    lemma_block(chunk.start_page as int, block, size);
    lemma_block(chunk.end_page - 1, block, size);
    if i > 0 {
        div_mod::lemma_mod_multiples_basic(block, size);
    }
}

/// A single page is one chunk.
pub proof fn law_single_page_is_one_chunk(range: PageRange, pages_per_chunk: u32)
    requires
        pages_per_chunk > 0,
        range.end_page == range.start_page + 1,
    ensures
        chunks_of(range, pages_per_chunk) == seq![range],
{
    law_chunks_tile_the_range(range, pages_per_chunk);
    assert(chunks_of(range, pages_per_chunk) =~= seq![range]);
}

/// The calls of a range fetch line up with its destination pages: each call
/// gets as many as its chunk has pages, and the next call goes on where this
/// one stops.
pub proof fn law_calls_line_up_with_pages(v: RangeFetchView)
    requires
        v.pages_per_chunk > 0,
        v.range.start_page <= v.range.end_page,
        v.done < v.chunks().len(),
    ensures
        ({
            let call = v.call()->0;
            let rest = RangeFetchView { done: v.done + 1, ..v };
            &&& call.slice_end - call.slice_start == call.range.end_page - call.range.start_page
            &&& v.done == 0 ==> call.slice_start == 0
            &&& match rest.call() {
                Some(next) => next.slice_start == call.slice_end,
                None => call.slice_end == v.range.end_page - v.range.start_page,
            }
        }),
{
    law_chunks_tile_the_range(v.range, v.pages_per_chunk);
    lemma_chunk_within(v.range, v.pages_per_chunk, v.done as int);
    if v.done + 1 < v.chunks().len() {
        lemma_chunk_within(v.range, v.pages_per_chunk, v.done as int + 1);
    }
}

/// A call asks for the pages of its slice: destination page `i` of the fetch
/// receives page `i` of the range. There is a call as long as chunks are
/// left.
pub proof fn law_call_asks_for_its_slice(v: RangeFetchView)
    requires
        v.pages_per_chunk > 0,
        v.range.start_page <= v.range.end_page,
    ensures
        v.call() is Some <==> v.done < v.chunks().len(),
        v.call() matches Some(call) ==> {
            &&& call.range.stripe == v.range.stripe
            &&& call.range.start_page == v.range.start_page + call.slice_start
            &&& call.range.end_page == v.range.start_page + call.slice_end
            &&& call.slice_start < call.slice_end <= v.range.end_page - v.range.start_page
        },
{
    if v.done < v.chunks().len() {
        lemma_chunk_within(v.range, v.pages_per_chunk, v.done as int);
    }
}

/// A bulk get has succeeded exactly if it came back with at least one reply
/// for each page of its slice. Its own failure is passed on; a reply short of
/// pages is an I/O failure without a number.
pub proof fn law_bulk_get_needs_a_reply_per_page(
    v: RangeFetchView,
    replies: Result<PageReplies, Error>,
)
    requires
        v.pages_per_chunk > 0,
        v.range.start_page <= v.range.end_page,
        v.done < v.chunks().len(),
    ensures
        ({
            let call = v.call()->0;
            match replies {
                Err(e) => v.judged(replies) == Err::<(), Error>(e),
                Ok(list) => {
                    &&& v.judged(replies) is Ok <==> list@.len() >= call.slice_end
                        - call.slice_start
                    &&& v.judged(replies) is Err ==> v.judged(replies) == Err::<(), Error>(
                        Error::Io(0),
                    )
                },
            }
        }),
{
    law_call_asks_for_its_slice(v);
    lemma_chunk_within(v.range, v.pages_per_chunk, v.done as int);
}

} // verus!
