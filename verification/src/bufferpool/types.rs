//! Value types of the buffer pool.

use crate::storage::types::same_bytes;
use crate::table::TableKey;
use crate::text;
use vstd::prelude::*;

verus! {

/// Pinned, NUMA-local backing. The embedder allocates it and keeps the
/// allocation alive; the pool just carves pages out of it. `base` is the
/// address of its first byte.
#[derive(Copy, Clone, Debug, PartialEq, Eq, Structural)]
pub struct Backing {
    pub base: usize,
    pub page_size: usize,
    pub page_count: usize,
}

/// Stable page identity. `page_idx` indexes into the pool's backing;
/// `offset` and `len` are intra-page.
#[derive(Copy, Clone, Debug, PartialEq, Eq, Structural, Hash)]
pub struct PageRef {
    pub page_idx: u32,
    pub offset: u32,
    pub len: u32,
}

/// Opaque content-addressed identifier for a stripe. The pool uses it only
/// for equality in single-flight coalescing.
#[derive(Copy, Clone, Debug, Eq, Hash)]
pub struct StripeKey(pub [u8; 32]);

impl PartialEq for StripeKey {
    fn eq(&self, other: &Self) -> (r: bool) {
        same_bytes(&self.0, &other.0)
    }
}

impl vstd::std_specs::cmp::PartialEqSpecImpl for StripeKey {
    open spec fn obeys_eq_spec() -> bool {
        true
    }

    open spec fn eq_spec(&self, other: &Self) -> bool {
        *self == *other
    }
}

impl TableKey for StripeKey {
    fn same(&self, other: &Self) -> (r: bool) {
        same_bytes(&self.0, &other.0)
    }
}

/// Half-open range of pages within one stripe.
#[derive(Clone, Copy, Debug, Eq, Hash)]
pub struct PageRange {
    pub stripe: StripeKey,
    pub start_page: u32,
    /// Exclusive.
    pub end_page: u32,
}

impl PartialEq for PageRange {
    fn eq(&self, other: &Self) -> (r: bool) {
        self.start_page == other.start_page && self.end_page == other.end_page && same_bytes(
            &self.stripe.0,
            &other.stripe.0,
        )
    }
}

impl vstd::std_specs::cmp::PartialEqSpecImpl for PageRange {
    open spec fn obeys_eq_spec() -> bool {
        true
    }

    open spec fn eq_spec(&self, other: &Self) -> bool {
        *self == *other
    }
}

impl PageRange {
    /// Number of pages in the range.
    pub fn len(&self) -> (r: u32)
        requires
            self.start_page <= self.end_page,
        ensures
            r == self.end_page - self.start_page,
    {
        self.end_page - self.start_page
    }

    /// Whether the range holds no page.
    pub fn is_empty(&self) -> (r: bool)
        ensures
            r == (self.end_page <= self.start_page),
    {
        self.end_page <= self.start_page
    }
}

/// What the transport actually delivered for one page in a range.
#[derive(Clone, Copy, Debug, PartialEq, Eq, Structural)]
pub struct PageReply {
    pub page_idx: u32,
    pub byte_len: u32,
}

/// Inline capacity of the reply list of one bulk get. One chunk's worth of
/// page replies in the small case fits inline without heap allocation.
pub const INLINE_PAGES: usize = 16;

/// Opaque peer identifier minted by the p2p layer.
#[derive(Copy, Clone, Debug, PartialEq, Eq, Structural, Hash)]
pub struct PeerId(pub u64);

/// Opaque node identifier minted by the p2p layer.
#[derive(Copy, Clone, Debug, PartialEq, Eq, Structural, Hash)]
pub struct NodeId(pub u64);

/// Opaque tracing handle. The pool does not inspect it.
#[derive(Clone, Debug, Default)]
pub struct TraceCtx;

/// Default chunk size in pages. At a 4 KiB page this is 2 MiB, one bulk get
/// per chunk.
pub const PAGES_PER_CHUNK: u32 = 512;

/// Default cap on concurrent streams.
pub const MAX_CONCURRENT_STREAMS: usize = 1024;

/// Pool tunables.
#[derive(Clone, Copy, Debug, PartialEq, Eq, Structural)]
pub struct PoolConfig {
    /// Caps the number of concurrent read streams the pool will admit. It
    /// is enforced only when a stream is opened.
    pub max_concurrent_streams: usize,
    /// Pages per bulk get. The pool splits any fetched range into chunks
    /// aligned on this boundary; each chunk becomes one bulk get. Must be
    /// non-zero; validated by [`PoolConfig::new`].
    pub pages_per_chunk: u32,
}

impl PoolConfig {
    /// A configuration with these tunables, unless `pages_per_chunk` is
    /// zero, which is an [`Error::BadConfig`].
    pub fn new(max_concurrent_streams: usize, pages_per_chunk: u32) -> (r: Result<Self, Error>)
        ensures
            r == if pages_per_chunk == 0 {
                Err(Error::BadConfig("pages_per_chunk must be non-zero"))
            } else {
                Ok(PoolConfig { max_concurrent_streams, pages_per_chunk })
            },
    {
        if pages_per_chunk == 0 {
            return Err(Error::BadConfig("pages_per_chunk must be non-zero"));
        }
        Ok(Self { max_concurrent_streams, pages_per_chunk })
    }
}

impl Default for PoolConfig {
    fn default() -> (r: Self)
        ensures
            r == (PoolConfig {
                max_concurrent_streams: MAX_CONCURRENT_STREAMS,
                pages_per_chunk: PAGES_PER_CHUNK,
            }),
    {
        Self {
            max_concurrent_streams: MAX_CONCURRENT_STREAMS,
            pages_per_chunk: PAGES_PER_CHUNK,
        }
    }
}

/// What lies behind a transport or block store failure, for display.
#[derive(Debug)]
pub enum Cause {
    /// A fixed message, convenient for embedders that need no more.
    Str(&'static str),
    /// The text of some other error.
    Text(String),
}

impl Cause {
    pub open spec fn text(self) -> Seq<char> {
        match self {
            Cause::Str(s) => s@,
            Cause::Text(s) => s@,
        }
    }
}

impl Clone for Cause {
    fn clone(&self) -> (r: Self)
        ensures
            r == *self,
    {
        match self {
            Cause::Str(s) => Cause::Str(*s),
            Cause::Text(s) => Cause::Text(s.clone()),
        }
    }
}

/// Failure modes of the pool and of the services it drives.
#[derive(Debug)]
pub enum Error {
    BadConfig(&'static str),
    Io(i32),
    BackingFull,
    PageOutOfRange,
    OffsetOutOfRange,
    StreamLimit,
    Transport(Cause),
    BlockStore(Cause),
}

impl Clone for Error {
    fn clone(&self) -> (r: Self)
        ensures
            r == *self,
    {
        match self {
            Error::BadConfig(s) => Error::BadConfig(*s),
            Error::Io(e) => Error::Io(*e),
            Error::BackingFull => Error::BackingFull,
            Error::PageOutOfRange => Error::PageOutOfRange,
            Error::OffsetOutOfRange => Error::OffsetOutOfRange,
            Error::StreamLimit => Error::StreamLimit,
            Error::Transport(c) => Error::Transport(c.clone()),
            Error::BlockStore(c) => Error::BlockStore(c.clone()),
        }
    }
}

impl From<&'static str> for Error {
    fn from(s: &'static str) -> (r: Self) {
        Error::Transport(Cause::Str(s))
    }
}

impl vstd::std_specs::convert::FromSpecImpl<&'static str> for Error {
    open spec fn obeys_from_spec() -> bool {
        true
    }

    open spec fn from_spec(s: &'static str) -> Self {
        Error::Transport(Cause::Str(s))
    }
}

impl Error {
    /// A transport failure with the text of the error behind it.
    pub fn transport<E>(e: E) -> (r: Self)
        where
            E: core::fmt::Display,
        ensures
            r matches Error::Transport(Cause::Text(s)) && vstd::string::to_string_from_display_ensures(
                &e,
                s,
            ),
    {
        Error::Transport(Cause::Text(e.to_string()))
    }

    /// A block store failure with the text of the error behind it.
    pub fn blockstore<E>(e: E) -> (r: Self)
        where
            E: core::fmt::Display,
        ensures
            r matches Error::BlockStore(Cause::Text(s)) && vstd::string::to_string_from_display_ensures(
                &e,
                s,
            ),
    {
        Error::BlockStore(Cause::Text(e.to_string()))
    }

    /// Text of the error.
    pub open spec fn text(self) -> Seq<char> {
        match self {
            Error::BadConfig(s) => "bad config: "@ + s@,
            Error::Io(e) => "io error: errno="@ + text::signed_decimal(e as int),
            Error::BackingFull => "backing full"@,
            Error::PageOutOfRange => "page index out of range"@,
            Error::OffsetOutOfRange => "read offset out of range"@,
            Error::StreamLimit => "max_concurrent_streams reached"@,
            Error::Transport(c) => "transport error: "@ + c.text(),
            Error::BlockStore(c) => "block store error: "@ + c.text(),
        }
    }

    /// Human-readable form of the error.
    pub fn message(&self) -> (r: String)
        ensures
            r@ == self.text(),
    {
        match self {
            Error::BadConfig(s) => {
                let mut out = "bad config: ".to_owned();
                out.append(*s);
                out
            },
            Error::Io(e) => {
                let mut out = "io error: errno=".to_owned();
                text::push_signed_decimal(&mut out, *e);
                out
            },
            Error::BackingFull => "backing full".to_owned(),
            Error::PageOutOfRange => "page index out of range".to_owned(),
            Error::OffsetOutOfRange => "read offset out of range".to_owned(),
            Error::StreamLimit => "max_concurrent_streams reached".to_owned(),
            Error::Transport(c) => {
                let mut out = "transport error: ".to_owned();
                push_cause(&mut out, c);
                out
            },
            Error::BlockStore(c) => {
                let mut out = "block store error: ".to_owned();
                push_cause(&mut out, c);
                out
            },
        }
    }
}

fn push_cause(out: &mut String, c: &Cause)
    ensures
        final(out)@ == old(out)@ + c.text(),
{
    match c {
        Cause::Str(s) => out.append(*s),
        Cause::Text(s) => out.append(s.as_str()),
    }
}

/// Texts name the failure and what lies behind it in full.
pub proof fn law_pool_texts(reason: &'static str, errno: i32, text: String)
    ensures
        Error::BadConfig(reason).text() == "bad config: "@ + reason@,
        Error::Io(errno).text() == "io error: errno="@ + text::signed_decimal(errno as int),
        Error::BackingFull.text() == "backing full"@,
        Error::PageOutOfRange.text() == "page index out of range"@,
        Error::OffsetOutOfRange.text() == "read offset out of range"@,
        Error::StreamLimit.text() == "max_concurrent_streams reached"@,
        Error::Transport(Cause::Str(reason)).text() == "transport error: "@ + reason@,
        Error::Transport(Cause::Text(text)).text() == "transport error: "@ + text@,
        Error::BlockStore(Cause::Str(reason)).text() == "block store error: "@ + reason@,
        Error::BlockStore(Cause::Text(text)).text() == "block store error: "@ + text@,
{
}

/// A bare message is the cause of a transport failure.
pub proof fn law_message_becomes_a_transport_failure(s: &'static str)
    ensures
        <Error as vstd::std_specs::convert::FromSpec<&'static str>>::from_spec(s)
            == Error::Transport(Cause::Str(s)),
{
}

/// Stripe keys are equal exactly if all their bytes are.
pub proof fn law_stripe_keys_compare_in_full(a: StripeKey, b: StripeKey)
    ensures
        vstd::std_specs::cmp::PartialEqSpec::eq_spec(&a, &b) <==> forall|i: int|
            0 <= i < 32 ==> a.0@[i] == b.0@[i],
{
    if forall|i: int| 0 <= i < 32 ==> a.0@[i] == b.0@[i] {
        assert(a.0 =~= b.0);
    }
}

/// Ranges are equal exactly if they hold the same pages, named by the same
/// ends, of the same stripe.
pub proof fn law_page_ranges_compare_in_full(a: PageRange, b: PageRange)
    ensures
        vstd::std_specs::cmp::PartialEqSpec::eq_spec(&a, &b) <==> a.start_page == b.start_page
            && a.end_page == b.end_page && (forall|i: int|
            0 <= i < 32 ==> a.stripe.0@[i] == b.stripe.0@[i]),
{
    if forall|i: int| 0 <= i < 32 ==> a.stripe.0@[i] == b.stripe.0@[i] {
        assert(a.stripe.0 =~= b.stripe.0);
    }
}

} // verus!
