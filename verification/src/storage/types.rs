//! Concrete value types shared across the storage subsystem.
//!
//! Kept deliberately small: every field has a single, well-defined
//! meaning so that higher layers can pass them around without having to
//! remember units or interpretations.

use crate::text;
use vstd::arithmetic::div_mod;
use vstd::arithmetic::mul;
use vstd::prelude::*;

verus! {

/// Identifies a single backing NVMe namespace in a storage shard.
#[derive(Copy, Clone, Eq, PartialEq, Structural, Hash, Debug)]
pub struct DiskId(pub u16);

/// Logical block address of a block device, in device pages, not bytes.
#[derive(Copy, Clone, Eq, PartialEq, Structural, Ord, PartialOrd, Hash, Debug, Default)]
pub struct Lba(pub u64);

impl Lba {
    /// The address that never names a page.
    pub fn invalid() -> (r: Lba)
        ensures
            r == Lba(u64::MAX),
    {
        Lba(u64::MAX)
    }

    /// Whether the address can name a page.
    pub fn is_valid(self) -> (r: bool)
        ensures
            r == (self != Lba(u64::MAX)),
    {
        self != Self::invalid()
    }

    /// Text of the address: `lba:` and its number.
    pub open spec fn text(self) -> Seq<char> {
        "lba:"@ + text::decimal(self.0 as nat)
    }

    /// Human-readable form of the address.
    pub fn message(&self) -> (r: String)
        ensures
            r@ == self.text(),
    {
        let mut out = "lba:".to_owned();
        text::push_decimal(&mut out, self.0);
        out
    }
}

/// 2^64 / phi, the standard 64-bit golden-ratio mixer constant
/// (Knuth, TAOCP 6.4). Used to decorrelate salt values and to
/// spread bloom-filter probe positions.
pub const GOLDEN_RATIO_64: u64 = 0x9e3779b97f4a7c15;

/// Offset basis of 64-bit FNV-1a.
pub const FNV_OFFSET: u64 = 0xcbf29ce484222325;

/// Prime of 64-bit FNV-1a.
pub const FNV_PRIME: u64 = 0x100000001b3;

/// One FNV-1a round: fold `x` into the running hash `h`.
pub open spec fn fnv_round(h: u64, x: u64) -> u64 {
    (h ^ x).wrapping_mul(FNV_PRIME)
}

/// Hash state an FNV-1a pass starts from, tagged with the caller's domain.
pub open spec fn fnv_start(domain: u32) -> u64 {
    FNV_OFFSET ^ (domain as u64).wrapping_mul(GOLDEN_RATIO_64)
}

/// FNV-1a over a byte sequence, from state `h`.
pub open spec fn fnv_bytes(h: u64, bytes: Seq<u8>) -> u64
    decreases bytes.len(),
{
    if bytes.len() == 0 {
        h
    } else {
        fnv_round(fnv_bytes(h, bytes.drop_last()), bytes.last() as u64)
    }
}

/// Big-endian bytes of a 32-bit number.
pub open spec fn be_bytes(x: u32) -> Seq<u8> {
    seq![
        (x / 0x100_0000) as u8,
        (x / 0x1_0000 % 0x100) as u8,
        (x / 0x100 % 0x100) as u8,
        (x % 0x100) as u8,
    ]
}

/// The number that four big-endian bytes stand for.
pub open spec fn be_value(bytes: Seq<u8>) -> int {
    bytes[0] * 0x100_0000 + bytes[1] * 0x1_0000 + bytes[2] * 0x100 + bytes[3]
}

/// Whether `a` and `b` agree up to position `i`, where `a` ends or holds the
/// smaller byte.
pub open spec fn falls_below_at(a: Seq<u8>, b: Seq<u8>, i: int) -> bool {
    &&& 0 <= i <= a.len()
    &&& i < b.len()
    &&& a.take(i) == b.take(i)
    &&& i < a.len() ==> a[i] < b[i]
}

/// Lexicographic order of byte sequences: at the first position where they
/// differ the smaller byte wins, and a proper prefix comes first.
pub open spec fn bytes_before(a: Seq<u8>, b: Seq<u8>) -> bool {
    exists|i: int| falls_below_at(a, b, i)
}

/// Whether two 32-byte arrays hold the same bytes.
pub fn same_bytes(a: &[u8; 32], b: &[u8; 32]) -> (r: bool)
    ensures
        r == (*a == *b),
{
    let mut i: usize = 0;
    while i < 32
        invariant
            i <= 32,
            forall|j: int| 0 <= j < i ==> a@[j] == b@[j],
        decreases 32 - i,
    {
        if a[i] != b[i] {
            return false;
        }
        i += 1;
    }
    assert(*a =~= *b);
    true
}

/// Cache-side key. `value_hash` is the cryptographic content hash of
/// the *object* the page belongs to (32 bytes); `page_index` is the
/// page-within-object offset (a single object spans many cached
/// pages). The pair uniquely identifies a cache page on this node.
#[derive(Copy, Clone, Eq, Ord, PartialOrd, Hash, Debug)]
pub struct PageKey {
    pub value_hash: [u8; 32],
    pub page_index: u32,
}

impl PartialEq for PageKey {
    fn eq(&self, other: &Self) -> (r: bool) {
        self.page_index == other.page_index && same_bytes(&self.value_hash, &other.value_hash)
    }
}

impl vstd::std_specs::cmp::PartialEqSpecImpl for PageKey {
    open spec fn obeys_eq_spec() -> bool {
        true
    }

    open spec fn eq_spec(&self, other: &Self) -> bool {
        *self == *other
    }
}

impl PageKey {
    /// Bytes of the canonical encoding: the hash, then the index big-endian.
    pub open spec fn encoding(self) -> Seq<u8> {
        self.value_hash@ + be_bytes(self.page_index)
    }

    /// What reading `bytes` as an encoding gives: a key whose hash is the
    /// first 32 bytes and whose index is the big-endian rest, exactly when
    /// there are 36 bytes.
    pub open spec fn decodes(bytes: Seq<u8>, r: Option<PageKey>) -> bool {
        match r {
            Some(k) => {
                &&& bytes.len() == 36
                &&& k.value_hash@ == bytes.take(32)
                &&& k.page_index == be_value(bytes.skip(32))
            },
            None => bytes.len() != 36,
        }
    }

    /// Hash of the key in a caller's domain.
    pub open spec fn mixed(self, domain: u32) -> u64 {
        fnv_round(fnv_bytes(fnv_start(domain), self.value_hash@), self.page_index as u64)
    }

    pub fn new(value_hash: [u8; 32], page_index: u32) -> (r: Self)
        ensures
            r == (PageKey { value_hash, page_index }),
    {
        Self { value_hash, page_index }
    }

    /// Canonical byte encoding used as a btree key. Big-endian
    /// `page_index` so lexicographic order matches numeric order
    /// within a value.
    pub fn encode(&self) -> (out: [u8; 36])
        ensures
            out@ == self.encoding(),
            out@.take(32) == self.value_hash@,
            out@[32] * 0x100_0000 + out@[33] * 0x1_0000 + out@[34] * 0x100 + out@[35]
                == self.page_index,
    {
        let mut out = [0u8; 36];
        let mut i: usize = 0;
        while i < 32
            invariant
                i <= 32,
                out@.len() == 36,
                forall|j: int| 0 <= j < i ==> out@[j] == self.value_hash@[j],
            decreases 32 - i,
        {
            out[i] = self.value_hash[i];
            i += 1;
        }
        let x = self.page_index;
        out[32] = (x / 0x100_0000) as u8;
        out[33] = (x / 0x1_0000 % 0x100) as u8;
        out[34] = (x / 0x100 % 0x100) as u8;
        out[35] = (x % 0x100) as u8;
        assert(out@ =~= self.encoding());
        proof {
            lemma_be_value_of_bytes(x);
            assert(out@.take(32) =~= self.value_hash@);
            assert(out@.skip(32) =~= be_bytes(x));
            assert(be_value(out@.skip(32)) == x);
        }
        out
    }

    /// Reads a key back from its encoding; `None` unless `bytes` is exactly
    /// one encoding long.
    pub fn decode(bytes: &[u8]) -> (r: Option<Self>)
        ensures
            Self::decodes(bytes@, r),
            r is Some <==> bytes@.len() == 36,
            r matches Some(k) ==> {
                &&& k.value_hash@ == bytes@.take(32)
                &&& k.page_index == bytes@[32] * 0x100_0000 + bytes@[33] * 0x1_0000 + bytes@[34]
                    * 0x100 + bytes@[35]
            },
    {
        if bytes.len() != 36 {
            return None;
        }
        let mut vh = [0u8; 32];
        let mut i: usize = 0;
        while i < 32
            invariant
                i <= 32,
                bytes@.len() == 36,
                forall|j: int| 0 <= j < i ==> vh@[j] == bytes@[j],
            decreases 32 - i,
        {
            vh[i] = bytes[i];
            i += 1;
        }
        let page_index: u32 = bytes[32] as u32 * 0x100_0000 + bytes[33] as u32 * 0x1_0000
            + bytes[34] as u32 * 0x100 + bytes[35] as u32;
        let key = Self { value_hash: vh, page_index };
        proof {
            assert(vh@ =~= bytes@.take(32));
            let tail = bytes@.skip(32);
            assert(page_index == be_value(tail));
        }
        Some(key)
    }

    /// FNV-1a-style mixer over the key's bytes, tagged with a
    /// per-caller domain separator. Used by admission's count-min
    /// sketch and the fill gate's shard selector. Not cryptographic;
    /// the `domain` tag is not a secret and only exists to give
    /// different callers near-independent 64-bit lanes.
    pub fn mix(&self, domain: u32) -> (r: u64)
        ensures
            r == self.mixed(domain),
    {
        let mut h: u64 = FNV_OFFSET ^ (domain as u64).wrapping_mul(GOLDEN_RATIO_64);
        let mut i: usize = 0;
        while i < 32
            invariant
                i <= 32,
                h == fnv_bytes(fnv_start(domain), self.value_hash@.take(i as int)),
            decreases 32 - i,
        {
            h = (h ^ self.value_hash[i] as u64).wrapping_mul(FNV_PRIME);
            proof {
                let longer = self.value_hash@.take(i + 1);
                assert(longer.drop_last() =~= self.value_hash@.take(i as int));
            }
            i += 1;
        }
        assert(self.value_hash@.take(32) =~= self.value_hash@);
        (h ^ self.page_index as u64).wrapping_mul(FNV_PRIME)
    }
}

/// 64-bit page/data checksum, used for page integrity and payload integrity.
#[derive(Copy, Clone, Eq, PartialEq, Structural, Hash, Debug, Default)]
pub struct Checksum(pub u64);

impl Checksum {
    /// The checksum of nothing.
    pub fn zero() -> (r: Checksum)
        ensures
            r == Checksum(0),
    {
        Checksum(0)
    }
}

/// Where the index says a cached page lives, and how to check it.
#[derive(Copy, Clone, Eq, PartialEq, Structural, Debug)]
pub struct LeafEntry {
    pub lba: Lba,
    pub data_checksum: Checksum,
    pub byte_len: u32,
}

/// Failure modes surfaced by the storage subsystem. Almost every failure
/// of the underlying disk is treated as "this page is not in cache", so the
/// variants only separate I/O faults from logical misuse.
#[derive(Debug, Clone, Copy, PartialEq, Eq, Structural)]
pub enum Error {
    /// Generic I/O error from the underlying device. The integer is
    /// `errno` when there is one; `0` otherwise.
    Io(i32),
    /// Data read back failed its checksum or had a structurally invalid
    /// layout. Higher layers convert this into a cache miss.
    Corrupt,
    /// Allocator is out of free pages on this disk.
    OutOfSpace,
    /// Operation was cancelled because the engine is shutting down.
    Cancelled,
    /// Caller passed an LBA / index outside the device's capacity.
    OutOfRange,
}

impl Error {
    /// Text of the error.
    pub open spec fn text(self) -> Seq<char> {
        match self {
            Error::Io(e) => "storage io error: errno="@ + text::signed_decimal(e as int),
            Error::Corrupt => "storage corruption detected"@,
            Error::OutOfSpace => "storage allocator out of space"@,
            Error::Cancelled => "storage operation cancelled"@,
            Error::OutOfRange => "storage offset out of range"@,
        }
    }

    /// Human-readable form of the error.
    pub fn message(&self) -> (r: String)
        ensures
            r@ == self.text(),
    {
        match self {
            Error::Io(e) => {
                let mut out = "storage io error: errno=".to_owned();
                text::push_signed_decimal(&mut out, *e);
                out
            },
            Error::Corrupt => "storage corruption detected".to_owned(),
            Error::OutOfSpace => "storage allocator out of space".to_owned(),
            Error::Cancelled => "storage operation cancelled".to_owned(),
            Error::OutOfRange => "storage offset out of range".to_owned(),
        }
    }
}

proof fn lemma_be_bytes_of_value(bytes: Seq<u8>, x: u32)
    requires
        bytes.len() == 4,
        x == be_value(bytes),
    ensures
        be_bytes(x) == bytes,
{
    let low = bytes[1] * 0x1_0000 + bytes[2] * 0x100 + bytes[3];
    assert(x == bytes[0] * 0x100_0000 + low && 0 <= low < 0x100_0000);
    assert(x / 0x100_0000 == bytes[0]);
    assert(x / 0x1_0000 == bytes[0] * 0x100 + bytes[1]);
    assert(x / 0x100 == bytes[0] * 0x1_0000 + bytes[1] * 0x100 + bytes[2]);
    assert(be_bytes(x) =~= bytes);
}

proof fn lemma_be_value_of_bytes(x: u32)
    ensures
        be_value(be_bytes(x)) == x,
{
    let high = x / 0x100;
    let top = high / 0x100;
    assert(x / 0x1_0000 == top);
    assert(x / 0x100_0000 == top / 0x100);
    assert(x == high * 0x100 + x % 0x100);
    assert(high == top * 0x100 + high % 0x100);
    assert(top == (top / 0x100) * 0x100 + top % 0x100);
}

/// Decoding an encoded key gives the key back.
pub proof fn law_decode_undoes_encode(key: PageKey, decoded: Option<PageKey>)
    requires
        PageKey::decodes(key.encoding(), decoded),
    ensures
        decoded == Some(key),
{
    let bytes = key.encoding();
    assert(bytes.take(32) =~= key.value_hash@);
    assert(bytes.skip(32) =~= be_bytes(key.page_index));
    lemma_be_value_of_bytes(key.page_index);
    assert(decoded->0.value_hash =~= key.value_hash);
}

/// Encoding a decoded key gives the bytes back.
pub proof fn law_encode_undoes_decode(bytes: Seq<u8>, key: PageKey)
    requires
        PageKey::decodes(bytes, Some(key)),
    ensures
        key.encoding() == bytes,
{
    lemma_be_bytes_of_value(bytes.skip(32), key.page_index);
    assert(bytes =~= bytes.take(32) + bytes.skip(32));
}

/// Different keys have different encodings.
pub proof fn law_encoding_is_injective(a: PageKey, b: PageKey)
    requires
        a.encoding() == b.encoding(),
    ensures
        a == b,
{
    assert(a.encoding().skip(32) =~= be_bytes(a.page_index));
    assert(a.encoding().take(32) =~= a.value_hash@);
    lemma_be_value_of_bytes(a.page_index);
    law_decode_undoes_encode(b, Some(a));
}

proof fn lemma_be_order(x: u32, y: u32)
    requires
        x < y,
    ensures
        exists|i: int|
            {
                &&& 0 <= i < 4
                &&& #[trigger] be_bytes(x).take(i) == be_bytes(y).take(i)
                &&& be_bytes(x)[i] < be_bytes(y)[i]
            },
{
    let a = be_bytes(x);
    let b = be_bytes(y);
    lemma_be_value_of_bytes(x);
    lemma_be_value_of_bytes(y);
    let i: int = if a[0] != b[0] {
        0
    } else if a[1] != b[1] {
        1
    } else if a[2] != b[2] {
        2
    } else {
        3
    };
    assert(a.take(i) =~= b.take(i));
}

/// Within one value, encodings sort as their page indices do.
pub proof fn law_encoding_orders_by_index(a: PageKey, b: PageKey)
    requires
        a.value_hash == b.value_hash,
    ensures
        bytes_before(a.encoding(), b.encoding()) <==> a.page_index < b.page_index,
{
    let ea = a.encoding();
    let eb = b.encoding();
    let ta = be_bytes(a.page_index);
    let tb = be_bytes(b.page_index);
    lemma_be_value_of_bytes(a.page_index);
    lemma_be_value_of_bytes(b.page_index);
    assert forall|j: int| 0 <= j < 4 implies ea[32 + j] == ta[j] && eb[32 + j] == tb[j] by {}
    if a.page_index < b.page_index {
        lemma_be_order(a.page_index, b.page_index);
        let i = choose|i: int|
            {
                &&& 0 <= i < 4
                &&& #[trigger] ta.take(i) == tb.take(i)
                &&& ta[i] < tb[i]
            };
        assert(ea.take(32 + i) =~= a.value_hash@ + ta.take(i));
        assert(eb.take(32 + i) =~= b.value_hash@ + tb.take(i));
        assert(falls_below_at(ea, eb, 32 + i));
    } else if bytes_before(ea, eb) {
        let n = choose|i: int| falls_below_at(ea, eb, i);
        assert forall|j: int| 0 <= j < n implies ea[j] == eb[j] by {
            assert(ea.take(n)[j] == eb.take(n)[j]);
        }
        assert(n >= 32);
        let k = n - 32;
        assert forall|j: int| 0 <= j < k implies ta[j] == tb[j] by {
            assert(ea[32 + j] == eb[32 + j]);
        }
        assert(ta[k] < tb[k]);
    }
}

/// Across values, encodings sort as the value hashes do.
pub proof fn law_encoding_orders_by_value(a: PageKey, b: PageKey)
    requires
        a.value_hash != b.value_hash,
    ensures
        bytes_before(a.encoding(), b.encoding()) <==> bytes_before(a.value_hash@, b.value_hash@),
{
    let ea = a.encoding();
    let eb = b.encoding();
    let ha = a.value_hash@;
    let hb = b.value_hash@;
    assert forall|i: int| 0 <= i <= 32 implies #[trigger] ea.take(i) == ha.take(i) by {
        assert(ea.take(i) =~= ha.take(i));
    }
    assert forall|i: int| 0 <= i <= 32 implies #[trigger] eb.take(i) == hb.take(i) by {
        assert(eb.take(i) =~= hb.take(i));
    }
    if bytes_before(ha, hb) {
        let i = choose|i: int| falls_below_at(ha, hb, i);
        assert(ea.take(i) == eb.take(i));
        assert(falls_below_at(ea, eb, i));
    }
    if bytes_before(ea, eb) {
        let n = choose|i: int| falls_below_at(ea, eb, i);
        if n >= 32 {
            assert forall|j: int| 0 <= j < 32 implies ha[j] == hb[j] by {
                assert(ea.take(n)[j] == eb.take(n)[j]);
            }
            assert(a.value_hash =~= b.value_hash);
            assert(false);
        }
        assert(ea.take(n) == ha.take(n) && eb.take(n) == hb.take(n));
        assert(falls_below_at(ha, hb, n));
    }
}

/// Wrapping multiplication by a number that has an inverse keeps different
/// numbers apart.
proof fn lemma_wrapping_mul_is_injective(a: u64, b: u64, times: u64, inverse: u64)
    requires
        times * inverse % 0x1_0000_0000_0000_0000 == 1,
        a.wrapping_mul(times) == b.wrapping_mul(times),
    ensures
        a == b,
{
    let m = 0x1_0000_0000_0000_0000int;
    let p = times as int;
    let q = inverse as int;
    lemma_undo_mul(a as int, p, q, m);
    lemma_undo_mul(b as int, p, q, m);
}

/// Multiplying by an inverse undoes a multiplication.
proof fn lemma_undo_mul(a: int, p: int, q: int, m: int)
    requires
        m > 1,
        0 <= a < m,
        p * q % m == 1,
    ensures
        (a * p % m) * q % m == a,
{
    div_mod::lemma_mul_mod_noop_left(a * p, q, m);
    mul::lemma_mul_is_associative(a, p, q);
    div_mod::lemma_mul_mod_noop_right(a, p * q, m);
    div_mod::lemma_small_mod(a as nat, m as nat);
}

/// A round keeps different hash states apart, and different inputs.
proof fn lemma_round_is_injective(g: u64, h: u64, x: u64, y: u64)
    requires
        fnv_round(g, x) == fnv_round(h, y),
    ensures
        g == h <==> x == y,
{
    let inverse = 0xce965057aff6957bu64;
    assert(FNV_PRIME * inverse % 0x1_0000_0000_0000_0000 == 1);
    lemma_wrapping_mul_is_injective(g ^ x, h ^ y, FNV_PRIME, inverse);
    assert(g ^ x == h ^ y ==> (g == h <==> x == y)) by (bit_vector);
}

/// A pass over the same bytes keeps different hash states apart.
proof fn lemma_pass_is_injective(g: u64, h: u64, bytes: Seq<u8>)
    requires
        g != h,
    ensures
        fnv_bytes(g, bytes) != fnv_bytes(h, bytes),
    decreases bytes.len(),
{
    if bytes.len() > 0 {
        let most = bytes.drop_last();
        let last = bytes.last() as u64;
        lemma_pass_is_injective(g, h, most);
        if fnv_bytes(g, bytes) == fnv_bytes(h, bytes) {
            lemma_round_is_injective(fnv_bytes(g, most), fnv_bytes(h, most), last, last);
        }
    }
}

/// Different domains give a key different hashes: each caller has a lane of
/// its own.
pub proof fn law_domains_are_separate_lanes(key: PageKey, a: u32, b: u32)
    requires
        a != b,
    ensures
        key.mixed(a) != key.mixed(b),
{
    let x = (a as u64).wrapping_mul(GOLDEN_RATIO_64);
    let y = (b as u64).wrapping_mul(GOLDEN_RATIO_64);
    let inverse = 0xf1de83e19937733du64;
    assert(GOLDEN_RATIO_64 * inverse % 0x1_0000_0000_0000_0000 == 1);
    if x == y {
        lemma_wrapping_mul_is_injective(a as u64, b as u64, GOLDEN_RATIO_64, inverse);
    }
    assert(x != y ==> FNV_OFFSET ^ x != FNV_OFFSET ^ y) by (bit_vector);
    let bytes = key.value_hash@;
    lemma_pass_is_injective(fnv_start(a), fnv_start(b), bytes);
    if key.mixed(a) == key.mixed(b) {
        let index = key.page_index as u64;
        lemma_round_is_injective(
            fnv_bytes(fnv_start(a), bytes),
            fnv_bytes(fnv_start(b), bytes),
            index,
            index,
        );
    }
}

/// Different pages of one value have different hashes in every domain.
pub proof fn law_pages_of_a_value_hash_apart(a: PageKey, b: PageKey, domain: u32)
    requires
        a.value_hash == b.value_hash,
        a.page_index != b.page_index,
    ensures
        a.mixed(domain) != b.mixed(domain),
{
    if a.mixed(domain) == b.mixed(domain) {
        let h = fnv_bytes(fnv_start(domain), a.value_hash@);
        lemma_round_is_injective(h, h, a.page_index as u64, b.page_index as u64);
    }
}

/// The hash is 64-bit FNV-1a over the 32 bytes of the value hash and then the
/// page index as one more word: from its offset basis, tagged with the domain
/// spread by the golden ratio, each step folds one of them in and multiplies
/// by the FNV prime.
pub proof fn law_mix_is_fnv1a_of_the_whole_key(key: PageKey, domain: u32)
    ensures
        ({
            let m = 0x1_0000_0000_0000_0000int;
            let prime = 0x100_0000_01b3int;
            let start = 0xcbf2_9ce4_8422_2325u64 ^ ((domain * 0x9e37_79b9_7f4a_7c15) % m) as u64;
            let step = |h: u64, b: u8| (((h ^ (b as u64)) * prime) % m) as u64;
            let folded = key.value_hash@.fold_left(start, step);
            key.mixed(domain) == ((folded ^ (key.page_index as u64)) * prime) % m
        }),
{
    let m = 0x1_0000_0000_0000_0000int;
    let prime = 0x100_0000_01b3int;
    let start = 0xcbf2_9ce4_8422_2325u64 ^ ((domain * 0x9e37_79b9_7f4a_7c15) % m) as u64;
    let step = |h: u64, b: u8| (((h ^ (b as u64)) * prime) % m) as u64;
    assert(start == fnv_start(domain));
    lemma_pass_is_a_fold(start, key.value_hash@, step);
}

proof fn lemma_pass_is_a_fold(h: u64, bytes: Seq<u8>, step: spec_fn(u64, u8) -> u64)
    requires
        forall|g: u64, b: u8| #[trigger] step(g, b) == fnv_round(g, b as u64),
    ensures
        bytes.fold_left(h, step) == fnv_bytes(h, bytes),
    decreases bytes.len(),
{
    if bytes.len() > 0 {
        lemma_pass_is_a_fold(h, bytes.drop_last(), step);
    }
}

/// A pass tells apart two sequences that differ in one byte.
proof fn lemma_pass_tells_one_byte(h: u64, a: Seq<u8>, b: Seq<u8>, i: int)
    requires
        a.len() == b.len(),
        0 <= i < a.len(),
        a[i] != b[i],
        forall|j: int| 0 <= j < a.len() && j != i ==> a[j] == b[j],
    ensures
        fnv_bytes(h, a) != fnv_bytes(h, b),
    decreases a.len(),
{
    let x = a.last() as u64;
    let y = b.last() as u64;
    let most_a = a.drop_last();
    let most_b = b.drop_last();
    if i == a.len() - 1 {
        assert(most_a =~= most_b);
    } else {
        lemma_pass_tells_one_byte(h, most_a, most_b, i);
    }
    if fnv_bytes(h, a) == fnv_bytes(h, b) {
        lemma_round_is_injective(fnv_bytes(h, most_a), fnv_bytes(h, most_b), x, y);
    }
}

/// Keys that differ in one byte of the value hash have different hashes in
/// every domain: the value hash has its part in the hash, byte for byte.
pub proof fn law_values_hash_apart(a: PageKey, b: PageKey, i: int, domain: u32)
    requires
        0 <= i < 32,
        a.value_hash@[i] != b.value_hash@[i],
        forall|j: int| 0 <= j < 32 && j != i ==> a.value_hash@[j] == b.value_hash@[j],
        a.page_index == b.page_index,
    ensures
        a.mixed(domain) != b.mixed(domain),
{
    let start = fnv_start(domain);
    lemma_pass_tells_one_byte(start, a.value_hash@, b.value_hash@, i);
    if a.mixed(domain) == b.mixed(domain) {
        let index = a.page_index as u64;
        lemma_round_is_injective(
            fnv_bytes(start, a.value_hash@),
            fnv_bytes(start, b.value_hash@),
            index,
            index,
        );
    }
}

/// Texts name the address or the failure in full.
pub proof fn law_storage_texts(n: u64, errno: i32)
    ensures
        Lba(n).text() == "lba:"@ + text::decimal(n as nat),
        Error::Io(errno).text() == "storage io error: errno="@ + text::signed_decimal(
            errno as int,
        ),
        Error::Corrupt.text() == "storage corruption detected"@,
        Error::OutOfSpace.text() == "storage allocator out of space"@,
        Error::Cancelled.text() == "storage operation cancelled"@,
        Error::OutOfRange.text() == "storage offset out of range"@,
{
}

/// Keys are equal exactly if all bytes of the value hash and the page index
/// are.
pub proof fn law_page_keys_compare_in_full(a: PageKey, b: PageKey)
    ensures
        vstd::std_specs::cmp::PartialEqSpec::eq_spec(&a, &b) <==> a.page_index == b.page_index && (
        forall|i: int| 0 <= i < 32 ==> a.value_hash@[i] == b.value_hash@[i]),
{
    if forall|i: int| 0 <= i < 32 ==> a.value_hash@[i] == b.value_hash@[i] {
        assert(a.value_hash =~= b.value_hash);
    }
}

} // verus!
