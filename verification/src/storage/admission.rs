//! TinyLFU-style admission filter.
//!
//! "Admit on second touch" by way of a doorkeeper bloom filter. The first
//! time a [`PageKey`] is offered, `should_admit` returns `false` and the key
//! is recorded; later calls within the same epoch return `true`. This keeps
//! one-hit wonders from polluting the resident set.
//!
//! A count-min sketch tracks approximate frequencies beside it
//! (`record_frequency` / `frequency`); the admission decision only consults
//! the doorkeeper.
//!
//! All state is in memory and starts empty: bloom mistakes are bounded and
//! the cache tolerates warm-up. Callers that share a filter between threads
//! put it behind a lock.

use crate::storage::types;
use crate::storage::types::{PageKey, GOLDEN_RATIO_64};
use vstd::arithmetic::div_mod;
use vstd::arithmetic::mul;
use vstd::prelude::*;

verus! {

/// Probes the doorkeeper makes per key.
pub const NUM_HASHES: u32 = 3;

/// Rows of the count-min sketch.
pub const SKETCH_ROWS: usize = 4;

/// Domain tag of the doorkeeper probes. Sketch rows use the domains from 1
/// up, so 0 is reserved for the doorkeeper.
pub const DOORKEEPER_DOMAIN: u32 = 0;

/// Abstract state of an admission filter.
pub struct FilterView {
    /// Number of bits in the doorkeeper.
    pub bits: u64,
    /// Counters per sketch row.
    pub width: u32,
    /// Positions of the doorkeeper bits that are set.
    pub door: Set<int>,
    /// Counters of the sketch, row by row.
    pub rows: Seq<Seq<u8>>,
    /// Admissions since the sketch was last aged or reset.
    pub inserts: u64,
    /// Admissions after which the sketch is aged.
    pub threshold: u64,
}

/// Position of the `i`-th doorkeeper probe for `key` among `bits` bits.
pub open spec fn probe(key: PageKey, bits: u64, i: u32) -> int {
    (key.mixed(DOORKEEPER_DOMAIN).wrapping_add((i as u64).wrapping_mul(GOLDEN_RATIO_64)) % bits) as int
}

/// Whether every one of the first `n` probes for `key` hits a set bit.
pub open spec fn knows(door: Set<int>, key: PageKey, bits: u64, n: u32) -> bool {
    forall|i: u32| i < n ==> #[trigger] door.contains(probe(key, bits, i))
}

/// The set bits after the first `n` probes for `key` have set theirs.
pub open spec fn with_probes(door: Set<int>, key: PageKey, bits: u64, n: u32) -> Set<int>
    decreases n,
{
    if n == 0 {
        door
    } else {
        with_probes(door, key, bits, (n - 1) as u32).insert(probe(key, bits, (n - 1) as u32))
    }
}

/// Counter that `key` uses in a sketch row.
pub open spec fn cell(key: PageKey, row: int, width: u32) -> int {
    (key.mixed((row + 1) as u32) % (width as u64)) as int
}

/// A counter after one more touch: it sticks at its maximum.
pub open spec fn touched(c: u8) -> u8 {
    if c < u8::MAX {
        (c + 1) as u8
    } else {
        c
    }
}

/// The sketch after one more touch of `key`.
pub open spec fn bumped(rows: Seq<Seq<u8>>, key: PageKey, width: u32) -> Seq<Seq<u8>> {
    Seq::new(
        rows.len(),
        |r: int| rows[r].update(cell(key, r, width), touched(rows[r][cell(key, r, width)])),
    )
}

/// The sketch with every counter halved.
pub open spec fn aged(rows: Seq<Seq<u8>>) -> Seq<Seq<u8>> {
    Seq::new(rows.len(), |r: int| Seq::new(rows[r].len(), |j: int| (rows[r][j] / 2) as u8))
}

/// The smallest counter of `key` over the first `n` rows.
pub open spec fn least(rows: Seq<Seq<u8>>, key: PageKey, width: u32, n: int) -> int
    decreases n,
{
    if n <= 0 {
        u8::MAX as int
    } else {
        let before = least(rows, key, width, n - 1);
        let here = rows[n - 1][cell(key, n - 1, width)] as int;
        if here < before {
            here
        } else {
            before
        }
    }
}

/// Number of doorkeeper bits for a capacity in pages: eight per page, and
/// at least 64.
pub open spec fn door_bits(capacity_pages: u64) -> int {
    if capacity_pages < 8 {
        64
    } else {
        capacity_pages * 8
    }
}

/// Words of 64 bits that hold `bits` bits.
pub open spec fn door_words(bits: int) -> int {
    (bits + 63) / 64
}

/// Counters per sketch row: the capacity's low 32 bits times the
/// multiplier, both taken as at least one before that, capped at 32 bits.
pub open spec fn row_width(capacity_pages: u64, sketch_multiplier: u32) -> int {
    let pages = if capacity_pages == 0 {
        1
    } else {
        capacity_pages as int % 0x1_0000_0000
    };
    let times = if sketch_multiplier == 0 {
        1
    } else {
        sketch_multiplier as int
    };
    if pages * times > u32::MAX {
        u32::MAX as int
    } else {
        pages * times
    }
}

/// Admissions between two agings: ten per page of capacity.
pub open spec fn aging_threshold(capacity_pages: u64) -> int {
    if capacity_pages == 0 {
        10
    } else if capacity_pages * 10 > u64::MAX {
        u64::MAX as int
    } else {
        capacity_pages * 10
    }
}

impl FilterView {
    /// A filter that has seen nothing.
    pub open spec fn fresh(capacity_pages: u64, sketch_multiplier: u32) -> FilterView {
        let width = row_width(capacity_pages, sketch_multiplier) as u32;
        FilterView {
            bits: door_bits(capacity_pages) as u64,
            width,
            door: Set::empty(),
            rows: Seq::new(
                SKETCH_ROWS as nat,
                |r: int| Seq::new(width as nat, |j: int| 0u8),
            ),
            inserts: 0,
            threshold: aging_threshold(capacity_pages) as u64,
        }
    }

    /// Shape that every operation keeps.
    pub open spec fn wf(self) -> bool {
        &&& self.bits >= 64
        &&& self.rows.len() == SKETCH_ROWS
        &&& forall|r: int| 0 <= r < SKETCH_ROWS ==> (#[trigger] self.rows[r]).len() == self.width
        &&& self.inserts < self.threshold
        &&& forall|b: int| #[trigger] self.door.contains(b) ==> 0 <= b < self.bits
    }

    /// Whether the doorkeeper lets `key` in.
    pub open spec fn admits(self, key: PageKey) -> bool {
        knows(self.door, key, self.bits, NUM_HASHES)
    }

    /// The state after `key` was offered.
    pub open spec fn offered(self, key: PageKey) -> FilterView {
        let door = with_probes(self.door, key, self.bits, NUM_HASHES);
        if self.admits(key) {
            let rows = bumped(self.rows, key, self.width);
            if self.inserts + 1 >= self.threshold {
                FilterView { door, rows: aged(rows), inserts: 0, ..self }
            } else {
                FilterView { door, rows, inserts: (self.inserts + 1) as u64, ..self }
            }
        } else {
            FilterView { door, ..self }
        }
    }

    /// The state after `key` was recorded in the sketch alone.
    pub open spec fn recorded(self, key: PageKey) -> FilterView {
        FilterView { rows: bumped(self.rows, key, self.width), ..self }
    }

    /// The state after everything was forgotten.
    pub open spec fn emptied(self) -> FilterView {
        FilterView {
            door: Set::empty(),
            rows: Seq::new(
                SKETCH_ROWS as nat,
                |r: int| Seq::new(self.width as nat, |j: int| 0u8),
            ),
            inserts: 0,
            ..self
        }
    }

    /// The sketch's estimate for `key`.
    pub open spec fn estimate(self, key: PageKey) -> int {
        least(self.rows, key, self.width, SKETCH_ROWS as int)
    }
}

/// Whether bit `b` of a bit vector kept in 64-bit words is set.
spec fn bit_of(words: Seq<u64>, b: int) -> bool {
    (words[b / 64] >> ((b % 64) as u64)) & 1u64 == 1u64
}

/// The set bits of a bit vector kept in 64-bit words.
spec fn bits_of(words: Seq<u64>, bits: u64) -> Set<int> {
    Set::new(|b: int| 0 <= b < bits && bit_of(words, b))
}

/// Rows of a sketch as sequences.
spec fn rows_of(rows: [Vec<u8>; SKETCH_ROWS]) -> Seq<Seq<u8>> {
    Seq::new(SKETCH_ROWS as nat, |r: int| rows@[r]@)
}

proof fn lemma_set_bit(w: u64, b: u64, c: u64)
    by (bit_vector)
    requires
        b < 64,
        c < 64,
    ensures
        ((w | (1u64 << b)) >> c) & 1u64 == (if b == c {
            1u64
        } else {
            (w >> c) & 1u64
        }),
        (w & (1u64 << b) == 0) == ((w >> b) & 1u64 == 0),
        (w >> b) & 1u64 == 0 || (w >> b) & 1u64 == 1,
{
}

proof fn lemma_probes_cover(door: Set<int>, key: PageKey, bits: u64, n: u32)
    ensures
        forall|b: int| #[trigger]
            with_probes(door, key, bits, n).contains(b) <==> (door.contains(b) || exists|j: u32|
                j < n && b == #[trigger] probe(key, bits, j)),
    decreases n,
{
    if n > 0 {
        let m = (n - 1) as u32;
        lemma_probes_cover(door, key, bits, m);
        assert forall|b: int| #[trigger]
            with_probes(door, key, bits, n).contains(b) <==> (door.contains(b) || exists|j: u32|
                j < n && b == #[trigger] probe(key, bits, j)) by {
            if with_probes(door, key, bits, n).contains(b) && !door.contains(b) {
                if b != probe(key, bits, m) {
                    assert(with_probes(door, key, bits, m).contains(b));
                }
            }
            if exists|j: u32| j < n && b == #[trigger] probe(key, bits, j) {
                let j = choose|j: u32| j < n && b == #[trigger] probe(key, bits, j);
                if j < m {
                    assert(with_probes(door, key, bits, m).contains(b));
                }
            }
        }
    }
}

/// Setting bit `at` in its word adds `at` to the set bits, and testing the
/// word against the bit's mask tells whether it was there.
proof fn lemma_set_door_bit(words: Seq<u64>, bits: u64, at: u64)
    requires
        at < bits,
        words.len() * 64 >= bits,
    ensures
        ({
            let w = words[(at / 64) as int];
            let mask = 1u64 << (at % 64);
            &&& bits_of(words, bits).contains(at as int) == (w & mask != 0)
            &&& bits_of(words.update((at / 64) as int, w | mask), bits) == bits_of(words, bits).insert(
                at as int,
            )
        }),
{
    let w = words[(at / 64) as int];
    let mask = 1u64 << (at % 64);
    let after = words.update((at / 64) as int, w | mask);
    lemma_set_bit(w, at % 64, at % 64);
    assert forall|b: int| 0 <= b < bits implies bit_of(after, b) == (b == at || bit_of(
        words,
        b,
    )) by {
        if b / 64 == at / 64 {
            lemma_set_bit(w, at % 64, (b % 64) as u64);
        }
    }
    assert(bits_of(after, bits) =~= bits_of(words, bits).insert(at as int));
}

/// The next probe finds its bit set among the bits set so far, and all
/// earlier ones found theirs, exactly when all of them were set beforehand.
proof fn lemma_next_probe(door: Set<int>, key: PageKey, bits: u64, n: u32)
    requires
        n < u32::MAX,
    ensures
        knows(door, key, bits, (n + 1) as u32) <==> (knows(door, key, bits, n) && with_probes(
            door,
            key,
            bits,
            n,
        ).contains(probe(key, bits, n))),
{
    lemma_probes_cover(door, key, bits, n);
    if knows(door, key, bits, (n + 1) as u32) {
        assert forall|j: u32| j < n implies #[trigger] door.contains(probe(key, bits, j)) by {}
        assert(door.contains(probe(key, bits, n)));
    }
    if knows(door, key, bits, n) && with_probes(door, key, bits, n).contains(probe(key, bits, n)) {
        assert(door.contains(probe(key, bits, n)));
        assert forall|j: u32| j < n + 1 implies #[trigger] door.contains(probe(key, bits, j)) by {}
    }
}

/// Position of the `i`-th doorkeeper probe, from the key's hash.
fn probe_position(key: &PageKey, h: u64, bits: u64, i: u32) -> (r: u64)
    requires
        bits > 0,
        h == key.mixed(DOORKEEPER_DOMAIN),
    ensures
        r == probe(*key, bits, i),
        r < bits,
{
    h.wrapping_add((i as u64).wrapping_mul(GOLDEN_RATIO_64)) % bits
}

/// Sets the doorkeeper bits of `key` and reports whether all were set before.
fn doorkeeper_probe_and_set(words: &mut Vec<u64>, bits: u64, key: &PageKey) -> (all_set: bool)
    requires
        bits >= 64,
        old(words)@.len() * 64 >= bits,
    ensures
        final(words)@.len() == old(words)@.len(),
        all_set == knows(bits_of(old(words)@, bits), *key, bits, NUM_HASHES),
        bits_of(final(words)@, bits) == with_probes(
            bits_of(old(words)@, bits),
            *key,
            bits,
            NUM_HASHES,
        ),
{
    let h = key.mix(DOORKEEPER_DOMAIN);
    let ghost before = bits_of(words@, bits);
    let mut all_set = true;
    let mut i: u32 = 0;
    while i < NUM_HASHES
        invariant
            i <= NUM_HASHES,
            bits >= 64,
            words@.len() * 64 >= bits,
            words@.len() == old(words)@.len(),
            h == key.mixed(DOORKEEPER_DOMAIN),
            bits_of(words@, bits) == with_probes(before, *key, bits, i),
            all_set == knows(before, *key, bits, i),
        decreases NUM_HASHES - i,
    {
        let bit = probe_position(key, h, bits, i);
        assert(bit / 64 < words.len());
        let word: usize = (bit / 64) as usize;
        let mask: u64 = 1u64 << (bit % 64);
        proof {
            lemma_set_door_bit(words@, bits, bit);
            lemma_next_probe(before, *key, bits, i);
        }
        if words[word] & mask == 0 {
            all_set = false;
        }
        words[word] = words[word] | mask;
        i += 1;
    }
    all_set
}

/// Counter that `key` uses in a sketch row.
fn sketch_index(key: &PageKey, row: u32, width: u32) -> (r: usize)
    requires
        width > 0,
        row < SKETCH_ROWS,
    ensures
        r == cell(*key, row as int, width),
        r < width,
{
    let h = key.mix(row.wrapping_add(1));
    (h % (width as u64)) as usize
}

/// Counts one more touch of `key` in every row.
fn sketch_bump(rows: &mut [Vec<u8>; SKETCH_ROWS], width: u32, key: &PageKey)
    requires
        width > 0,
        forall|r: int| 0 <= r < SKETCH_ROWS ==> (#[trigger] rows_of(*old(rows))[r]).len() == width,
    ensures
        rows_of(*final(rows)) == bumped(rows_of(*old(rows)), *key, width),
{
    let mut i: u32 = 0;
    while i < 4
        invariant
            i <= 4,
            width > 0,
            forall|r: int|
                0 <= r < SKETCH_ROWS ==> (#[trigger] rows_of(*old(rows))[r]).len() == width,
            forall|r: int|
                0 <= r < SKETCH_ROWS ==> #[trigger] rows@[r]@ == if r < i {
                    bumped(rows_of(*old(rows)), *key, width)[r]
                } else {
                    rows_of(*old(rows))[r]
                },
        decreases 4 - i,
    {
        let idx = sketch_index(key, i, width);
        assert(rows_of(*old(rows))[i as int].len() == width);
        assert(rows@[i as int]@ == rows_of(*old(rows))[i as int]);
        let c = rows[i as usize][idx];
        let next = if c < u8::MAX {
            c + 1
        } else {
            c
        };
        rows[i as usize][idx] = next;
        i += 1;
    }
    assert(rows_of(*rows) =~= bumped(rows_of(*old(rows)), *key, width));
}

/// Halves every counter of the sketch.
fn age(rows: &mut [Vec<u8>; SKETCH_ROWS])
    ensures
        rows_of(*final(rows)) == aged(rows_of(*old(rows))),
{
    let mut i: usize = 0;
    while i < 4
        invariant
            i <= 4,
            forall|r: int|
                0 <= r < SKETCH_ROWS ==> #[trigger] rows@[r]@ == if r < i {
                    aged(rows_of(*old(rows)))[r]
                } else {
                    rows_of(*old(rows))[r]
                },
        decreases 4 - i,
    {
        let ghost start = rows_of(*old(rows))[i as int];
        assert(rows@[i as int]@ == start);
        let n = rows[i].len();
        let mut j: usize = 0;
        while j < n
            invariant
                i < 4,
                j <= n,
                n == start.len(),
                n == rows@[i as int]@.len(),
                start == rows_of(*old(rows))[i as int],
                forall|r: int|
                    0 <= r < SKETCH_ROWS && r != i ==> #[trigger] rows@[r]@ == if r < i {
                        aged(rows_of(*old(rows)))[r]
                    } else {
                        rows_of(*old(rows))[r]
                    },
                forall|k: int|
                    0 <= k < n ==> #[trigger] rows@[i as int]@[k] == if k < j {
                        (start[k] / 2) as u8
                    } else {
                        start[k]
                    },
            decreases n - j,
        {
            let c = rows[i][j];
            assert(c >> 1 == c / 2) by (bit_vector);
            rows[i][j] = c >> 1;
            j += 1;
        }
        assert(rows@[i as int]@ =~= aged(rows_of(*old(rows)))[i as int]);
        i += 1;
    }
    assert(rows_of(*rows) =~= aged(rows_of(*old(rows))));
}

/// Doorkeeper and count-min sketch of one resident set.
pub struct AdmissionFilter {
    doorkeeper: Vec<u64>,
    sketch: [Vec<u8>; SKETCH_ROWS],
    inserts_since_reset: u64,
    reset_threshold: u64,
    capacity_bits: u64,
    sketch_width: u32,
}

impl View for AdmissionFilter {
    type V = FilterView;

    closed spec fn view(&self) -> FilterView {
        FilterView {
            bits: self.capacity_bits,
            width: self.sketch_width,
            door: bits_of(self.doorkeeper@, self.capacity_bits),
            rows: rows_of(self.sketch),
            inserts: self.inserts_since_reset,
            threshold: self.reset_threshold,
        }
    }
}

impl AdmissionFilter {
    /// Well-formedness of the filter.
    pub closed spec fn wf(&self) -> bool {
        &&& self@.wf()
        &&& self.doorkeeper@.len() * 64 >= self.capacity_bits
    }

    /// A filter for a resident set of `capacity_pages` pages. The bit count
    /// must fit in 64 bits and its words in memory. A capacity that is a
    /// positive multiple of 2^32 gives a sketch without counters.
    pub fn new(capacity_pages: u64, sketch_multiplier: u32) -> (r: Self)
        requires
            door_bits(capacity_pages) <= u64::MAX,
            door_words(door_bits(capacity_pages)) <= usize::MAX,
        ensures
            r.wf(),
            r@ == FilterView::fresh(capacity_pages, sketch_multiplier),
            r@.door == Set::<int>::empty(),
            r@.inserts == 0,
    {
        let pages: u64 = if capacity_pages == 0 {
            1
        } else {
            capacity_pages
        };
        let capacity_bits: u64 = if pages * 8 < 64 {
            64
        } else {
            pages * 8
        };
        let spare: u64 = if capacity_bits % 64 == 0 {
            0
        } else {
            1
        };
        let words: u64 = capacity_bits / 64 + spare;
        let low: u64 = pages % 0x1_0000_0000;
        let times: u64 = if sketch_multiplier == 0 {
            1
        } else {
            sketch_multiplier as u64
        };
        assert(low * times <= 0xffff_ffff * 0xffff_ffff) by (nonlinear_arith)
            requires
                low <= 0xffff_ffff,
                times <= 0xffff_ffff,
        ;
        let sketch_width: u32 = if low * times > 0xffff_ffff {
            0xffff_ffff
        } else {
            (low * times) as u32
        };
        let reset_threshold: u64 = match pages.checked_mul(10) {
            Some(t) => t,
            None => u64::MAX,
        };
        let doorkeeper: Vec<u64> = vec![0u64; words as usize];
        let width: usize = sketch_width as usize;
        let sketch = [vec![0u8; width], vec![0u8; width], vec![0u8; width], vec![0u8; width]];
        let r = Self {
            doorkeeper,
            sketch,
            inserts_since_reset: 0,
            reset_threshold,
            capacity_bits,
            sketch_width,
        };
        proof {
            lemma_no_bits(r.doorkeeper@, capacity_bits);
            assert(r@.rows =~= FilterView::fresh(capacity_pages, sketch_multiplier).rows) by {
                assert forall|k: int| 0 <= k < 4 implies r@.rows[k] =~= FilterView::fresh(
                    capacity_pages,
                    sketch_multiplier,
                ).rows[k] by {}
            }
        }
        r
    }

    /// Whether the sketch has counters, so that touches can be counted.
    pub fn has_counters(&self) -> (r: bool)
        ensures
            r == (self@.width > 0),
    {
        self.sketch_width > 0
    }

    /// Whether `key` can be offered. It cannot where the doorkeeper lets it
    /// in and the sketch has no counters to count it with.
    pub fn can_offer(&self, key: &PageKey) -> (r: bool)
        requires
            self.wf(),
        ensures
            r == (self@.width > 0 || !self@.admits(*key)),
    {
        if self.has_counters() {
            return true;
        }
        let h = key.mix(DOORKEEPER_DOMAIN);
        let mut i: u32 = 0;
        while i < NUM_HASHES
            invariant
                i <= NUM_HASHES,
                self.wf(),
                h == key.mixed(DOORKEEPER_DOMAIN),
                knows(self@.door, *key, self@.bits, i),
            decreases NUM_HASHES - i,
        {
            let bit = probe_position(key, h, self.capacity_bits, i);
            assert(bit / 64 < self.doorkeeper.len());
            let word: usize = (bit / 64) as usize;
            proof {
                lemma_set_door_bit(self.doorkeeper@, self.capacity_bits, bit);
            }
            if self.doorkeeper[word] & (1u64 << (bit % 64)) == 0 {
                assert(!self@.door.contains(probe(*key, self@.bits, i)));
                return true;
            }
            i += 1;
        }
        false
    }

    /// Return true if `key` should be admitted to the resident
    /// set. The first call for a given key returns false and
    /// registers the key in the doorkeeper; the second call (or
    /// later, within the same epoch) returns true.
    pub fn should_admit(&mut self, key: &PageKey) -> (known: bool)
        requires
            old(self).wf(),
            old(self)@.width > 0 || !old(self)@.admits(*key),
        ensures
            final(self).wf(),
            known == old(self)@.admits(*key),
            final(self)@ == old(self)@.offered(*key),
    {
        let known = doorkeeper_probe_and_set(&mut self.doorkeeper, self.capacity_bits, key);
        if known {
            sketch_bump(&mut self.sketch, self.sketch_width, key);
            self.inserts_since_reset = self.inserts_since_reset + 1;
            if self.inserts_since_reset >= self.reset_threshold {
                age(&mut self.sketch);
                self.inserts_since_reset = 0;
            }
        }
        known
    }

    /// Reset all state. Explicit warmup boundaries call this. Restart
    /// needs no call, as none of this state is kept.
    pub fn reset(&mut self)
        requires
            old(self).wf(),
        ensures
            final(self).wf(),
            final(self)@ == old(self)@.emptied(),
    {
        let words = self.doorkeeper.len();
        self.doorkeeper = vec![0u64; words];
        let width: usize = self.sketch_width as usize;
        self.sketch = [vec![0u8; width], vec![0u8; width], vec![0u8; width], vec![0u8; width]];
        self.inserts_since_reset = 0;
        proof {
            lemma_no_bits(self.doorkeeper@, self.capacity_bits);
            assert(self@.rows =~= old(self)@.emptied().rows) by {
                assert forall|k: int| 0 <= k < 4 implies self@.rows[k] =~= old(
                    self,
                )@.emptied().rows[k] by {}
            }
        }
    }

    /// Approximate frequency estimate from the count-min
    /// sketch. Used by callers that want to make their own
    /// decision (e.g. compare against a victim's estimate).
    pub fn frequency(&self, key: &PageKey) -> (r: u8)
        requires
            self.wf(),
            self@.width > 0,
        ensures
            r == self@.estimate(*key),
    {
        let mut min: u8 = u8::MAX;
        let mut i: u32 = 0;
        while i < 4
            invariant
                i <= 4,
                self.wf(),
                self@.width > 0,
                min == least(self@.rows, *key, self@.width, i as int),
            decreases 4 - i,
        {
            let idx = sketch_index(key, i, self.sketch_width);
            assert(self@.rows[i as int].len() == self@.width);
            let c = self.sketch[i as usize][idx];
            if c < min {
                min = c;
            }
            i += 1;
        }
        min
    }

    /// Increment the sketch without consulting the doorkeeper.
    /// Exposed so the engine can record hits as well as admits.
    pub fn record_frequency(&mut self, key: &PageKey)
        requires
            old(self).wf(),
            old(self)@.width > 0,
        ensures
            final(self).wf(),
            final(self)@ == old(self)@.recorded(*key),
    {
        sketch_bump(&mut self.sketch, self.sketch_width, key);
    }
}

/// A filter has the shape that its operations keep.
pub proof fn law_filter_keeps_its_shape(filter: AdmissionFilter)
    requires
        filter.wf(),
    ensures
        filter@.wf(),
{
}

proof fn lemma_no_bits(words: Seq<u64>, bits: u64)
    requires
        words.len() * 64 >= bits,
        forall|i: int| 0 <= i < words.len() ==> words[i] == 0,
    ensures
        bits_of(words, bits) == Set::<int>::empty(),
{
    assert forall|b: int| 0 <= b < bits implies !bit_of(words, b) by {
        let c = (b % 64) as u64;
        assert((0u64 >> c) & 1u64 == 0u64) by (bit_vector)
            requires
                c < 64,
        ;
    }
    assert(bits_of(words, bits) =~= Set::<int>::empty());
}

/// One call on a filter that does not reset it.
pub enum FilterCall {
    Offer(PageKey),
    Record(PageKey),
}

impl FilterView {
    /// The state after one call.
    pub open spec fn after(self, call: FilterCall) -> FilterView {
        match call {
            FilterCall::Offer(key) => self.offered(key),
            FilterCall::Record(key) => self.recorded(key),
        }
    }

    /// The state after a sequence of calls.
    pub open spec fn after_all(self, calls: Seq<FilterCall>) -> FilterView
        decreases calls.len(),
    {
        if calls.len() == 0 {
            self
        } else {
            self.after_all(calls.drop_last()).after(calls.last())
        }
    }
}

impl FilterView {
    /// Whether the call counts a touch in the sketch, of the key it is about.
    pub open spec fn counts(self, call: FilterCall) -> bool {
        match call {
            FilterCall::Offer(key) => self.admits(key),
            FilterCall::Record(_) => true,
        }
    }

    /// Whether the call ages the sketch.
    pub open spec fn ages(self, call: FilterCall) -> bool {
        call is Offer && self.counts(call) && self.inserts + 1 >= self.threshold
    }

    /// Whether any call of a sequence ages the sketch.
    pub open spec fn ages_over(self, calls: Seq<FilterCall>) -> bool
        decreases calls.len(),
    {
        calls.len() > 0 && (self.ages_over(calls.drop_last()) || self.after_all(
            calls.drop_last(),
        ).ages(calls.last()))
    }

    /// Touches of `key` that a sequence of calls counts.
    pub open spec fn touches(self, calls: Seq<FilterCall>, key: PageKey) -> nat
        decreases calls.len(),
    {
        if calls.len() == 0 {
            0
        } else {
            let most = calls.drop_last();
            self.touches(most, key) + (if self.after_all(most).counts(calls.last()) && key_of(
                calls.last(),
            ) == key {
                1nat
            } else {
                0nat
            })
        }
    }

    /// Touches of any key that a sequence of calls counts.
    pub open spec fn all_touches(self, calls: Seq<FilterCall>) -> nat
        decreases calls.len(),
    {
        if calls.len() == 0 {
            0
        } else {
            let most = calls.drop_last();
            self.all_touches(most) + (if self.after_all(most).counts(calls.last()) {
                1nat
            } else {
                0nat
            })
        }
    }
}

/// The key that a call is about.
pub open spec fn key_of(call: FilterCall) -> PageKey {
    match call {
        FilterCall::Offer(key) => key,
        FilterCall::Record(key) => key,
    }
}

/// A count as a counter shows it: it sticks at the maximum.
pub open spec fn capped(n: int) -> int {
    if n < u8::MAX {
        n
    } else {
        u8::MAX as int
    }
}

/// A filter that has seen nothing admits nothing.
pub proof fn law_first_touch_is_refused(capacity_pages: u64, sketch_multiplier: u32, key: PageKey)
    ensures
        !FilterView::fresh(capacity_pages, sketch_multiplier).admits(key),
{
    let v = FilterView::fresh(capacity_pages, sketch_multiplier);
    assert(!v.door.contains(probe(key, v.bits, 0)));
}

proof fn lemma_door_grows(v: FilterView, call: FilterCall)
    ensures
        v.door.subset_of(v.after(call).door),
        v.after(call).bits == v.bits,
        v.after(call).width == v.width,
        v.after(call).threshold == v.threshold,
{
    match call {
        FilterCall::Offer(key) => {
            lemma_probes_cover(v.door, key, v.bits, NUM_HASHES);
        },
        FilterCall::Record(_) => {},
    }
}

proof fn lemma_door_grows_over(v: FilterView, calls: Seq<FilterCall>)
    ensures
        v.door.subset_of(v.after_all(calls).door),
        v.after_all(calls).bits == v.bits,
        v.after_all(calls).width == v.width,
        v.after_all(calls).threshold == v.threshold,
    decreases calls.len(),
{
    if calls.len() > 0 {
        lemma_door_grows_over(v, calls.drop_last());
        lemma_door_grows(v.after_all(calls.drop_last()), calls.last());
    }
}

/// Once a key was offered it is admitted, whatever calls lie in between,
/// until the filter is reset.
pub proof fn law_second_touch_is_admitted(v: FilterView, key: PageKey, calls: Seq<FilterCall>)
    ensures
        v.offered(key).after_all(calls).admits(key),
{
    let first = v.offered(key);
    let last = first.after_all(calls);
    lemma_probes_cover(v.door, key, v.bits, NUM_HASHES);
    lemma_door_grows_over(first, calls);
    assert forall|i: u32| i < NUM_HASHES implies #[trigger] last.door.contains(
        probe(key, last.bits, i),
    ) by {
        assert(first.door.contains(probe(key, v.bits, i)));
    }
}

/// A reset filter is as good as new, whatever it has seen.
pub proof fn law_reset_makes_new(
    capacity_pages: u64,
    sketch_multiplier: u32,
    calls: Seq<FilterCall>,
)
    ensures
        FilterView::fresh(capacity_pages, sketch_multiplier).after_all(calls).emptied()
            == FilterView::fresh(capacity_pages, sketch_multiplier),
{
    let v = FilterView::fresh(capacity_pages, sketch_multiplier);
    lemma_door_grows_over(v, calls);
    assert(v.after_all(calls).emptied().rows =~= v.rows);
}

proof fn lemma_cell_in_row(key: PageKey, row: int, width: u32)
    requires
        width > 0,
    ensures
        0 <= cell(key, row, width) < width,
{
}

proof fn lemma_least_after_bump(v: FilterView, touched_key: PageKey, key: PageKey, n: int)
    requires
        v.wf(),
        v.width > 0,
        0 <= n <= SKETCH_ROWS,
    ensures
        ({
            let before = least(v.rows, key, v.width, n);
            let after = least(bumped(v.rows, touched_key, v.width), key, v.width, n);
            &&& 0 <= before <= after <= u8::MAX
            &&& after <= before + 1
            &&& touched_key == key ==> after == if before < u8::MAX {
                before + 1
            } else {
                u8::MAX as int
            }
        }),
    decreases n,
{
    if n > 0 {
        lemma_least_after_bump(v, touched_key, key, n - 1);
        lemma_cell_in_row(key, n - 1, v.width);
        lemma_cell_in_row(touched_key, n - 1, v.width);
        assert(v.rows[n - 1].len() == v.width);
    }
}

/// Recording a key raises its own estimate by one, up to the maximum. It
/// lowers no other key's, and raises it by one at most.
pub proof fn law_recording_raises_the_estimate(v: FilterView, key: PageKey, other: PageKey)
    requires
        v.wf(),
        v.width > 0,
    ensures
        v.recorded(key).estimate(key) == if v.estimate(key) < u8::MAX {
            v.estimate(key) + 1
        } else {
            u8::MAX as int
        },
        v.estimate(other) <= v.recorded(key).estimate(other) <= v.estimate(other) + 1,
{
    lemma_least_after_bump(v, key, key, SKETCH_ROWS as int);
    lemma_least_after_bump(v, key, other, SKETCH_ROWS as int);
}

proof fn lemma_recorded_keeps_shape(v: FilterView, key: PageKey)
    requires
        v.wf(),
        v.width > 0,
    ensures
        v.recorded(key).wf(),
{
    assert forall|r: int| 0 <= r < SKETCH_ROWS implies (#[trigger] v.recorded(key).rows[r]).len()
        == v.width by {
        lemma_cell_in_row(key, r, v.width);
        assert(v.rows[r].len() == v.width);
    }
}

/// A call that does not age the sketch keeps the shape of the filter.
proof fn lemma_call_keeps_shape(v: FilterView, call: FilterCall)
    requires
        v.wf(),
        v.width > 0,
        !v.ages(call),
    ensures
        v.after(call).wf(),
        v.after(call).rows == if v.counts(call) {
            bumped(v.rows, key_of(call), v.width)
        } else {
            v.rows
        },
{
    let key = key_of(call);
    lemma_recorded_keeps_shape(v, key);
    match call {
        FilterCall::Offer(_) => {
            lemma_probes_cover(v.door, key, v.bits, NUM_HASHES);
            let t = v.after(call);
            assert forall|b: int| #[trigger] t.door.contains(b) implies 0 <= b < t.bits by {}
            if v.admits(key) {
                assert(t.rows == v.recorded(key).rows);
            }
        },
        FilterCall::Record(_) => {},
    }
}

/// Over offers and records without an aging in between, the sketch counts no
/// key short and counts no touch twice: the estimate of a key has risen by
/// at least the touches of that key that were counted, and by at most the
/// touches of all keys that were, each up to the maximum of a counter.
pub proof fn law_estimate_lies_between_touches(
    v: FilterView,
    key: PageKey,
    calls: Seq<FilterCall>,
)
    requires
        v.wf(),
        v.width > 0,
        !v.ages_over(calls),
    ensures
        v.after_all(calls).wf(),
        v.after_all(calls).width == v.width,
        capped(v.estimate(key) + v.touches(calls, key)) <= v.after_all(calls).estimate(key)
            <= capped(v.estimate(key) + v.all_touches(calls)),
    decreases calls.len(),
{
    lemma_least_after_bump(v, key, key, SKETCH_ROWS as int);
    if calls.len() > 0 {
        let most = calls.drop_last();
        let last = calls.last();
        let before = v.after_all(most);
        law_estimate_lies_between_touches(v, key, most);
        lemma_door_grows(before, last);
        lemma_call_keeps_shape(before, last);
        lemma_least_after_bump(before, key_of(last), key, SKETCH_ROWS as int);
    }
}

proof fn lemma_least_after_aging(v: FilterView, key: PageKey, n: int)
    requires
        v.wf(),
        v.width > 0,
        0 <= n <= SKETCH_ROWS,
    ensures
        n > 0 ==> least(aged(v.rows), key, v.width, n) == least(v.rows, key, v.width, n) / 2,
    decreases n,
{
    if n > 0 {
        reveal_with_fuel(least, 2);
        lemma_least_after_aging(v, key, n - 1);
        lemma_cell_in_row(key, n - 1, v.width);
        assert(v.rows[n - 1].len() == v.width);
    }
}

/// Aging halves every estimate.
pub proof fn law_aging_halves_estimates(v: FilterView, key: PageKey)
    requires
        v.wf(),
        v.width > 0,
    ensures
        (FilterView { rows: aged(v.rows), ..v }).estimate(key) == v.estimate(key) / 2,
{
    lemma_least_after_aging(v, key, SKETCH_ROWS as int);
}

/// The larger of a number and one.
pub open spec fn at_least_one(n: int) -> int {
    if n < 1 {
        1
    } else {
        n
    }
}

/// What a capacity and a multiplier make of a filter, both taken as at least
/// one: eight doorkeeper bits per page but no fewer than 64; per row of the
/// sketch the low 32 bits of the capacity times the multiplier, as far as
/// that fits in 32 bits; and ten admissions per page between two agings, as
/// far as that fits in 64 bits. Nothing is known and nothing is counted.
pub proof fn law_new_filter_is_as_large_as_asked_for(
    capacity_pages: u64,
    sketch_multiplier: u32,
    row: int,
    counter: int,
)
    requires
        8 * capacity_pages <= 0xffff_ffff_ffff_ffff,
    ensures
        ({
            let v = FilterView::fresh(capacity_pages, sketch_multiplier);
            let pages = at_least_one(capacity_pages as int);
            let times = at_least_one(sketch_multiplier as int);
            let wide = (pages % 0x1_0000_0000) * times;
            &&& v.bits == if 8 * pages < 64 {
                64
            } else {
                8 * pages
            }
            &&& v.width == if wide > 0xffff_ffff {
                0xffff_ffff
            } else {
                wide
            }
            &&& v.threshold == if 10 * pages > 0xffff_ffff_ffff_ffff {
                0xffff_ffff_ffff_ffff
            } else {
                10 * pages
            }
            &&& v.inserts == 0
            &&& v.door == Set::<int>::empty()
            &&& v.rows.len() == 4
            &&& 0 <= row < 4 ==> v.rows[row].len() == v.width
            &&& 0 <= row < 4 && 0 <= counter < v.width ==> v.rows[row][counter] == 0
        }),
{
    if capacity_pages == 0 {
        assert(1int % 0x1_0000_0000 == 1);
    }
    let pages = at_least_one(capacity_pages as int);
    let times = at_least_one(sketch_multiplier as int);
    mul::lemma_mul_nonnegative(pages % 0x1_0000_0000, times);
}

/// The doorkeeper accepts a capacity exactly if its bits fit in 64 bits and
/// its words in memory.
pub proof fn law_doorkeeper_size(capacity_pages: u64)
    ensures
        ({
            let pages = at_least_one(capacity_pages as int);
            &&& door_bits(capacity_pages) <= u64::MAX <==> 8 * pages <= 0xffff_ffff_ffff_ffff
            &&& door_bits(capacity_pages) == if pages < 8 {
                64
            } else {
                8 * pages
            }
            &&& 64 * (door_words(door_bits(capacity_pages)) - 1) < door_bits(capacity_pages) <= 64
                * door_words(door_bits(capacity_pages))
        }),
{
}

/// Where the `i`-th probe for a key falls among `bits` bits: the hash of the
/// whole key in domain zero, moved on by the golden ratio `i` times.
pub open spec fn door_position(key: PageKey, i: int, bits: int) -> int {
    ((key.mixed(0) + i * 0x9e37_79b9_7f4a_7c15) % 0x1_0000_0000_0000_0000) % bits
}

/// The probes are made where the hash of the whole key says.
pub proof fn law_probes_follow_the_hash_of_the_key(key: PageKey, bits: u64, i: u32)
    requires
        bits > 0,
    ensures
        probe(key, bits, i) == ((key.mixed(0) + i * 0x9e37_79b9_7f4a_7c15)
            % 0x1_0000_0000_0000_0000) % (bits as int),
{
    let m = 0x1_0000_0000_0000_0000int;
    let h = key.mixed(0) as int;
    let step = i * 0x9e37_79b9_7f4a_7c15;
    div_mod::lemma_add_mod_noop_right(h, step, m);
    let moved = (i as u64).wrapping_mul(GOLDEN_RATIO_64);
    assert(moved == step % m);
    assert(key.mixed(DOORKEEPER_DOMAIN).wrapping_add(moved) == (h + moved) % m);
}

/// Whether a call sets bit `b` of the doorkeeper: it offers a key that has
/// one of its three probes there.
pub open spec fn sets(call: FilterCall, b: int, bits: int) -> bool {
    call is Offer && exists|j: int| 0 <= j < 3 && b == #[trigger] door_position(key_of(call), j, bits)
}

/// Whether some call of a sequence sets bit `b` of the doorkeeper.
pub open spec fn set_by(calls: Seq<FilterCall>, b: int, bits: int) -> bool {
    exists|n: int| 0 <= n < calls.len() && sets(#[trigger] calls[n], b, bits)
}

/// The doorkeeper's bits are those that the offers so far have set.
proof fn lemma_door_is_what_offers_set(v: FilterView, calls: Seq<FilterCall>, b: int)
    requires
        v.bits > 0,
    ensures
        v.after_all(calls).bits == v.bits,
        v.after_all(calls).door.contains(b) <==> v.door.contains(b) || set_by(
            calls,
            b,
            v.bits as int,
        ),
    decreases calls.len(),
{
    lemma_door_grows_over(v, calls);
    if calls.len() > 0 {
        let most = calls.drop_last();
        let last = calls.last();
        let before = v.after_all(most);
        let bits = v.bits as int;
        lemma_door_is_what_offers_set(v, most, b);
        lemma_door_grows_over(v, most);
        assert(last == calls[calls.len() - 1]);
        assert(before.after(last).door.contains(b) <==> before.door.contains(b) || sets(
            last,
            b,
            bits,
        )) by {
            if last is Offer {
                let key = key_of(last);
                lemma_probes_cover(before.door, key, v.bits, NUM_HASHES);
                if exists|j: u32| j < NUM_HASHES && b == #[trigger] probe(key, v.bits, j) {
                    let j = choose|j: u32| j < NUM_HASHES && b == #[trigger] probe(key, v.bits, j);
                    law_probes_follow_the_hash_of_the_key(key, v.bits, j);
                    assert(b == door_position(key, j as int, bits));
                }
                if sets(last, b, bits) {
                    let j = choose|j: int| 0 <= j < 3 && b == #[trigger] door_position(key, j, bits);
                    law_probes_follow_the_hash_of_the_key(key, v.bits, j as u32);
                    assert(b == probe(key, v.bits, j as u32));
                }
            }
        }
        if set_by(most, b, bits) {
            let n = choose|n: int| 0 <= n < most.len() && sets(#[trigger] most[n], b, bits);
            assert(sets(calls[n], b, bits));
        }
        if set_by(calls, b, bits) {
            let n = choose|n: int| 0 <= n < calls.len() && sets(#[trigger] calls[n], b, bits);
            if n < most.len() {
                assert(sets(most[n], b, bits));
            }
        }
    }
}

/// A key is admitted exactly if each of its three probes falls on a bit that
/// some key offered since the filter was new has set. While one of them was
/// set by no key offered so far, the key is refused.
pub proof fn law_key_is_admitted_once_its_bits_are_set(
    capacity_pages: u64,
    sketch_multiplier: u32,
    calls: Seq<FilterCall>,
    key: PageKey,
    bits: int,
)
    requires
        8 * capacity_pages <= 0xffff_ffff_ffff_ffff,
        bits == if capacity_pages < 8 {
            64
        } else {
            8 * capacity_pages
        },
    ensures
        FilterView::fresh(capacity_pages, sketch_multiplier).after_all(calls).admits(key)
            <==> forall|i: int|
            0 <= i < 3 ==> set_by(calls, #[trigger] door_position(key, i, bits), bits),
{
    let v = FilterView::fresh(capacity_pages, sketch_multiplier);
    let t = v.after_all(calls);
    lemma_door_grows_over(v, calls);
    assert forall|i: u32| i < 3 implies #[trigger] probe(key, t.bits, i) == door_position(
        key,
        i as int,
        bits,
    ) && (t.door.contains(probe(key, t.bits, i)) <==> set_by(
        calls,
        door_position(key, i as int, bits),
        bits,
    )) by {
        law_probes_follow_the_hash_of_the_key(key, v.bits, i);
        lemma_door_is_what_offers_set(v, calls, door_position(key, i as int, bits));
    }
    if t.admits(key) {
        assert forall|i: int| 0 <= i < 3 implies set_by(
            calls,
            #[trigger] door_position(key, i, bits),
            bits,
        ) by {
            assert(t.door.contains(probe(key, t.bits, i as u32)));
        }
    } else {
        let i = choose|i: u32| i < NUM_HASHES && !#[trigger] t.door.contains(probe(key, t.bits, i));
        assert(!set_by(calls, door_position(key, i as int, bits), bits));
    }
}

/// Two different hashes fall on different bits of some doorkeeper.
proof fn lemma_hashes_part_in_some_door(g: u64, h: u64) -> (bits: u64)
    requires
        g != h,
    ensures
        bits >= 64,
        g as int % bits as int != h as int % bits as int,
{
    if g as int % 64 != h as int % 64 {
        64
    } else {
        0xffff_ffff_ffff_ffff
    }
}

/// Keys that differ in one byte of the value hash, or only in the page
/// index, do not share their probes in every doorkeeper.
pub proof fn law_probes_tell_keys_apart(a: PageKey, b: PageKey, i: int) -> (bits: u64)
    requires
        differ_in_one_place(a, b, i),
    ensures
        bits >= 64,
        probe(a, bits, 0) != probe(b, bits, 0),
{
    lemma_keys_hash_apart(a, b, i, 0);
    let bits = lemma_hashes_part_in_some_door(a.mixed(0), b.mixed(0));
    law_probes_follow_the_hash_of_the_key(a, bits, 0);
    law_probes_follow_the_hash_of_the_key(b, bits, 0);
    bits
}

/// Whether two keys differ in byte `i` of the value hash alone or, with `i`
/// as 32, in the page index alone.
pub open spec fn differ_in_one_place(a: PageKey, b: PageKey, i: int) -> bool {
    &&& 0 <= i <= 32
    &&& forall|j: int| 0 <= j < 32 && j != i ==> a.value_hash@[j] == b.value_hash@[j]
    &&& i < 32 ==> a.value_hash@[i] != b.value_hash@[i]
    &&& (a.page_index != b.page_index) == (i == 32)
}

proof fn lemma_keys_hash_apart(a: PageKey, b: PageKey, i: int, domain: u32)
    requires
        differ_in_one_place(a, b, i),
    ensures
        a.mixed(domain) != b.mixed(domain),
{
    if i < 32 {
        types::law_values_hash_apart(a, b, i, domain);
    } else {
        assert(a.value_hash =~= b.value_hash);
        types::law_pages_of_a_value_hash_apart(a, b, domain);
    }
}

/// The counter that a key uses in a row is where the hash of the whole key,
/// in the domain of the row, says.
pub proof fn law_counters_follow_the_hash_of_the_key(key: PageKey, row: int, width: u32)
    requires
        width > 0,
        0 <= row < 4,
    ensures
        cell(key, row, width) == key.mixed((row + 1) as u32) as int % width as int,
{
}

/// Two different hashes fall on different counters of some row.
proof fn lemma_hashes_part_in_some_row(g: u64, h: u64) -> (width: u32)
    requires
        g != h,
    ensures
        width > 0,
        g as int % width as int != h as int % width as int,
{
    if g as int % 7 != h as int % 7 {
        7
    } else if g as int % 0x8000_0000 != h as int % 0x8000_0000 {
        0x8000_0000
    } else {
        let d = g - h;
        let a = g as int / 0x8000_0000 - h as int / 0x8000_0000;
        let b = g as int / 0xffff_ffff - h as int / 0xffff_ffff;
        let c = g as int / 7 - h as int / 7;
        if g as int % 0xffff_ffff == h as int % 0xffff_ffff {
            assert(d == 0x8000_0000 * a);
            assert(d == 0xffff_ffff * b);
            assert(d == 7 * c);
            assert(a == 0xffff_ffff * (2 * b - a));
            assert(-2 <= 2 * b - a <= 2);
        }
        0xffff_ffff
    }
}

/// Keys that differ in one byte of the value hash, or only in the page
/// index, do not share their counters in every sketch.
pub proof fn law_counters_tell_keys_apart(a: PageKey, b: PageKey, i: int, row: int) -> (width: u32)
    requires
        differ_in_one_place(a, b, i),
        0 <= row < 4,
    ensures
        width > 0,
        cell(a, row, width) != cell(b, row, width),
{
    let domain = (row + 1) as u32;
    lemma_keys_hash_apart(a, b, i, domain);
    lemma_hashes_part_in_some_row(a.mixed(domain), b.mixed(domain))
}

/// Whether two keys share their counter in a row of `width` counters.
pub open spec fn share_counter(a: PageKey, b: PageKey, row: int, width: u32) -> bool {
    a.mixed((row + 1) as u32) as int % width as int == b.mixed((row + 1) as u32) as int
        % width as int
}

impl FilterView {
    /// Touches that a sequence of calls counts, of the keys that share the
    /// counter of `key` in a row.
    pub open spec fn shared_touches(self, calls: Seq<FilterCall>, key: PageKey, row: int) -> nat
        decreases calls.len(),
    {
        if calls.len() == 0 {
            0
        } else {
            let most = calls.drop_last();
            self.shared_touches(most, key, row) + (if self.after_all(most).counts(calls.last())
                && share_counter(key_of(calls.last()), key, row, self.width) {
                1nat
            } else {
                0nat
            })
        }
    }

    /// Offers in a sequence of calls that were admitted.
    pub open spec fn admissions(self, calls: Seq<FilterCall>) -> nat
        decreases calls.len(),
    {
        if calls.len() == 0 {
            0
        } else {
            let most = calls.drop_last();
            self.admissions(most) + (if calls.last() is Offer && self.after_all(most).admits(
                key_of(calls.last()),
            ) {
                1nat
            } else {
                0nat
            })
        }
    }
}

/// A counter counts the touches of the keys that share it, and no others, up
/// to its maximum, as long as the sketch is not aged.
pub proof fn law_counter_counts_the_keys_that_share_it(
    v: FilterView,
    key: PageKey,
    calls: Seq<FilterCall>,
    row: int,
)
    requires
        v.wf(),
        v.width > 0,
        !v.ages_over(calls),
        0 <= row < 4,
    ensures
        v.after_all(calls).wf(),
        v.after_all(calls).width == v.width,
        ({
            let at = key.mixed((row + 1) as u32) as int % v.width as int;
            v.after_all(calls).rows[row][at] == capped(
                v.rows[row][at] + v.shared_touches(calls, key, row),
            )
        }),
    decreases calls.len(),
{
    if calls.len() > 0 {
        let most = calls.drop_last();
        let last = calls.last();
        let before = v.after_all(most);
        let other = key_of(last);
        law_counter_counts_the_keys_that_share_it(v, key, most, row);
        lemma_door_grows(before, last);
        lemma_call_keeps_shape(before, last);
        lemma_cell_in_row(key, row, v.width);
        lemma_cell_in_row(other, row, v.width);
        law_counters_follow_the_hash_of_the_key(key, row, v.width);
        law_counters_follow_the_hash_of_the_key(other, row, v.width);
        assert(before.rows[row].len() == v.width);
    }
}

/// The estimate of a key is the least of its four counters, one per row.
pub proof fn law_estimate_is_the_least_counter(v: FilterView, key: PageKey)
    requires
        v.wf(),
        v.width > 0,
    ensures
        forall|row: int|
            0 <= row < 4 ==> v.estimate(key) <= (#[trigger] v.rows[row])[key.mixed(
                (row + 1) as u32,
            ) as int % v.width as int],
        exists|row: int|
            0 <= row < 4 && v.estimate(key) == (#[trigger] v.rows[row])[key.mixed(
                (row + 1) as u32,
            ) as int % v.width as int],
{
    reveal_with_fuel(least, 5);
    assert forall|row: int| 0 <= row < 4 implies v.estimate(key) <= (#[trigger] v.rows[row])[key.mixed(
        (row + 1) as u32,
    ) as int % v.width as int] by {
        law_counters_follow_the_hash_of_the_key(key, row, v.width);
        assert(row == 0 || row == 1 || row == 2 || row == 3);
    }
    let c0 = v.rows[0][cell(key, 0, v.width)];
    let c1 = v.rows[1][cell(key, 1, v.width)];
    let c2 = v.rows[2][cell(key, 2, v.width)];
    let c3 = v.rows[3][cell(key, 3, v.width)];
    law_counters_follow_the_hash_of_the_key(key, 0, v.width);
    law_counters_follow_the_hash_of_the_key(key, 1, v.width);
    law_counters_follow_the_hash_of_the_key(key, 2, v.width);
    law_counters_follow_the_hash_of_the_key(key, 3, v.width);
}

/// Until a new filter is aged, the estimate of a key is, over the four rows,
/// the least number of touches counted for the keys that share its counter,
/// up to the maximum: no more than those touches in any row, and as many in
/// one.
pub proof fn law_estimate_is_the_least_shared_count(
    capacity_pages: u64,
    sketch_multiplier: u32,
    calls: Seq<FilterCall>,
    key: PageKey,
)
    requires
        8 * capacity_pages <= 0xffff_ffff_ffff_ffff,
        FilterView::fresh(capacity_pages, sketch_multiplier).width > 0,
        !FilterView::fresh(capacity_pages, sketch_multiplier).ages_over(calls),
    ensures
        ({
            let v = FilterView::fresh(capacity_pages, sketch_multiplier);
            let estimate = v.after_all(calls).estimate(key);
            &&& forall|row: int|
                0 <= row < 4 ==> estimate <= capped(
                    #[trigger] v.shared_touches(calls, key, row) as int,
                )
            &&& exists|row: int|
                0 <= row < 4 && estimate == capped(
                    #[trigger] v.shared_touches(calls, key, row) as int,
                )
        }),
{
    let v = FilterView::fresh(capacity_pages, sketch_multiplier);
    let t = v.after_all(calls);
    law_new_filter_is_as_large_as_asked_for(capacity_pages, sketch_multiplier, 0, 0);
    assert(v.wf());
    assert forall|row: int| 0 <= row < 4 implies t.rows[row][key.mixed((row + 1) as u32) as int
        % v.width as int] == capped(#[trigger] v.shared_touches(calls, key, row) as int) by {
        let at = key.mixed((row + 1) as u32) as int % v.width as int;
        law_counter_counts_the_keys_that_share_it(v, key, calls, row);
        law_new_filter_is_as_large_as_asked_for(capacity_pages, sketch_multiplier, row, at);
        law_counters_follow_the_hash_of_the_key(key, row, v.width);
        lemma_cell_in_row(key, row, v.width);
    }
    law_counter_counts_the_keys_that_share_it(v, key, calls, 0);
    law_estimate_is_the_least_counter(t, key);
    let least_row = choose|row: int|
        0 <= row < 4 && t.estimate(key) == (#[trigger] t.rows[row])[key.mixed((row + 1) as u32) as int
            % t.width as int];
    assert(t.estimate(key) == capped(v.shared_touches(calls, key, least_row) as int));
    assert forall|row: int| 0 <= row < 4 implies t.estimate(key) <= capped(
        #[trigger] v.shared_touches(calls, key, row) as int,
    ) by {
        assert(t.rows[row].len() == t.width);
    }
}

/// Any call keeps the shape of the filter.
proof fn lemma_any_call_keeps_shape(v: FilterView, call: FilterCall)
    requires
        v.wf(),
        v.width > 0,
    ensures
        v.after(call).wf(),
{
    if v.ages(call) {
        let key = key_of(call);
        let t = v.after(call);
        lemma_recorded_keeps_shape(v, key);
        lemma_probes_cover(v.door, key, v.bits, NUM_HASHES);
        assert forall|b: int| #[trigger] t.door.contains(b) implies 0 <= b < t.bits by {}
        assert forall|r: int| 0 <= r < SKETCH_ROWS implies (#[trigger] t.rows[r]).len()
            == t.width by {
            assert(v.recorded(key).rows[r].len() == v.width);
        }
    } else {
        lemma_call_keeps_shape(v, call);
    }
}

/// The admissions since the last aging are those since the filter was new,
/// less whole rounds.
proof fn lemma_inserts_go_round(v: FilterView, calls: Seq<FilterCall>)
    requires
        v.wf(),
        v.width > 0,
        v.inserts == 0,
    ensures
        v.after_all(calls).wf(),
        v.after_all(calls).width == v.width,
        v.after_all(calls).threshold == v.threshold,
        v.after_all(calls).inserts == v.admissions(calls) as int % v.threshold as int,
    decreases calls.len(),
{
    lemma_door_grows_over(v, calls);
    let t = v.threshold as int;
    if calls.len() == 0 {
        div_mod::lemma_small_mod(0, t as nat);
    } else {
        let most = calls.drop_last();
        let n = v.admissions(most) as int;
        lemma_inserts_go_round(v, most);
        lemma_any_call_keeps_shape(v.after_all(most), calls.last());
        lemma_next_in_round(n, t);
    }
}

/// Counting one further, a round either goes on or starts again.
proof fn lemma_next_in_round(n: int, t: int)
    requires
        n >= 0,
        t > 0,
    ensures
        (n + 1) % t == if n % t + 1 == t {
            0
        } else {
            n % t + 1
        },
{
    div_mod::lemma_fundamental_div_mod(n, t);
    let q = n / t;
    let r = n % t;
    if r + 1 == t {
        mul::lemma_mul_is_distributive_add(t, q, 1);
        div_mod::lemma_mod_multiples_basic(q + 1, t);
        mul::lemma_mul_is_commutative(t, q + 1);
    } else {
        div_mod::lemma_mod_multiples_vanish(q, r + 1, t);
        div_mod::lemma_small_mod((r + 1) as nat, t as nat);
        mul::lemma_mul_is_commutative(t, q);
    }
}

/// An admitted offer counts as a touch of its key; at every tenth admission
/// per page of capacity, as far as that fits in 64 bits, all estimates are
/// then halved. A refused offer counts nothing.
pub proof fn law_sketch_is_aged_every_ten_admissions_per_page(
    capacity_pages: u64,
    sketch_multiplier: u32,
    calls: Seq<FilterCall>,
    key: PageKey,
    other: PageKey,
)
    requires
        8 * capacity_pages <= 0xffff_ffff_ffff_ffff,
        FilterView::fresh(capacity_pages, sketch_multiplier).width > 0,
    ensures
        ({
            let v = FilterView::fresh(capacity_pages, sketch_multiplier);
            let t = v.after_all(calls);
            let n = v.admissions(calls) as int + 1;
            let touched = t.recorded(key).estimate(other);
            let wanted = 10 * at_least_one(capacity_pages as int);
            let round = if wanted > 0xffff_ffff_ffff_ffff {
                0xffff_ffff_ffff_ffff
            } else {
                wanted
            };
            &&& !t.admits(key) ==> t.offered(key).estimate(other) == t.estimate(other)
            &&& t.admits(key) && n % round == 0 ==> t.offered(key).estimate(other) == touched / 2
            &&& t.admits(key) && n % round != 0 ==> t.offered(key).estimate(other) == touched
        }),
{
    let v = FilterView::fresh(capacity_pages, sketch_multiplier);
    let t = v.after_all(calls);
    law_new_filter_is_as_large_as_asked_for(capacity_pages, sketch_multiplier, 0, 0);
    assert(v.wf());
    lemma_inserts_go_round(v, calls);
    lemma_next_in_round(v.admissions(calls) as int, v.threshold as int);
    lemma_recorded_keeps_shape(t, key);
    law_aging_halves_estimates(t.recorded(key), other);
}

/// A filter that was reset knows no key and has counted none, and is as large
/// as before.
pub proof fn law_reset_forgets_every_key(v: FilterView, key: PageKey)
    requires
        v.wf(),
    ensures
        !v.emptied().admits(key),
        v.width > 0 ==> v.emptied().estimate(key) == 0,
        v.emptied().inserts == 0,
        v.emptied().bits == v.bits,
        v.emptied().width == v.width,
        v.emptied().threshold == v.threshold,
{
    let t = v.emptied();
    assert(!t.door.contains(probe(key, t.bits, 0)));
    if v.width > 0 {
        reveal_with_fuel(least, 5);
        lemma_cell_in_row(key, 0, v.width);
        lemma_cell_in_row(key, 1, v.width);
        lemma_cell_in_row(key, 2, v.width);
        lemma_cell_in_row(key, 3, v.width);
    }
}

} // verus!
