//! The byte layout of a skip list, and the facts about it that reading a
//! skip list back relies on.
//!
//! A skip list over `n` values with skip size `s` has `L` levels, where `L`
//! counts how many times `n` can be divided by `s` before reaching zero.
//! Level `l` (level `0` being the top) holds an entry for every index that
//! is a multiple of `s^(L - l)`; only the last level (`L - 1`) records the
//! offset associated with a value. Entries are written row by row, from the
//! last index down to index `0`, and within a row from the top level down,
//! so that every entry can point at its next sibling, which was written
//! before it.
use vstd::prelude::*;
use vstd::arithmetic::div_mod::*;
use vstd::arithmetic::mul::*;
use vstd::bytes::*;
use vstd::set_lib::*;

use crate::error::ErrorKind;

verus! {

/// The abstract state of a skip list writer: the values added with their
/// offsets, the minimum and maximum value, and the skip size.
pub struct SkipModel {
    pub skips: Seq<(u32, usize)>,
    pub min: u32,
    pub max: u32,
    pub skip_size: usize,
}

/// `s` to the power `k`.
pub open spec fn span(s: nat, k: nat) -> nat
    decreases k,
{
    if k == 0 {
        1
    } else {
        s * span(s, (k - 1) as nat)
    }
}

/// How many times `num` can be divided by `s` before it reaches zero.
pub open spec fn level_count(num: nat, s: nat) -> nat
    decreases num,
{
    if s <= 1 || num == 0 {
        0
    } else {
        proof {
            lemma_div_decreases(num as int, s as int);
        }
        1 + level_count(num / s, s)
    }
}

impl SkipModel {
    /// A writer without values, with skip size `skip_size`.
    pub open spec fn empty(skip_size: usize) -> SkipModel {
        SkipModel { skips: Seq::empty(), min: 0, max: 0, skip_size }
    }

    /// The writer after `value` was added with `offset`: the minimum is the
    /// first value that is not zero, and the maximum the value added last.
    pub open spec fn add(self, value: u32, offset: usize) -> SkipModel {
        SkipModel {
            skips: self.skips.push((value, offset)),
            min: if self.min == 0 {
                value
            } else {
                self.min
            },
            max: value,
            skip_size: self.skip_size,
        }
    }

    /// The writer after `values` were added one after the other, first to
    /// last.
    pub open spec fn add_all(self, values: Seq<(u32, usize)>) -> SkipModel
        decreases values.len(),
    {
        if values.len() == 0 {
            self
        } else {
            self.add_all(values.drop_last()).add(values.last().0, values.last().1)
        }
    }

    /// The number of values added.
    pub open spec fn len(self) -> nat {
        self.skips.len()
    }

    /// The number of levels of the skip list.
    pub open spec fn levels(self) -> nat {
        level_count(self.len() / (self.skip_size as nat), self.skip_size as nat)
    }

    /// The number of values that a sibling step skips at level `l`.
    pub open spec fn skip_every(self, l: nat) -> nat {
        span(self.skip_size as nat, (self.levels() - l) as nat)
    }

    /// Whether `l` is the last level.
    pub open spec fn is_last(self, l: nat) -> bool {
        l + 1 == self.levels()
    }

    /// Whether index `i` has an entry at level `l`.
    pub open spec fn present(self, i: nat, l: nat) -> bool {
        l < self.levels() && i < self.len() && i % self.skip_every(l) == 0
    }

    /// The number of bytes of an entry at level `l`.
    pub open spec fn entry_len(self, l: nat) -> nat {
        if self.is_last(l) {
            20
        } else {
            12
        }
    }

    /// The number of bytes of the entries of row `i` at levels below `l`.
    pub open spec fn row_prefix_len(self, i: nat, l: nat) -> nat
        decreases l,
    {
        if l == 0 {
            0
        } else {
            self.row_prefix_len(i, (l - 1) as nat) + if self.present(i, (l - 1) as nat) {
                self.entry_len((l - 1) as nat)
            } else {
                0
            }
        }
    }

    /// The number of bytes of the rows from index `k` on.
    pub open spec fn tail_len(self, k: nat) -> nat
        decreases self.len() - k,
    {
        if k >= self.len() {
            0
        } else {
            self.row_prefix_len(k, self.levels()) + self.tail_len(k + 1)
        }
    }

    /// The position of the entry of index `i` at level `l`, when the skip
    /// list starts at position `base`.
    pub open spec fn entry_pos(self, base: nat, i: nat, l: nat) -> nat {
        base + self.tail_len(i + 1) + self.row_prefix_len(i, l)
    }

    /// The value of the entry of index `i` at level `l`: the largest value
    /// among the entries below it, which is the maximum for the final entry
    /// of a level.
    pub open spec fn entry_value(self, i: nat, l: nat) -> u32 {
        let e = self.skip_every(l);
        if i + e >= self.len() {
            self.max
        } else if self.is_last(l) {
            self.skips[i as int].0
        } else {
            self.skips[i + e - self.skip_size].0
        }
    }

    /// The position of the next sibling of the entry of index `i` at level
    /// `l`, or `0` when it has none.
    pub open spec fn sibling(self, base: nat, i: nat, l: nat) -> nat {
        let e = self.skip_every(l);
        if i + e < self.len() {
            self.entry_pos(base, i + e, l)
        } else {
            0
        }
    }

    /// The bytes of an entry of index `i` at level `l` whose next sibling
    /// is recorded as `sibling`: its value, its offset on the last level,
    /// and the sibling.
    pub open spec fn entry_bytes_with(self, i: nat, l: nat, sibling: nat) -> Seq<u8> {
        spec_u32_to_le_bytes(self.entry_value(i, l)) + (if self.is_last(l) {
            spec_u64_to_le_bytes(self.skips[i as int].1 as u64)
        } else {
            Seq::empty()
        }) + spec_u64_to_le_bytes(sibling as u64)
    }

    /// The bytes of the entry of index `i` at level `l`.
    pub open spec fn entry_bytes(self, base: nat, i: nat, l: nat) -> Seq<u8> {
        self.entry_bytes_with(i, l, self.sibling(base, i, l))
    }

    /// The bytes of the entries of row `i` at levels below `l`.
    pub open spec fn row_prefix(self, base: nat, i: nat, l: nat) -> Seq<u8>
        decreases l,
    {
        if l == 0 {
            Seq::empty()
        } else {
            self.row_prefix(base, i, (l - 1) as nat) + if self.present(i, (l - 1) as nat) {
                self.entry_bytes(base, i, (l - 1) as nat)
            } else {
                Seq::empty()
            }
        }
    }

    /// The bytes of the rows from index `k` on, the last row first.
    pub open spec fn rows_from(self, base: nat, k: nat) -> Seq<u8>
        decreases self.len() - k,
    {
        if k >= self.len() {
            Seq::empty()
        } else {
            self.rows_from(base, k + 1) + self.row_prefix(base, k, self.levels())
        }
    }

    /// The position of the first entry of the top level, or `0` for a skip
    /// list without levels.
    pub open spec fn start(self, base: nat) -> nat {
        if self.levels() == 0 {
            0
        } else {
            self.entry_pos(base, 0, 0)
        }
    }

    /// The bytes of the skip list when it starts at position `base`: the
    /// entries, then the start position, the number of levels, the minimum
    /// and the maximum.
    pub open spec fn bytes(self, base: nat) -> Seq<u8> {
        self.rows_from(base, 0) + spec_u64_to_le_bytes(self.start(base) as u64) + spec_u64_to_le_bytes(
            self.levels() as u64,
        ) + spec_u32_to_le_bytes(self.min) + spec_u32_to_le_bytes(self.max)
    }

    /// The value that a reader compares against at index `i` of the last
    /// level.
    pub open spec fn last_level_value(self, i: nat) -> u32 {
        if i + (self.skip_size as nat) >= self.len() {
            self.max
        } else {
            self.skips[i as int].0
        }
    }

    /// The first index from `i` on, stepping by the skip size, whose last
    /// level value is at least `t`; the number of values if there is none.
    pub open spec fn first_reaching(self, t: u32, i: nat) -> nat
        decreases self.len() - i,
    {
        if i >= self.len() || self.skip_size == 0 {
            self.len()
        } else if self.last_level_value(i) >= t {
            i
        } else if i + self.skip_size as nat >= self.len() {
            self.len()
        } else {
            self.first_reaching(t, i + self.skip_size as nat)
        }
    }

    /// The offset that skipping to `t` gives: none for a skip list without
    /// levels or when `t` exceeds the maximum; otherwise the offset of the
    /// first last-level entry whose value is at least `t`.
    pub open spec fn target(self, t: u32) -> Option<usize> {
        if self.levels() == 0 || t > self.max {
            None
        } else {
            Some(self.skips[self.first_reaching(t, 0) as int].1)
        }
    }

    /// The first index from `k` on that has an entry at level `l`.
    pub open spec fn first_present(self, k: nat, l: nat) -> Option<nat>
        decreases self.len() - k,
    {
        if k >= self.len() {
            None
        } else if self.present(k, l) {
            Some(k)
        } else {
            self.first_present(k + 1, l)
        }
    }

    /// The position of the first entry of level `l` from index `k` on, if
    /// there is one.
    pub open spec fn first_present_pos(self, base: nat, k: nat, l: nat) -> Option<usize> {
        match self.first_present(k, l) {
            Some(j) => Some(self.entry_pos(base, j, l) as usize),
            None => None,
        }
    }

    /// Whether the skip size lets the levels be computed: a skip size of at
    /// least `2`, or a skip size of `1` for a list without values.
    pub open spec fn writable(self) -> bool {
        self.skip_size >= 2 || (self.skip_size == 1 && self.len() == 0)
    }

    /// The values are strictly increasing, the maximum is the last value, and
    /// the minimum is the first value that is not zero (zero when there is
    /// none).
    pub open spec fn well_formed(self) -> bool {
        &&& forall|i: int, j: int| 0 <= i < j < self.len() ==> self.skips[i].0 < self.skips[j].0
        &&& self.len() == 0 ==> self.max == 0
        &&& self.len() > 0 ==> self.max == self.skips.last().0
        &&& self.min == if self.len() == 0 {
            0
        } else if self.skips[0].0 != 0 {
            self.skips[0].0
        } else if self.len() >= 2 {
            self.skips[1].0
        } else {
            0
        }
    }
}

/// `after` is `before` followed by some first bytes of `bytes`.
pub open spec fn is_partial_write(before: Seq<u8>, after: Seq<u8>, bytes: Seq<u8>) -> bool {
    exists|k: int| 0 <= k <= bytes.len() && after == before + #[trigger] bytes.take(k)
}

/// The 32-bit little endian integer at position `p` of `d`.
pub open spec fn u32_at(d: Seq<u8>, p: int) -> u32 {
    spec_u32_from_le_bytes(d.subrange(p, p + 4))
}

/// The 64-bit little endian integer at position `p` of `d`.
pub open spec fn u64_at(d: Seq<u8>, p: int) -> u64 {
    spec_u64_from_le_bytes(d.subrange(p, p + 8))
}

/// The state of a skip list reader: the bytes it reads from, and what the
/// trailer at their end says.
pub struct ReaderModel {
    pub data: Seq<u8>,
    pub start: usize,
    pub levels: usize,
    pub min: u32,
    pub max: u32,
}

impl ReaderModel {
    /// What a reader makes of the bytes `d`, which end where a skip list
    /// ends: the trailer holds the start position, the number of levels,
    /// the minimum and the maximum value. Reading fails when there are fewer
    /// bytes than a trailer, when a 64-bit field does not fit in a `usize`,
    /// or when the start position lies beyond the bytes. A failure is the
    /// kind of the error with the messages of context added to it.
    pub open spec fn from_bytes(d: Seq<u8>) -> Result<ReaderModel, (ErrorKind, Seq<Seq<char>>)> {
        let len = d.len() as int;
        if len < 24 {
            Err((ErrorKind::ReversePositionOutOfBounds { rpos: 24, len: len as usize }, Seq::empty()))
        } else {
            let start = u64_at(d, len - 24);
            let levels = u64_at(d, len - 16);
            if start > usize::MAX {
                Err((ErrorKind::UsizeOverflow { n: start }, seq!["failed to read skip start offset"@]))
            } else if levels > usize::MAX {
                Err((ErrorKind::UsizeOverflow { n: levels }, seq!["failed to read skip list levels"@]))
            } else if start > len {
                Err((ErrorKind::PositionOutOfBounds { pos: start as usize, len: 0 }, seq!["invalid skip list start offset"@]))
            } else {
                Ok(
                    ReaderModel {
                        data: d,
                        start: start as usize,
                        levels: levels as usize,
                        min: u32_at(d, len - 8),
                        max: u32_at(d, len - 4),
                    },
                )
            }
        }
    }

    /// Walking the skip list from the entry at position `pos` of level
    /// `level`, after `steps` sibling steps on this level, looking for `t`.
    ///
    /// An entry holds its value, then, on the last level only, its offset,
    /// then the position of its next sibling (`0` for none), which must lie
    /// before the end of the entry. When `t` exceeds the value, the walk
    /// steps to the next sibling; otherwise it returns the offset on the
    /// last level, or descends to the adjacent entry of the next level.
    /// A level that takes more sibling steps than there are bytes has
    /// revisited an entry, and would be walked forever: that is an error.
    /// A failure is the kind of the error with the messages of context
    /// added to it.
    pub open spec fn walk(self, pos: int, level: nat, steps: nat, t: u32) -> Result<Option<usize>, (ErrorKind, Seq<Seq<char>>)>
        decreases self.levels - level, self.data.len() - steps,
    {
        let d = self.data;
        let len = d.len() as int;
        let last = level + 1 == self.levels;
        let offset_context = seq!["failed to read last level skip offset"@];
        let sibling_context = seq!["failed to read next sibling offset"@];
        if level >= self.levels || steps > len || pos < 0 {
            Err((ErrorKind::SkipListCycle, Seq::empty()))
        } else if pos + 4 > len {
            Err((ErrorKind::InvalidSliceRange { start: 0, end: 4 }, seq!["failed to read skip target value"@]))
        } else if t > u32_at(d, pos) {
            let p = pos + 4;
            if last && p + 8 > len {
                Err((ErrorKind::InvalidSliceRange { start: 0, end: 8 }, offset_context))
            } else if last && u64_at(d, p) > usize::MAX {
                Err((ErrorKind::UsizeOverflow { n: u64_at(d, p) }, offset_context))
            } else {
                let q = if last {
                    p + 8
                } else {
                    p
                };
                if q + 8 > len {
                    Err((ErrorKind::InvalidSliceRange { start: 0, end: 8 }, sibling_context))
                } else if u64_at(d, q) > usize::MAX {
                    Err((ErrorKind::UsizeOverflow { n: u64_at(d, q) }, sibling_context))
                } else if u64_at(d, q) != 0 && u64_at(d, q) >= q + 8 {
                    Err((ErrorKind::InvalidSiblingOffset { offset: u64_at(d, q) as usize, pos: (q + 8) as usize }, Seq::empty()))
                } else if steps >= len {
                    Err((ErrorKind::SkipListCycle, Seq::empty()))
                } else {
                    self.walk(u64_at(d, q) as int, level, steps + 1, t)
                }
            }
        } else {
            let p = pos + 4;
            let context = if last {
                offset_context
            } else {
                sibling_context
            };
            if p + 8 > len {
                Err((ErrorKind::InvalidSliceRange { start: 0, end: 8 }, context))
            } else if u64_at(d, p) > usize::MAX {
                Err((ErrorKind::UsizeOverflow { n: u64_at(d, p) }, context))
            } else if last {
                Ok(Some(u64_at(d, p) as usize))
            } else if u64_at(d, p) != 0 && u64_at(d, p) >= p + 8 {
                Err((ErrorKind::InvalidSiblingOffset { offset: u64_at(d, p) as usize, pos: (p + 8) as usize }, Seq::empty()))
            } else {
                self.walk(p + 8, level + 1, 0, t)
            }
        }
    }

    /// The offset that the reader associates with `t`: none for a skip list
    /// without levels or when `t` exceeds the maximum, otherwise the result
    /// of walking from the top level's first entry.
    pub open spec fn skip_to(self, t: u32) -> Result<Option<usize>, (ErrorKind, Seq<Seq<char>>)> {
        if self.levels == 0 || t > self.max {
            Ok(None)
        } else {
            self.walk(self.start as int, 0, 0, t)
        }
    }
}

pub proof fn lemma_level_count_zero(num: nat, s: nat)
    requires
        num == 0 || s <= 1,
    ensures
        level_count(num, s) == 0,
{
}

pub proof fn lemma_level_count_bound(num: nat, s: nat)
    requires
        s >= 2,
    ensures
        level_count(num, s) <= num,
    decreases num,
{
    if num > 0 {
        lemma_div_decreases(num as int, s as int);
        lemma_level_count_bound(num / s, s);
    }
}

/// Powers of a base of at least `2` grow with the exponent.
pub proof fn lemma_span_mono(s: nat, a: nat, b: nat)
    requires
        s >= 2,
        a <= b,
    ensures
        span(s, a) <= span(s, b),
    decreases b,
{
    if a < b {
        lemma_span_mono(s, a, (b - 1) as nat);
        lemma_span_grows(s, (b - 1) as nat);
        lemma_mul_increases(s as int, span(s, (b - 1) as nat) as int);
    }
}

/// With `n` values and skip size `s`, the number of levels `L` is the
/// largest exponent whose power of `s` does not exceed `n` (or `0`).
proof fn lemma_level_count_span(n: nat, s: nat)
    requires
        s >= 2,
    ensures
        level_count(n / s, s) == 0 || span(s, level_count(n / s, s)) <= n,
        n < span(s, level_count(n / s, s) + 1),
    decreases n,
{
    let q = n / s;
    lemma_fundamental_div_mod(n as int, s as int);
    lemma_mod_bound(n as int, s as int);
    lemma_span_grows(s, 0);
    if q == 0 {
        assert(level_count(q, s) == 0);
        reveal_with_fuel(span, 2);
        assert(span(s, 1) == s);
        let r = n % s;
        assert(n < s) by (nonlinear_arith)
            requires
                q == 0,
                n == s * q + r,
                r < s,
        ;
    } else {
        lemma_div_decreases(n as int, s as int);
        lemma_level_count_span(q, s);
        let l1 = level_count(q / s, s);
        assert(level_count(q, s) == 1 + l1);
        lemma_span_grows(s, l1);
        lemma_span_grows(s, l1 + 1);
        let a = span(s, l1);
        let b = span(s, l1 + 1);
        assert(a <= q);
        assert(q + 1 <= b);
        assert(s * a <= s * q) by (nonlinear_arith)
            requires
                a <= q,
                s >= 2,
        ;
        assert(s * (q + 1) <= s * b) by (nonlinear_arith)
            requires
                q + 1 <= b,
                s >= 2,
        ;
        let r = n % s;
        assert(n < s * (q + 1)) by (nonlinear_arith)
            requires
                n == s * q + r,
                r < s,
        ;
        assert(span(s, l1 + 2) == s * b);
        assert(span(s, l1 + 1) == s * a);
    }
}

impl SkipModel {
    /// What a writer holds depends only on its skip size and on the values
    /// added since it was made or cleared, in increasing order: those
    /// values, the first of them that is not zero as the minimum, and the
    /// last as the maximum. So writers made or cleared with the same skip
    /// size, given the same values, write the same bytes.
    pub proof fn lemma_add_all(skip_size: usize, values: Seq<(u32, usize)>)
        requires
            forall|i: int, j: int| 0 <= i < j < values.len() ==> values[i].0 < values[j].0,
        ensures
            SkipModel::empty(skip_size).add_all(values) == (SkipModel {
                skips: values,
                min: if values.len() == 0 {
                    0
                } else if values[0].0 != 0 {
                    values[0].0
                } else if values.len() >= 2 {
                    values[1].0
                } else {
                    0
                },
                max: if values.len() == 0 {
                    0
                } else {
                    values.last().0
                },
                skip_size,
            }),
            SkipModel::empty(skip_size).add_all(values).well_formed(),
        decreases values.len(),
    {
        if values.len() > 0 {
            let init = values.drop_last();
            SkipModel::lemma_add_all(skip_size, init);
            assert(init.push(values.last()) =~= values);
            let before = SkipModel::empty(skip_size).add_all(init);
            let after = SkipModel::empty(skip_size).add_all(values);
            assert(after == before.add(values.last().0, values.last().1));
            assert(after.skips =~= values);
            if values.len() >= 2 {
                assert(init[0] == values[0]);
                assert(values[0].0 < values[1].0);
            }
            if values.len() >= 3 {
                assert(init[1] == values[1]);
                assert(values[0].0 < values[1].0);
                assert(before.min != 0);
            }
        } else {
            assert(values =~= Seq::<(u32, usize)>::empty());
        }
    }

    /// The last 24 bytes of a written skip list are its start position and
    /// its number of levels, as 64-bit little endian integers, then its
    /// minimum and its maximum, as 32-bit ones. The start position is `0`
    /// for a list without levels, and otherwise lies among the entries,
    /// which follow the position `base` at which the list was written.
    pub proof fn lemma_trailer(self, base: nat)
        requires
            self.writable(),
        ensures
            ({
                let b = self.bytes(base);
                let n = b.len() as int;
                &&& n >= 24
                &&& b.subrange(n - 24, n - 16) == spec_u64_to_le_bytes(self.start(base) as u64)
                &&& b.subrange(n - 16, n - 8) == spec_u64_to_le_bytes(self.levels() as u64)
                &&& b.subrange(n - 8, n - 4) == spec_u32_to_le_bytes(self.min)
                &&& b.subrange(n - 4, n) == spec_u32_to_le_bytes(self.max)
                &&& self.levels() == 0 ==> self.start(base) == 0
                &&& self.levels() > 0 ==> base <= self.start(base) < base + n - 24
            }),
    {
        self.lemma_bytes_len(base);
        self.lemma_rows_from_len(base, 0);
        lemma_auto_spec_u32_to_from_le_bytes();
        lemma_auto_spec_u64_to_from_le_bytes();
        let b = self.bytes(base);
        let n = b.len() as int;
        let rows = self.rows_from(base, 0);
        let a = spec_u64_to_le_bytes(self.start(base) as u64);
        let l = spec_u64_to_le_bytes(self.levels() as u64);
        let c = spec_u32_to_le_bytes(self.min);
        let e = spec_u32_to_le_bytes(self.max);
        assert(b == rows + a + l + c + e);
        assert(b.subrange(n - 24, n - 16) =~= a);
        assert(b.subrange(n - 16, n - 8) =~= l);
        assert(b.subrange(n - 8, n - 4) =~= c);
        assert(b.subrange(n - 4, n) =~= e);
        if self.levels() > 0 {
            if self.skip_size < 2 {
                assert(self.len() == 0);
                assert(self.len() / (self.skip_size as nat) == 0);
            }
            self.lemma_levels_bound();
            self.lemma_skip_every(0);
            assert(self.present(0, 0));
            self.lemma_entry_within(base, 0, 0);
        }
    }

    /// The number of levels of a skip list is the number of exponents
    /// `k >= 1` for which the skip size to the power `k` does not exceed the
    /// number of values: exactly the exponents from `1` to the number of
    /// levels qualify.
    pub proof fn lemma_levels_count_powers(self)
        requires
            self.skip_size >= 2,
        ensures
            forall|k: nat| k >= 1 ==> (#[trigger] span(self.skip_size as nat, k) <= self.len() <==> k <= self.levels()),
            Set::new(|k: int| k >= 1 && span(self.skip_size as nat, k as nat) <= self.len()) =~= set_int_range(
                1,
                self.levels() + 1int,
            ),
            Set::new(|k: int| k >= 1 && span(self.skip_size as nat, k as nat) <= self.len()).len() == self.levels(),
    {
        let s = self.skip_size as nat;
        let n = self.len();
        let l = self.levels();
        lemma_level_count_span(n, s);
        assert forall|k: nat| k >= 1 implies (#[trigger] span(s, k) <= n <==> k <= l) by {
            if k <= l {
                lemma_span_mono(s, k, l);
            } else {
                lemma_span_mono(s, l + 1, k);
            }
        }
        let powers = Set::new(|k: int| k >= 1 && span(s, k as nat) <= n);
        assert(powers =~= set_int_range(1, l + 1int)) by {
            assert forall|k: int| powers.contains(k) <==> set_int_range(1, l + 1int).contains(k) by {
                if k >= 1 {
                    assert(span(s, k as nat) <= n <==> k <= l);
                }
            }
        }
        lemma_int_range(1, l + 1int);
    }
}

/// Reading back a skip list that a writer wrote: whatever bytes precede
/// it, the reader finds the number of levels, the minimum and the maximum
/// that the writer recorded (the number of levels being the number of
/// powers `s^k`, `k >= 1`, of the skip size that do not exceed the number
/// of values), and skipping to any value gives the offset of
/// the first skip entry of the last level whose value is at least that
/// value, or none when the value exceeds the maximum or the list has no
/// levels.
pub proof fn lemma_skip_list_roundtrip(m: SkipModel, prefix: Seq<u8>, t: u32)
    requires
        m.well_formed(),
        m.writable(),
        m.len() <= usize::MAX,
        prefix.len() + m.bytes(prefix.len()).len() <= usize::MAX,
    ensures
        ({
            let d = prefix + m.bytes(prefix.len());
            &&& ReaderModel::from_bytes(d) matches Ok(r)
            &&& r.data == d
            &&& r.start == m.start(prefix.len())
            &&& r.levels == m.levels()
            &&& r.min == m.min
            &&& r.max == m.max
            &&& r.skip_to(t) == Ok::<Option<usize>, (ErrorKind, Seq<Seq<char>>)>(m.target(t))
            &&& m.skip_size >= 2 ==> r.levels == Set::new(
                |k: int| k >= 1 && span(m.skip_size as nat, k as nat) <= m.len(),
            ).len()
        }),
{
    if m.skip_size >= 2 {
        m.lemma_levels_count_powers();
    }
    let base = prefix.len();
    let d = prefix + m.bytes(base);
    m.lemma_bytes_len(base);
    m.lemma_rows_from_len(base, 0);
    if m.skip_size >= 2 {
        m.lemma_levels_bound();
    } else {
        assert(m.levels() == 0);
    }
    lemma_auto_spec_u32_to_from_le_bytes();
    lemma_auto_spec_u64_to_from_le_bytes();
    let tl = m.tail_len(0) as int;
    let len = d.len() as int;
    assert(len == base + tl + 24);
    let rows = m.rows_from(base, 0);
    let a = spec_u64_to_le_bytes(m.start(base) as u64);
    let b = spec_u64_to_le_bytes(m.levels() as u64);
    let c = spec_u32_to_le_bytes(m.min);
    let e = spec_u32_to_le_bytes(m.max);
    assert(d == prefix + (rows + a + b + c + e));
    assert(d.subrange(len - 24, len - 16) =~= a);
    assert(d.subrange(len - 16, len - 8) =~= b);
    assert(d.subrange(len - 8, len - 4) =~= c);
    assert(d.subrange(len - 4, len) =~= e);
    if m.levels() > 0 {
        m.lemma_skip_every(0);
        assert(m.present(0, 0));
        m.lemma_entry_within(base, 0, 0);
    }
    assert(m.start(base) <= len);
    let r = ReaderModel { data: d, start: m.start(base) as usize, levels: m.levels() as usize, min: m.min, max: m.max };
    assert(ReaderModel::from_bytes(d) == Ok::<ReaderModel, (ErrorKind, Seq<Seq<char>>)>(r));
    if m.levels() > 0 && t <= m.max {
        m.lemma_walk(prefix, r, t, 0, 0, 0);
    }
}

pub proof fn lemma_span_grows(s: nat, k: nat)
    requires
        s >= 2,
    ensures
        span(s, k) >= 1,
        k >= 1 ==> span(s, k) >= s,
        span(s, k + 1) == s * span(s, k),
    decreases k,
{
    if k > 0 {
        lemma_span_grows(s, (k - 1) as nat);
        lemma_mul_increases(span(s, (k - 1) as nat) as int, s as int);
        lemma_mul_is_commutative(span(s, (k - 1) as nat) as int, s as int);
    }
    lemma_mul_increases(s as int, span(s, k) as int);
}

/// A multiple of `a * b` is a multiple of `b`.
pub proof fn lemma_multiple_of_factor(i: nat, a: nat, b: nat)
    requires
        a > 0,
        b > 0,
        i % (a * b) == 0,
    ensures
        i % b == 0,
{
    lemma_mod_mod(i as int, b as int, a as int);
    lemma_mul_is_commutative(a as int, b as int);
    assert((i as int) % ((b * a) as int) == 0);
    assert(((i as int) % ((b * a) as int)) % (b as int) == (i as int) % (b as int));
    assert(0int % (b as int) == 0);
}

/// Two different multiples of `e` are at least `e` apart.
pub proof fn lemma_multiples_apart(i: nat, j: nat, e: nat)
    requires
        e > 0,
        i % e == 0,
        j % e == 0,
        i < j,
    ensures
        i + e <= j,
{
    lemma_fundamental_div_mod(i as int, e as int);
    lemma_fundamental_div_mod(j as int, e as int);
    let qi = i / e;
    let qj = j / e;
    assert(qi < qj) by {
        if qi >= qj {
            lemma_mul_inequality(qj as int, qi as int, e as int);
            lemma_mul_is_commutative(qj as int, e as int);
            lemma_mul_is_commutative(qi as int, e as int);
        }
    }
    lemma_mul_inequality((qi + 1) as int, qj as int, e as int);
    lemma_mul_is_distributive_add_other_way(e as int, qi as int, 1);
    lemma_mul_is_commutative(qi as int, e as int);
    lemma_mul_is_commutative(qj as int, e as int);
    lemma_mul_is_commutative((qi + 1) as int, e as int);
}

/// The next multiple of `e` after a multiple of `e`.
pub proof fn lemma_multiple_step(i: nat, e: nat)
    requires
        e > 0,
        i % e == 0,
    ensures
        (i + e) % e == 0,
{
    lemma_mod_add_multiples_vanish(i as int, e as int);
}

impl SkipModel {
    /// The number of values a sibling step skips: one step at the last level
    /// skips `skip_size` values, and each level above multiplies that.
    pub proof fn lemma_skip_every(self, l: nat)
        requires
            self.skip_size >= 2,
            l < self.levels(),
        ensures
            self.skip_every(l) >= self.skip_size,
            self.is_last(l) ==> self.skip_every(l) == self.skip_size,
            !self.is_last(l) ==> self.skip_every(l) == self.skip_size * self.skip_every(l + 1),
    {
        let s = self.skip_size as nat;
        let k = (self.levels() - l) as nat;
        lemma_span_grows(s, k);
        lemma_span_grows(s, (k - 1) as nat);
        if self.is_last(l) {
            assert(k == 1);
            assert(span(s, 0) == 1);
            assert(span(s, 1) == s * span(s, 0));
            lemma_mul_basics(s as int);
            assert(span(s, 1) == s);
            assert(self.skip_every(l) == span(s, 1));
        }
    }

    pub proof fn lemma_entry_bytes_with_len(self, i: nat, l: nat, sibling: nat)
        ensures
            self.entry_bytes_with(i, l, sibling).len() == self.entry_len(l),
    {
        lemma_auto_spec_u32_to_from_le_bytes();
        lemma_auto_spec_u64_to_from_le_bytes();
        assert(spec_u64_to_le_bytes(sibling as u64).len() == 8);
        assert(spec_u64_to_le_bytes(self.skips[i as int].1 as u64).len() == 8);
        assert(spec_u32_to_le_bytes(self.entry_value(i, l)).len() == 4);
    }

    pub proof fn lemma_entry_bytes_len(self, base: nat, i: nat, l: nat)
        ensures
            self.entry_bytes(base, i, l).len() == self.entry_len(l),
    {
        self.lemma_entry_bytes_with_len(i, l, self.sibling(base, i, l));
    }

    pub proof fn lemma_row_prefix_len(self, base: nat, i: nat, l: nat)
        ensures
            self.row_prefix(base, i, l).len() == self.row_prefix_len(i, l),
        decreases l,
    {
        if l > 0 {
            self.lemma_row_prefix_len(base, i, (l - 1) as nat);
            self.lemma_entry_bytes_len(base, i, (l - 1) as nat);
        }
    }

    pub proof fn lemma_rows_from_len(self, base: nat, k: nat)
        ensures
            self.rows_from(base, k).len() == self.tail_len(k),
        decreases self.len() - k,
    {
        if k < self.len() {
            self.lemma_rows_from_len(base, k + 1);
            self.lemma_row_prefix_len(base, k, self.levels());
        }
    }

    pub proof fn lemma_bytes_len(self, base: nat)
        ensures
            self.bytes(base).len() == self.tail_len(0) + 24,
    {
        self.lemma_rows_from_len(base, 0);
        lemma_auto_spec_u32_to_from_le_bytes();
        lemma_auto_spec_u64_to_from_le_bytes();
        assert(spec_u64_to_le_bytes(self.start(base) as u64).len() == 8);
        assert(spec_u64_to_le_bytes(self.levels() as u64).len() == 8);
        assert(spec_u32_to_le_bytes(self.min).len() == 4);
        assert(spec_u32_to_le_bytes(self.max).len() == 4);
    }

    pub proof fn lemma_row_prefix_len_mono(self, i: nat, l1: nat, l2: nat)
        requires
            l1 <= l2,
        ensures
            self.row_prefix_len(i, l1) <= self.row_prefix_len(i, l2),
        decreases l2,
    {
        if l1 < l2 {
            self.lemma_row_prefix_len_mono(i, l1, (l2 - 1) as nat);
        }
    }

    pub proof fn lemma_tail_len_mono(self, k1: nat, k2: nat)
        requires
            k1 <= k2,
        ensures
            self.tail_len(k2) <= self.tail_len(k1),
        decreases k2 - k1,
    {
        if k1 < k2 && k1 < self.len() {
            self.lemma_tail_len_mono(k1 + 1, k2);
        }
    }

    /// Every entry ends before the end of the entries.
    pub proof fn lemma_entry_within(self, base: nat, i: nat, l: nat)
        requires
            self.present(i, l),
        ensures
            self.entry_pos(base, i, l) + self.entry_len(l) <= base + self.tail_len(i),
            self.entry_pos(base, i, l) + self.entry_len(l) <= base + self.tail_len(0),
    {
        self.lemma_row_prefix_len_mono(i, l + 1, self.levels());
        self.lemma_tail_len_mono(0, i);
    }

    /// The next sibling of an entry was written before it, so it lies at a
    /// lower position.
    pub proof fn lemma_sibling_before(self, base: nat, i: nat, l: nat)
        requires
            self.skip_size >= 2,
            self.present(i, l),
            i + self.skip_every(l) < self.len(),
        ensures
            self.present(i + self.skip_every(l), l),
            self.entry_pos(base, i + self.skip_every(l), l) + self.entry_len(l) <= self.entry_pos(base, i, l),
    {
        let e = self.skip_every(l);
        self.lemma_skip_every(l);
        lemma_multiple_step(i, e);
        let j = i + e;
        self.lemma_tail_len_mono(i + 1, j);
        self.lemma_row_prefix_len_mono(j, l + 1, self.levels());
    }

    /// The entry at level `l` after index `k`, when `k` has one, is the one
    /// a sibling step away, if that index exists.
    pub proof fn lemma_first_present_after(self, k: nat, l: nat)
        requires
            self.skip_size >= 2,
            self.present(k, l),
        ensures
            self.first_present(k + 1, l) == if k + self.skip_every(l) < self.len() {
                Some(k + self.skip_every(l))
            } else {
                None::<nat>
            },
    {
        self.lemma_skip_every(l);
        self.lemma_first_present_gap(k, l, k + 1);
    }

    proof fn lemma_first_present_gap(self, k: nat, l: nat, j: nat)
        requires
            self.skip_size >= 2,
            self.present(k, l),
            k < j <= k + self.skip_every(l),
            self.skip_every(l) >= 1,
        ensures
            self.first_present(j, l) == if k + self.skip_every(l) < self.len() {
                Some(k + self.skip_every(l))
            } else {
                None::<nat>
            },
        decreases k + self.skip_every(l) - j,
    {
        let e = self.skip_every(l);
        if j >= self.len() {
        } else if j == k + e {
            lemma_multiple_step(k, e);
        } else {
            if j % e == 0 {
                lemma_multiples_apart(k, j, e);
            }
            self.lemma_first_present_gap(k, l, j + 1);
        }
    }

    /// The rows from `j` on are a prefix of the rows from `k` on, for
    /// `k <= j`.
    proof fn lemma_rows_prefix(self, base: nat, k: nat, j: nat, idx: int)
        requires
            k <= j,
            0 <= idx < self.tail_len(j),
        ensures
            self.rows_from(base, k)[idx] == self.rows_from(base, j)[idx],
        decreases j - k,
    {
        self.lemma_rows_from_len(base, k);
        self.lemma_rows_from_len(base, j);
        if k < j {
            self.lemma_tail_len_mono(k + 1, j);
            self.lemma_rows_from_len(base, k + 1);
            self.lemma_rows_prefix(base, k + 1, j, idx);
        }
    }

    /// The entries of a row below level `l` are a prefix of the entries
    /// below level `l2`, for `l <= l2`.
    proof fn lemma_row_prefix_prefix(self, base: nat, i: nat, l: nat, l2: nat, idx: int)
        requires
            l <= l2,
            0 <= idx < self.row_prefix_len(i, l),
        ensures
            self.row_prefix(base, i, l2)[idx] == self.row_prefix(base, i, l)[idx],
        decreases l2 - l,
    {
        self.lemma_row_prefix_len(base, i, l);
        self.lemma_row_prefix_len(base, i, l2);
        if l < l2 {
            self.lemma_row_prefix_len_mono(i, l, (l2 - 1) as nat);
            self.lemma_row_prefix_len(base, i, (l2 - 1) as nat);
            self.lemma_row_prefix_prefix(base, i, l, (l2 - 1) as nat, idx);
        }
    }

    /// The bytes of a skip list written after `prefix` hold the bytes of
    /// each entry at the entry's position.
    #[verifier::spinoff_prover]
    pub proof fn lemma_entry_in_bytes(self, prefix: Seq<u8>, i: nat, l: nat)
        requires
            self.present(i, l),
        ensures
            ({
                let base = prefix.len();
                let d = prefix + self.bytes(base);
                let pos = self.entry_pos(base, i, l) as int;
                &&& pos + self.entry_len(l) <= base + self.tail_len(0)
                &&& d.len() == base + self.tail_len(0) + 24
                &&& d.subrange(pos, pos + self.entry_len(l)) == self.entry_bytes(base, i, l)
            }),
    {
        let base = prefix.len();
        let d = prefix + self.bytes(base);
        let pos = self.entry_pos(base, i, l) as int;
        let len = self.entry_len(l);
        let eb = self.entry_bytes(base, i, l);
        self.lemma_entry_within(base, i, l);
        self.lemma_bytes_len(base);
        self.lemma_rows_from_len(base, 0);
        self.lemma_rows_from_len(base, i);
        self.lemma_rows_from_len(base, i + 1);
        self.lemma_entry_bytes_len(base, i, l);
        self.lemma_row_prefix_len(base, i, l);
        self.lemma_row_prefix_len(base, i, l + 1);
        self.lemma_row_prefix_len(base, i, self.levels());
        self.lemma_row_prefix_len_mono(i, l + 1, self.levels());
        let rows0 = self.rows_from(base, 0);
        let rowsi = self.rows_from(base, i);
        let row = self.row_prefix(base, i, self.levels());
        let upto = self.row_prefix(base, i, l + 1);
        let off_row = self.tail_len(i + 1) as int;
        let off_entry = self.row_prefix_len(i, l) as int;
        assert(rowsi == self.rows_from(base, i + 1) + row);
        assert(upto == self.row_prefix(base, i, l) + eb);
        assert forall|k: int| 0 <= k < len implies #[trigger] d.subrange(pos, pos + len)[k] == eb[k] by {
            let idx = off_row + off_entry + k;
            self.lemma_rows_prefix(base, 0, i, idx);
            self.lemma_row_prefix_prefix(base, i, l + 1, self.levels(), off_entry + k);
            assert(d[pos + k] == rows0[idx]);
            assert(rowsi[idx] == row[off_entry + k]);
            assert(upto[off_entry + k] == eb[k]);
            assert(d.subrange(pos, pos + len)[k] == d[pos + k]);
        }
        assert(d.subrange(pos, pos + len) =~= eb);
    }

    /// The rows after row `i`, the entries of row `i` below level `l` and the
    /// first `k` bytes of the entry at level `l` are the first bytes of the
    /// skip list.
    pub proof fn lemma_partial_prefix(self, base: nat, i: nat, l: nat, k: int)
        requires
            self.present(i, l),
            0 <= k <= self.entry_len(l),
        ensures
            self.rows_from(base, i + 1) + self.row_prefix(base, i, l) + self.entry_bytes(base, i, l).take(k)
                == self.bytes(base).take(self.tail_len(i + 1) + self.row_prefix_len(i, l) + k),
    {
        let eb = self.entry_bytes(base, i, l);
        let lhs = self.rows_from(base, i + 1) + self.row_prefix(base, i, l) + eb.take(k);
        let t1 = self.tail_len(i + 1) as int;
        let r = self.row_prefix_len(i, l) as int;
        self.lemma_entry_within(base, i, l);
        self.lemma_bytes_len(base);
        self.lemma_rows_from_len(base, 0);
        self.lemma_rows_from_len(base, i);
        self.lemma_rows_from_len(base, i + 1);
        self.lemma_entry_bytes_len(base, i, l);
        self.lemma_row_prefix_len(base, i, l);
        self.lemma_row_prefix_len(base, i, l + 1);
        self.lemma_row_prefix_len(base, i, self.levels());
        self.lemma_row_prefix_len_mono(i, l + 1, self.levels());
        let rows0 = self.rows_from(base, 0);
        let rowsi = self.rows_from(base, i);
        let row = self.row_prefix(base, i, self.levels());
        let upto = self.row_prefix(base, i, l + 1);
        assert(rowsi == self.rows_from(base, i + 1) + row);
        assert(upto == self.row_prefix(base, i, l) + eb);
        assert(self.bytes(base).subrange(0, self.tail_len(0) as int) =~= rows0);
        assert forall|idx: int| 0 <= idx < t1 + r + k implies #[trigger] lhs[idx] == self.bytes(base).take(t1 + r + k)[idx] by {
            assert(self.bytes(base)[idx] == rows0[idx]);
            if idx < t1 {
                self.lemma_rows_prefix(base, 0, i + 1, idx);
            } else {
                let j = idx - t1;
                self.lemma_rows_prefix(base, 0, i, idx);
                self.lemma_row_prefix_prefix(base, i, l + 1, self.levels(), j);
                assert(rowsi[idx] == row[j]);
                assert(upto[j] == lhs[idx]);
            }
        }
        assert(lhs =~= self.bytes(base).take(t1 + r + k));
    }

    /// A write of the skip list that failed within the entry of index `i`
    /// at level `l` left a first part of the skip list behind.
    pub proof fn lemma_failed_in_entry(self, base: nat, i: nat, l: nat, start: Seq<u8>, before: Seq<u8>, after: Seq<u8>)
        requires
            self.present(i, l),
            before == start + self.rows_from(base, i + 1) + self.row_prefix(base, i, l),
            is_partial_write(before, after, self.entry_bytes(base, i, l)),
        ensures
            is_partial_write(start, after, self.bytes(base)),
    {
        let eb = self.entry_bytes(base, i, l);
        let k0 = choose|k: int| 0 <= k <= eb.len() && after == before + #[trigger] eb.take(k);
        self.lemma_entry_bytes_len(base, i, l);
        self.lemma_partial_prefix(base, i, l, k0);
        self.lemma_entry_within(base, i, l);
        self.lemma_bytes_len(base);
        let t = self.tail_len(i + 1) + self.row_prefix_len(i, l) + k0;
        assert(after =~= start + self.bytes(base).take(t));
    }

    /// What a reader finds in the fields of an entry.
    pub proof fn lemma_entry_fields(self, prefix: Seq<u8>, i: nat, l: nat)
        requires
            self.present(i, l),
        ensures
            ({
                let base = prefix.len();
                let d = prefix + self.bytes(base);
                let pos = self.entry_pos(base, i, l) as int;
                let sib = if self.is_last(l) { pos + 12 } else { pos + 4 };
                &&& pos + self.entry_len(l) <= base + self.tail_len(0)
                &&& d.len() == base + self.tail_len(0) + 24
                &&& u32_at(d, pos) == self.entry_value(i, l)
                &&& self.is_last(l) ==> u64_at(d, pos + 4) == self.skips[i as int].1 as u64
                &&& u64_at(d, sib) == self.sibling(base, i, l) as u64
                &&& sib + 8 == pos + self.entry_len(l)
            }),
    {
        let base = prefix.len();
        let d = prefix + self.bytes(base);
        let pos = self.entry_pos(base, i, l) as int;
        self.lemma_entry_in_bytes(prefix, i, l);
        lemma_auto_spec_u32_to_from_le_bytes();
        lemma_auto_spec_u64_to_from_le_bytes();
        let eb = self.entry_bytes(base, i, l);
        let a = spec_u32_to_le_bytes(self.entry_value(i, l));
        let c = spec_u64_to_le_bytes(self.sibling(base, i, l) as u64);
        let len = self.entry_len(l) as int;
        assert(d.subrange(pos, pos + 4) =~= eb.subrange(0, 4));
        assert(eb.subrange(0, 4) =~= a);
        if self.is_last(l) {
            let b = spec_u64_to_le_bytes(self.skips[i as int].1 as u64);
            assert(eb == a + b + c);
            assert(d.subrange(pos + 4, pos + 12) =~= eb.subrange(4, 12));
            assert(eb.subrange(4, 12) =~= b);
            assert(d.subrange(pos + 12, pos + 20) =~= eb.subrange(12, 20));
            assert(eb.subrange(12, 20) =~= c);
        } else {
            assert(eb == a + Seq::<u8>::empty() + c);
            assert(d.subrange(pos + 4, pos + 12) =~= eb.subrange(4, 12));
            assert(eb.subrange(4, 12) =~= c);
        }
    }

    /// Skipping past a last-level index whose value is below `t` does not
    /// change the first index that reaches `t`.
    pub proof fn lemma_first_reaching_skip(self, t: u32, j: nat, k: nat)
        requires
            self.well_formed(),
            self.skip_size >= 2,
            j <= k,
            j % (self.skip_size as nat) == 0,
            k % (self.skip_size as nat) == 0,
            k + (self.skip_size as nat) < self.len(),
            self.last_level_value(k) < t,
        ensures
            self.first_reaching(t, j) == self.first_reaching(t, k + self.skip_size as nat),
        decreases k - j,
    {
        let s = self.skip_size as nat;
        if j < k {
            lemma_multiples_apart(j, k, s);
            lemma_multiple_step(j, s);
            assert(self.last_level_value(j) == self.skips[j as int].0);
            assert(self.last_level_value(k) == self.skips[k as int].0);
            self.lemma_first_reaching_skip(t, j + s, k);
        }
    }

    /// Walking a well formed skip list from the entry of index `i` at level
    /// `l` finds the offset of the first last-level index from `i` on that
    /// reaches `t`.
    #[verifier::spinoff_prover]
    proof fn lemma_walk(self, prefix: Seq<u8>, r: ReaderModel, t: u32, i: nat, l: nat, steps: nat)
        requires
            self.well_formed(),
            self.skip_size >= 2,
            r.data == prefix + self.bytes(prefix.len()),
            r.levels == self.levels(),
            r.data.len() <= usize::MAX,
            t <= self.max,
            self.present(i, l),
            steps + self.entry_pos(prefix.len(), i, l) < r.data.len(),
        ensures
            r.walk(self.entry_pos(prefix.len(), i, l) as int, l, steps, t)
                == Ok::<Option<usize>, (ErrorKind, Seq<Seq<char>>)>(Some(self.skips[self.first_reaching(t, i) as int].1)),
        decreases self.levels() - l, self.len() - i,
    {
        let base = prefix.len();
        let d = r.data;
        let s = self.skip_size as nat;
        let e = self.skip_every(l);
        let pos = self.entry_pos(base, i, l) as int;
        self.lemma_entry_fields(prefix, i, l);
        self.lemma_skip_every(l);
        self.lemma_present_below(i, l);
        let val = self.entry_value(i, l);
        if t > val {
            assert(i + e < self.len());
            self.lemma_sibling_before(base, i, l);
            lemma_multiple_step(i, e);
            let k = (i + e - s) as nat;
            if !self.is_last(l) {
                lemma_span_grows(s, (self.levels() - l - 1) as nat);
                self.lemma_skip_every(l + 1);
                assert((i + e) % e == 0);
                assert(e == s * self.skip_every(l + 1));
                lemma_mul_is_commutative(s as int, self.skip_every(l + 1) as int);
                lemma_multiple_of_factor(i + e, self.skip_every(l + 1), s);
                assert((i + e) % s == 0);
                lemma_mod_sub_multiples_vanish((i + e) as int, s as int);
                assert((-(s as int) + (i + e)) % (s as int) == 0);
            } else {
                assert(k == i);
            }
            assert(k % s == 0);
            assert(self.last_level_value(k) == val);
            self.lemma_first_reaching_skip(t, i, k);
            self.lemma_walk(prefix, r, t, i + e, l, steps + 1);
        } else if self.is_last(l) {
            assert(self.last_level_value(i) >= t);
        } else {
            self.lemma_entry_fields(prefix, i, l + 1);
            if i + e < self.len() {
                self.lemma_sibling_before(base, i, l);
            }
            assert(self.entry_pos(base, i, l + 1) == pos + 12);
            self.lemma_walk(prefix, r, t, i, l + 1, 0);
        }
    }

    /// What `first_reaching` finds: from a multiple `i` of the skip size,
    /// either a later multiple below the number of values whose last level
    /// value reaches `t`, every multiple in between falling short of `t`; or
    /// the number of values, every multiple from `i` on falling short.
    pub proof fn lemma_first_reaching(self, t: u32, i: nat)
        requires
            self.skip_size >= 1,
            i % (self.skip_size as nat) == 0,
        ensures
            ({
                let r = self.first_reaching(t, i);
                let s = self.skip_size as nat;
                &&& r == self.len() || (i <= r < self.len() && r % s == 0 && self.last_level_value(r) >= t)
                &&& forall|j: nat| i <= j < r && j < self.len() && #[trigger] (j % s) == 0 ==> self.last_level_value(j) < t
            }),
        decreases self.len() - i,
    {
        let s = self.skip_size as nat;
        if i < self.len() && self.last_level_value(i) < t && i + s < self.len() {
            lemma_multiple_step(i, s);
            self.lemma_first_reaching(t, i + s);
            assert forall|j: nat| i <= j < self.first_reaching(t, i) && j < self.len() && #[trigger] (j % s) == 0 implies self.last_level_value(j) < t by {
                if i < j && j < i + s {
                    lemma_multiples_apart(i, j, s);
                }
            }
        } else if i < self.len() && self.last_level_value(i) < t {
            assert forall|j: nat| i <= j < self.first_reaching(t, i) && j < self.len() && #[trigger] (j % s) == 0 implies self.last_level_value(j) < t by {
                if i < j {
                    lemma_multiples_apart(i, j, s);
                }
            }
        }
    }

    /// A skip list without values has no levels and a maximum of `0`, and
    /// skipping to any value in it gives nothing.
    pub proof fn lemma_empty_skip_list(self, t: u32)
        requires
            self.well_formed(),
            self.len() == 0,
        ensures
            self.levels() == 0,
            self.max == 0,
            self.target(t) is None,
    {
        let s = self.skip_size as nat;
        if s > 1 {
            assert(self.len() / s == 0);
        }
        lemma_level_count_zero(self.len() / s, s);
    }

    /// The offset that skipping to `t` gives is that of the first index, among
    /// the multiples of the skip size, whose last level value reaches `t`;
    /// there is one whenever `t` does not exceed the maximum of a skip list
    /// with levels.
    pub proof fn lemma_target(self, t: u32)
        requires
            self.well_formed(),
            self.skip_size >= 2,
        ensures
            self.target(t) is None <==> self.levels() == 0 || t > self.max,
            self.levels() > 0 && t <= self.max ==> {
                let j = self.first_reaching(t, 0);
                let s = self.skip_size as nat;
                &&& j < self.len()
                &&& j % s == 0
                &&& self.target(t) == Some(self.skips[j as int].1)
                &&& self.last_level_value(j) >= t
                &&& forall|k: nat| k < j && #[trigger] (k % s) == 0 ==> self.last_level_value(k) < t
            },
    {
        let s = self.skip_size as nat;
        self.lemma_first_reaching(t, 0);
        if self.levels() > 0 && t <= self.max {
            self.lemma_levels_bound();
            let j = self.first_reaching(t, 0);
            if j == self.len() {
                // The last multiple of the skip size below the number of
                // values has the maximum as its last level value.
                let top = (self.len() - 1) as int;
                let q = top / (s as int);
                let last = (q * (s as int)) as nat;
                lemma_fundamental_div_mod(top, s as int);
                lemma_mod_multiples_basic(q, s as int);
                lemma_mul_is_commutative(q, s as int);
                lemma_div_pos_is_pos(top, s as int);
                assert(last % s == 0);
                assert(last + s >= self.len());
                assert(self.last_level_value(last) == self.max);
                assert(false);
            }
        }
    }

    /// A skip list has no more levels than values.
    pub proof fn lemma_levels_bound(self)
        requires
            self.skip_size >= 2,
        ensures
            self.levels() <= self.len(),
            self.levels() > 0 ==> self.len() > 0,
    {
        let s = self.skip_size as nat;
        lemma_level_count_bound(self.len() / s, s);
        lemma_div_nonincreasing(self.len() as int, s as int);
        if self.len() == 0 {
            assert(self.len() / s == 0);
        }
    }

    /// An index with an entry at some level has entries at all levels below
    /// it, and is a multiple of the skip size.
    pub proof fn lemma_present_below(self, i: nat, l: nat)
        requires
            self.skip_size >= 2,
            self.present(i, l),
        ensures
            self.is_last(l) || self.present(i, l + 1),
            i % (self.skip_size as nat) == 0,
        decreases self.levels() - l,
    {
        self.lemma_skip_every(l);
        if !self.is_last(l) {
            lemma_span_grows(self.skip_size as nat, (self.levels() - l - 1) as nat);
            lemma_multiple_of_factor(i, self.skip_size as nat, self.skip_every(l + 1));
            self.lemma_present_below(i, l + 1);
        }
    }
}

} // verus!
