//! Skip lists: a writer that serializes an ordered sequence of `u32` values
//! with their offsets, and a reader that finds the offset associated with a
//! value in such a serialized list.
use vstd::prelude::*;
use vstd::arithmetic::div_mod::*;
use vstd::arithmetic::mul::*;

use vstd::bytes::*;

use crate::error::{fails_with, ErrorKind, FormatContext, FormatError};
use crate::prim::read::Cursor as ReadCursor;
use crate::prim::skip_layout::{is_partial_write, lemma_span_grows, span, level_count, u32_at, u64_at, ReaderModel, SkipModel};
use crate::prim::write::Cursor as WriteCursor;

verus! {

/// A skip list reader.
///
/// A skip list reader fundamentally supports one operation: it can
/// efficiently search an ordered sequence of values. It does this by
/// associating values with offsets. The idea is that if you have a given
/// value (say a doc ID), then a skip list can very quickly produce an offset
/// associated with that value.
///
/// The `'a` lifetime parameter refers to the lifetime of the slice of bytes
/// that this skip reader reads from.
#[derive(Debug)]
pub struct Reader<'a> {
    /// The region of bytes from which to read skip entries.
    cursor: ReadCursor<'a>,
    /// The start offset (into the bytes) of the first skip in level 0.
    start: usize,
    /// The number of levels in this skip list. A skip list with zero levels
    /// is an empty list.
    levels: usize,
    /// The minimum value indexed by this skip list.
    min: u32,
    /// The maximum value indexed by this skip list.
    max: u32,
}

impl<'a> View for Reader<'a> {
    type V = ReaderModel;

    closed spec fn view(&self) -> ReaderModel {
        ReaderModel {
            data: self.cursor.data(),
            start: self.start,
            levels: self.levels,
            min: self.min,
            max: self.max,
        }
    }
}

impl<'a> Reader<'a> {
    #[verifier::type_invariant]
    spec fn inv(self) -> bool {
        &&& self.start <= self.cursor.data().len()
    }

    /// Create a new reader for a skip list. The cursor given may begin
    /// anywhere, but must end immediately where the skip list ends.
    pub fn new(cursor: ReadCursor<'a>) -> (r: Result<Reader<'a>, FormatError>)
        ensures
            match ReaderModel::from_bytes(cursor.data()) {
                Ok(m) => r matches Ok(rdr) && rdr@ == m,
                Err((k, contexts)) => fails_with(r, k, contexts),
            },
    {
        let mut c = cursor;
        let ghost d = c.data();
        let len = c.pos() + c.len();
        // start (u64) + levels (u64) + min (u32) + max (u32)
        c.set_pos_rev(8 + 8 + 4 + 4)?;
        let start = c.read_usize_le().context("failed to read skip start offset".to_owned())?;
        let levels = c.read_usize_le().context("failed to read skip list levels".to_owned())?;
        let min = c.read_u32_le().context("failed to read min skip list value".to_owned())?;
        let max = c.read_u32_le().context("failed to read max skip list value".to_owned())?;
        // Ensure that the starting position is correct.
        c.set_pos(start).context("invalid skip list start offset".to_owned())?;
        Ok(Reader { cursor: c, start, levels, min, max })
    }

    /// Return the number of levels in this skip list.
    pub fn levels(&self) -> (n: usize)
        ensures
            n == self@.levels,
    {
        self.levels
    }

    /// Return the minimum value indexed by this skip list.
    pub fn min(&self) -> (n: u32)
        ensures
            n == self@.min,
    {
        self.min
    }

    /// Return the maximum value indexed by this skip list.
    pub fn max(&self) -> (n: u32)
        ensures
            n == self@.max,
    {
        self.max
    }

    /// Return the skip offset associated with the given value.
    ///
    /// If the given value is greater than any skip value indexed by this
    /// skip list, then this returns `None`. Note that an empty skip list
    /// always has zero levels and a max value of `0`.
    ///
    /// If there was a problem reading the skip list, then an error is
    /// returned. Errors only occur when the skip list is malformed.
    #[verifier::spinoff_prover]
    pub fn skip_to(&self, target_value: u32) -> (res: Result<Option<usize>, FormatError>)
        ensures
            match self@.skip_to(target_value) {
                Ok(o) => res == Ok::<Option<usize>, FormatError>(o),
                Err((k, contexts)) => fails_with(res, k, contexts),
            },
    {
        proof {
            use_type_invariant(self);
        }
        if self.levels() == 0 || target_value > self.max() {
            return Ok(None);
        }
        let ghost model = self@;
        let ghost d = model.data;
        let mut level: usize = 0;
        let last_level = self.levels() - 1;
        let mut cursor = self.cursor;
        let total = cursor.pos() + cursor.len();
        let _ = cursor.set_pos(self.start);
        let mut steps: usize = 0;
        loop
            invariant
                cursor.data() == d,
                model == self@,
                d == model.data,
                total == d.len(),
                last_level + 1 == model.levels,
                level <= last_level,
                steps <= total,
                0 <= cursor.position() <= d.len(),
                model.skip_to(target_value) == model.walk(cursor.position(), level as nat, steps as nat, target_value),
            decreases last_level - level, total - steps,
        {
            let ghost pos = cursor.position();
            // The value is the maximum value indexed by this entry and all of
            // its children ...
            let val = Self::read_target_value(&mut cursor)?;
            if target_value > val {
                // ... so if the target value is bigger than it, move to the
                // next sibling, which on the last level is encoded after the
                // offset.
                if level == last_level {
                    let _ = Self::read_last_level_offset(&mut cursor)?;
                }
                let next_sibling = Self::read_next_sibling(&mut cursor)?;
                if steps >= total {
                    return Err(FormatError::from_kind(ErrorKind::SkipListCycle));
                }
                cursor.set_pos(next_sibling).context("failed to set skip position to next sibling".to_owned())?;
                steps = steps + 1;
            } else {
                // ... otherwise, the entry we want is either this one (on the
                // last level) or beneath this one, which is adjacent.
                if level == last_level {
                    let offset = Self::read_last_level_offset(&mut cursor)?;
                    return Ok(Some(offset));
                }
                let _ = Self::read_next_sibling(&mut cursor)?;
                level = level + 1;
                steps = 0;
            }
        }
    }

    /// Reads the target value at the beginning of a skip entry, where the
    /// cursor must be positioned.
    fn read_target_value(cursor: &mut ReadCursor<'a>) -> (r: Result<u32, FormatError>)
        ensures
            final(cursor).data() == old(cursor).data(),
            r is Ok <==> old(cursor).position() + 4 <= old(cursor).data().len(),
            r matches Ok(v) ==> v == u32_at(old(cursor).data(), old(cursor).position())
                && final(cursor).position() == old(cursor).position() + 4,
            r is Err ==> fails_with(r, ErrorKind::InvalidSliceRange { start: 0, end: 4 }, seq!["failed to read skip target value"@])
                && final(cursor).position() == old(cursor).position(),
    {
        cursor.read_u32_le().context("failed to read skip target value".to_owned())
    }

    /// Reads the next sibling offset encoded at the current position.
    ///
    /// The reader should never move forwards as a result of skipping to the
    /// next sibling in a level, so a sibling offset that does not lie before
    /// the current position is an error. An offset of `0` indicates the
    /// final entry of a level, which has no next sibling.
    fn read_next_sibling(cursor: &mut ReadCursor<'a>) -> (r: Result<usize, FormatError>)
        ensures
            final(cursor).data() == old(cursor).data(),
            ({
                let d = old(cursor).data();
                let p = old(cursor).position();
                let n = u64_at(d, p);
                let context = seq!["failed to read next sibling offset"@];
                if p + 8 > d.len() {
                    &&& final(cursor).position() == p
                    &&& fails_with(r, ErrorKind::InvalidSliceRange { start: 0, end: 8 }, context)
                } else if n > usize::MAX {
                    &&& final(cursor).position() == p + 8
                    &&& fails_with(r, ErrorKind::UsizeOverflow { n }, context)
                } else if n != 0 && n >= p + 8 {
                    &&& final(cursor).position() == p + 8
                    &&& fails_with(r, ErrorKind::InvalidSiblingOffset { offset: n as usize, pos: (p + 8) as usize }, Seq::empty())
                } else {
                    r == Ok::<usize, FormatError>(n as usize) && final(cursor).position() == p + 8
                }
            }),
    {
        let next_sibling = cursor.read_usize_le().context("failed to read next sibling offset".to_owned())?;
        let pos = cursor.pos();
        if next_sibling != 0 && next_sibling >= pos {
            return Err(FormatError::from_kind(ErrorKind::InvalidSiblingOffset { offset: next_sibling, pos }));
        }
        Ok(next_sibling)
    }

    /// Reads the offset encoded in an entry of the last level. The cursor
    /// should be positioned just after the target value of that entry.
    fn read_last_level_offset(cursor: &mut ReadCursor<'a>) -> (r: Result<usize, FormatError>)
        ensures
            final(cursor).data() == old(cursor).data(),
            ({
                let d = old(cursor).data();
                let p = old(cursor).position();
                let n = u64_at(d, p);
                let context = seq!["failed to read last level skip offset"@];
                if p + 8 > d.len() {
                    &&& final(cursor).position() == p
                    &&& fails_with(r, ErrorKind::InvalidSliceRange { start: 0, end: 8 }, context)
                } else if n > usize::MAX {
                    &&& final(cursor).position() == p + 8
                    &&& fails_with(r, ErrorKind::UsizeOverflow { n }, context)
                } else {
                    r == Ok::<usize, FormatError>(n as usize) && final(cursor).position() == p + 8
                }
            }),
    {
        cursor.read_usize_le().context("failed to read last level skip offset".to_owned())
    }
}

/// A single skip entry.
#[derive(Clone, Copy, Debug)]
struct Skip {
    /// The skip value.
    value: u32,
    /// The offset associated with this skip value.
    offset: usize,
}

spec fn skips_view(v: Seq<Skip>) -> Seq<(u32, usize)> {
    v.map_values(|k: Skip| (k.value, k.offset))
}

/// A writer that can write skip lists to a Nakala index.
///
/// While the primary purpose of a skip list in Nakala is to make doc id list
/// traversal faster in some cases, this implementation is not tied to doc
/// ids and can be used with any ordered sequence of `u32` values.
///
/// Skip lists produced by this writer are not amenable to subsequent
/// modification.
#[derive(Debug)]
pub struct Writer {
    /// A sequence of skip values and offsets associated with each value.
    skips: Vec<Skip>,
    /// The minimum value indexed by this skip list.
    min: u32,
    /// The maximum value indexed by this skip list.
    max: u32,
    /// The number of skips in the lowest level. Each increasing level skips
    /// multiplicatively more entries.
    skip_size: usize,
    /// For each level (`0` being the top most level that skips the most
    /// entries), the number of entries that are skipped at this level.
    levels: Vec<usize>,
}

impl View for Writer {
    type V = SkipModel;

    closed spec fn view(&self) -> SkipModel {
        SkipModel { skips: skips_view(self.skips@), min: self.min, max: self.max, skip_size: self.skip_size }
    }
}

impl Writer {
    #[verifier::type_invariant]
    spec fn inv(self) -> bool {
        self@.well_formed()
    }

    /// Create a new skip writer with a default skip size of `4`.
    pub fn new() -> (w: Writer)
        ensures
            w@ == SkipModel::empty(4),
            w@.well_formed(),
    {
        Writer::with_skip_size(4)
    }

    /// Create a new skip writer with the given skip size.
    pub fn with_skip_size(skip_size: usize) -> (w: Writer)
        ensures
            w@ == SkipModel::empty(skip_size),
            w@.well_formed(),
    {
        let w = Writer { skips: Vec::new(), skip_size: skip_size, levels: Vec::new(), min: 0, max: 0 };
        assert(w@.skips =~= Seq::<(u32, usize)>::empty());
        w
    }

    /// Add a new value that can be skipped to.
    ///
    /// The offset given should correspond to a pointer to something that
    /// can be used to resolve to the given value. Generally, `value`
    /// corresponds to the last value in a compressed block of values and the
    /// `offset` corresponds to the beginning of that block.
    ///
    /// Values must be added in increasing order.
    pub fn add(&mut self, value: u32, offset: usize)
        requires
            old(self)@.len() == 0 || value > old(self)@.max,
        ensures
            final(self)@ == old(self)@.add(value, offset),
            final(self)@.well_formed(),
    {
        proof {
            use_type_invariant(&*self);
        }
        let mut w = Writer::with_skip_size(self.skip_size);
        std::mem::swap(&mut w, self);
        proof {
            use_type_invariant(&w);
        }
        let Writer { mut skips, min, max: _, skip_size, levels } = w;
        let ghost old_skips = skips@;
        let min = if min == 0 { value } else { min };
        skips.push(Skip { value, offset });
        proof {
            assert(skips_view(skips@) =~= skips_view(old_skips).push((value, offset)));
        }
        *self = Writer { skips, min, max: value, skip_size, levels };
    }

    /// Reset this writer such that it can be reused.
    pub fn clear(&mut self)
        ensures
            final(self)@ == SkipModel::empty(old(self)@.skip_size),
            final(self)@.well_formed(),
    {
        *self = Writer::with_skip_size(self.skip_size);
    }

    /// Write this skip list to the given writer.
    ///
    /// If successful, the internal state of this writer will have been
    /// flushed, and is immediately ready for reuse to create additional
    /// skip lists.
    ///
    /// Note that `write` should be called once for every skip list
    /// produced. It is not possible to incrementally write a skip list.
    ///
    /// Writing fails only when the position of `wtr` would overflow a
    /// `usize`: the bytes written up to then stay in its buffer, and this
    /// writer keeps its values.
    pub fn write(&mut self, wtr: &mut WriteCursor) -> (r: Result<(), FormatError>)
        requires
            old(self)@.writable(),
        ensures
            ({
                let m = old(self)@;
                let base = old(wtr).position() as nat;
                &&& m.well_formed()
                &&& m.len() <= usize::MAX
                &&& r is Ok <==> base + m.bytes(base).len() <= usize::MAX
                &&& r is Ok ==> final(wtr).buffer() == old(wtr).buffer() + m.bytes(base)
                    && final(wtr).position() == base + m.bytes(base).len()
                    && final(self)@ == SkipModel::empty(m.skip_size)
                &&& r matches Err(e) ==> final(self)@ == m && e.error_kind() is PositionOverflow
                    && is_partial_write(old(wtr).buffer(), final(wtr).buffer(), m.bytes(base))
            }),
    {
        proof {
            use_type_invariant(&*self);
        }
        // The number of values is that of a vector, which fits in a usize.
        let _count = self.skips.len();
        let hole = self.writer();
        let mut imp = WriterImp {
            skips: self.skips.as_slice(),
            skip_size: self.skip_size,
            levels: self.levels.as_slice(),
            min: self.min,
            max: self.max,
            next_sibling_hole: hole,
        };
        assert(imp.model() == self@);
        imp.write(wtr)?;
        self.clear();
        assert(self@.skips =~= Seq::<(u32, usize)>::empty());
        Ok(())
    }

    /// Prepare the levels of the skip list, and return a place for each
    /// level to record the position of the entry written last.
    ///
    /// The number of skip values decreases by a factor of the skip size at
    /// each level; levels are built from the lowest up, then reversed so
    /// that level `0` is the top-most one.
    fn writer(&mut self) -> (hole: Vec<Option<usize>>)
        requires
            old(self)@.writable(),
        ensures
            final(self)@ == old(self)@,
            final(self).levels@.len() == old(self)@.levels(),
            forall|l: int| 0 <= l < final(self).levels@.len() ==> final(self).levels@[l] == old(self)@.skip_every(l as nat),
            hole@.len() == old(self)@.levels(),
            forall|l: int| 0 <= l < hole@.len() ==> hole@[l] is None,
    {
        proof {
            use_type_invariant(&*self);
        }
        let mut levels: Vec<usize> = Vec::new();
        let n = self.skips.len();
        let s = self.skip_size;
        let ghost m = self@;
        let mut num_skip_values = n / s;
        let mut level_length = s;
        proof {
            assert(span(s as nat, 0) == 1);
            assert(span(s as nat, 1) == (s as nat) * span(s as nat, 0));
            assert(span(s as nat, 1) == s);
        }
        while num_skip_values > 0
            invariant
                self@ == m,
                n == m.len(),
                s == m.skip_size,
                m.writable(),
                num_skip_values <= n,
                levels@.len() + level_count(num_skip_values as nat, s as nat) == m.levels(),
                forall|j: int| 0 <= j < levels@.len() ==> levels@[j] == span(s as nat, (j + 1) as nat),
                num_skip_values == (n as nat) / span(s as nat, (levels@.len() + 1) as nat),
                num_skip_values > 0 ==> level_length == span(s as nat, (levels@.len() + 1) as nat),
            decreases num_skip_values,
        {
            let ghost k = levels@.len();
            assert(s >= 2);
            levels.push(level_length);
            proof {
                lemma_span_grows(s as nat, (k + 1) as nat);
                lemma_div_denominator(n as int, span(s as nat, (k + 1) as nat) as int, s as int);
                lemma_mul_is_commutative(span(s as nat, (k + 1) as nat) as int, s as int);
                lemma_div_decreases(num_skip_values as int, s as int);
            }
            num_skip_values = num_skip_values / s;
            if num_skip_values > 0 {
                proof {
                    if span(s as nat, (k + 2) as nat) > n {
                        lemma_basic_div(n as int, span(s as nat, (k + 2) as nat) as int);
                    }
                }
                level_length = level_length * s;
            }
        }
        let k = levels.len();
        let mut reversed: Vec<usize> = Vec::new();
        let mut hole: Vec<Option<usize>> = Vec::new();
        let mut j = k;
        while j > 0
            invariant
                self@ == m,
                s == m.skip_size,
                k == levels@.len(),
                k == m.levels(),
                forall|t: int| 0 <= t < k ==> levels@[t] == span(s as nat, (t + 1) as nat),
                j <= k,
                reversed@.len() == k - j,
                hole@.len() == k - j,
                forall|t: int| 0 <= t < reversed@.len() ==> reversed@[t] == m.skip_every(t as nat),
                forall|t: int| 0 <= t < hole@.len() ==> hole@[t] is None,
            decreases j,
        {
            j = j - 1;
            let ghost t = reversed@.len();
            reversed.push(levels[j]);
            hole.push(None);
            assert(reversed@[t as int] == m.skip_every(t as nat));
        }
        self.levels = reversed;
        hole
    }
}

/// The state of writing one skip list: a snapshot of the writer, and, for
/// each level, the position of the entry written last at that level, which
/// is the next sibling of the entry written next at that level.
///
/// Entries are written in reverse, since each entry points to its next
/// sibling in sequence; writing them in reverse avoids buffering the whole
/// skip list or seeking back to fill in sibling positions.
struct WriterImp<'a> {
    skips: &'a [Skip],
    skip_size: usize,
    levels: &'a [usize],
    min: u32,
    max: u32,
    next_sibling_hole: Vec<Option<usize>>,
}

impl Clone for Writer {
    fn clone(&self) -> (w: Writer)
        ensures
            w@ == self@,
    {
        proof {
            use_type_invariant(self);
        }
        let mut skips: Vec<Skip> = Vec::new();
        let mut i: usize = 0;
        while i < self.skips.len()
            invariant
                i <= self.skips@.len(),
                skips@ == self.skips@.take(i as int),
            decreases self.skips@.len() - i,
        {
            skips.push(self.skips[i]);
            assert(self.skips@.take(i + 1) =~= self.skips@.take(i as int).push(self.skips@[i as int]));
            i = i + 1;
        }
        assert(self.skips@.take(i as int) =~= self.skips@);
        Writer {
            skips,
            min: self.min,
            max: self.max,
            skip_size: self.skip_size,
            levels: Vec::new(),
        }
    }
}

impl<'a> WriterImp<'a> {
    spec fn model(&self) -> SkipModel {
        SkipModel { skips: skips_view(self.skips@), min: self.min, max: self.max, skip_size: self.skip_size }
    }

    spec fn wf(&self) -> bool {
        &&& self.model().writable()
        &&& self.levels@.len() == self.model().levels()
        &&& forall|l: int| 0 <= l < self.levels@.len() ==> self.levels@[l] == self.model().skip_every(l as nat)
        &&& self.next_sibling_hole@.len() == self.levels@.len()
    }

    /// Write this skip list to the given writer.
    #[verifier::spinoff_prover]
    fn write(&mut self, wtr: &mut WriteCursor) -> (r: Result<(), FormatError>)
        requires
            old(self).wf(),
            forall|l: int| 0 <= l < old(self).next_sibling_hole@.len() ==> old(self).next_sibling_hole@[l] is None,
        ensures
            ({
                let m = old(self).model();
                let base = old(wtr).position() as nat;
                &&& r is Ok <==> base + m.bytes(base).len() <= usize::MAX
                &&& r is Ok ==> final(wtr).buffer() == old(wtr).buffer() + m.bytes(base)
                    && final(wtr).position() == base + m.bytes(base).len()
                &&& r matches Err(e) ==> e.error_kind() is PositionOverflow
                    && is_partial_write(old(wtr).buffer(), final(wtr).buffer(), m.bytes(base))
            }),
    {
        let ghost m = self.model();
        let ghost base = wtr.position() as nat;
        let ghost buf0 = wtr.buffer();
        let n = self.skips.len();
        let num_levels = self.levels.len();
        proof {
            m.lemma_bytes_len(base);
        }
        // start marks the position at which the top-most skip entry is
        // encoded.
        let mut start: Option<usize> = if num_levels == 0 { Some(0) } else { None };
        let mut i = n;
        assert(m.rows_from(base, n as nat) =~= Seq::<u8>::empty());
        assert(buf0 + m.rows_from(base, n as nat) =~= buf0);
        while i > 0
            invariant
                self.wf(),
                self.model() == m,
                n == m.len(),
                num_levels == m.levels(),
                i <= n,
                wtr.buffer() == buf0 + m.rows_from(base, i as nat),
                wtr.position() == base + m.tail_len(i as nat),
                forall|l: int| 0 <= l < num_levels ==> self.next_sibling_hole@[l] == m.first_present_pos(base, i as nat, l as nat),
                start == if num_levels == 0 {
                    Some(0usize)
                } else if i == 0 {
                    Some(m.entry_pos(base, 0, 0) as usize)
                } else {
                    None::<usize>
                },
                m.bytes(base).len() == m.tail_len(0) + 24,
                base == old(wtr).position(),
                buf0 == old(wtr).buffer(),
                m == old(self).model(),
            decreases i,
        {
            i = i - 1;
            let mut level: usize = 0;
            assert(m.row_prefix(base, i as nat, 0) =~= Seq::<u8>::empty());
            assert(buf0 + m.rows_from(base, (i + 1) as nat) =~= buf0 + m.rows_from(base, (i + 1) as nat) + m.row_prefix(base, i as nat, 0));
            while level < num_levels
                invariant
                    self.wf(),
                    self.model() == m,
                    n == m.len(),
                    num_levels == m.levels(),
                    i < n,
                    level <= num_levels,
                    wtr.buffer() == buf0 + m.rows_from(base, (i + 1) as nat) + m.row_prefix(base, i as nat, level as nat),
                    wtr.position() == base + m.tail_len((i + 1) as nat) + m.row_prefix_len(i as nat, level as nat),
                    forall|l: int| 0 <= l < level ==> self.next_sibling_hole@[l] == m.first_present_pos(base, i as nat, l as nat),
                    forall|l: int| level <= l < num_levels ==> self.next_sibling_hole@[l] == m.first_present_pos(base, (i + 1) as nat, l as nat),
                    start == if num_levels == 0 {
                        Some(0usize)
                    } else if i == 0 && level > 0 {
                        Some(m.entry_pos(base, 0, 0) as usize)
                    } else {
                        None::<usize>
                    },
                    m.bytes(base).len() == m.tail_len(0) + 24,
                    base == old(wtr).position(),
                    buf0 == old(wtr).buffer(),
                    m == old(self).model(),
                decreases num_levels - level,
            {
                let skip_every = self.levels[level];
                proof {
                    m.lemma_skip_every(level as nat);
                }
                if i % skip_every == 0 {
                    assert(m.present(i as nat, level as nat));
                    if i == 0 && level == 0 {
                        start = Some(wtr.pos());
                        assert(m.row_prefix_len(0, 0) == 0);
                        assert(wtr.position() == m.entry_pos(base, 0, 0));
                        assert(start == Some(m.entry_pos(base, 0, 0) as usize));
                    }
                    let ghost hole_before = self.next_sibling_hole@;
                    let ghost pos_before = wtr.position();
                    let ghost buf_before = wtr.buffer();
                    assert(wtr.position() == m.entry_pos(base, i as nat, level as nat));
                    proof {
                        m.lemma_entry_within(base, i as nat, level as nat);
                        m.lemma_first_present_after(i as nat, level as nat);
                        if i + m.skip_every(level as nat) < m.len() {
                            m.lemma_sibling_before(base, i as nat, level as nat);
                        }
                        assert(match self.next_sibling_hole@[level as int] {
                            Some(q) => q as nat,
                            None => 0nat,
                        } == m.sibling(base, i as nat, level as nat));
                    }
                    let res = self.write_skip(wtr, i, level);
                    if let Err(e) = res {
                        assert(base + m.bytes(base).len() > usize::MAX);
                        proof {
                            m.lemma_failed_in_entry(base, i as nat, level as nat, buf0, buf_before, wtr.buffer());
                        }
                        return Err(e);
                    }
                    proof {
                        assert(self.next_sibling_hole@ == hole_before.update(level as int, Some(pos_before)));
                        assert forall|l: int| 0 <= l < num_levels implies #[trigger] self.next_sibling_hole@[l] == if l <= level {
                            m.first_present_pos(base, i as nat, l as nat)
                        } else {
                            m.first_present_pos(base, (i + 1) as nat, l as nat)
                        } by {
                            if l != level {
                            }
                        }
                    }
                    assert(level == 0 && i == 0 ==> start == Some(m.entry_pos(base, 0, 0) as usize));
                } else {
                    proof {
                        if i == 0 {
                            lemma_small_mod(0, skip_every as nat);
                        }
                    }
                    assert(!m.present(i as nat, level as nat));
                    assert(m.first_present_pos(base, i as nat, level as nat) == m.first_present_pos(base, (i + 1) as nat, level as nat));
                }
                assert(num_levels > 0);
                assert(level == 0 && i == 0 ==> start == Some(m.entry_pos(base, 0, 0) as usize));
                assert(m.row_prefix(base, i as nat, (level + 1) as nat) == m.row_prefix(base, i as nat, level as nat) + if m.present(i as nat, level as nat) {
                    m.entry_bytes(base, i as nat, level as nat)
                } else {
                    Seq::empty()
                });
                level = level + 1;
            }
            assert(m.rows_from(base, i as nat) == m.rows_from(base, (i + 1) as nat) + m.row_prefix(base, i as nat, num_levels as nat));
        }
        let start_pos = match start {
            Some(p) => p,
            None => 0,
        };
        proof {
            if num_levels > 0 {
                assert(n > 0) by {
                    if n == 0 {
                        assert((n as nat) / (m.skip_size as nat) == 0);
                    }
                }
                m.lemma_skip_every(0);
                assert(m.present(0, 0));
                m.lemma_entry_within(base, 0, 0);
            }
            assert(start_pos == m.start(base));
        }
        let ghost tl = m.tail_len(0) as int;
        proof {
            lemma_auto_spec_u32_to_from_le_bytes();
            lemma_auto_spec_u64_to_from_le_bytes();
            m.lemma_rows_from_len(base, 0);
        }
        let r1 = wtr.write_usize_le(start_pos).context("failed to write skip start".to_owned());
        if let Err(e) = r1 {
            assert(wtr.buffer() =~= buf0 + m.bytes(base).take(tl + 8));
            return Err(e);
        }
        let r2 = wtr.write_usize_le(num_levels).context("failed to write skip levels".to_owned());
        if let Err(e) = r2 {
            assert(wtr.buffer() =~= buf0 + m.bytes(base).take(tl + 16));
            return Err(e);
        }
        let r3 = wtr.write_u32_le(self.min).context("failed to write skip min".to_owned());
        if let Err(e) = r3 {
            assert(wtr.buffer() =~= buf0 + m.bytes(base).take(tl + 20));
            return Err(e);
        }
        let r4 = wtr.write_u32_le(self.max).context("failed to write skip min".to_owned());
        if let Err(e) = r4 {
            assert(wtr.buffer() =~= buf0 + m.bytes(base).take(tl + 24));
            return Err(e);
        }
        assert(wtr.buffer() =~= buf0 + m.bytes(base));
        Ok(())
    }

    /// Write a single skip entry (given by `skip_index`) at a particular
    /// `level`: its skip value, its offset on the last level, and the next
    /// sibling recorded for that level (`0` when none is). The position of
    /// the entry is then recorded as the next sibling of the level. The
    /// given skip index must be a multiple of the corresponding level's skip
    /// size.
    fn write_skip(&mut self, wtr: &mut WriteCursor, skip_index: usize, level: usize) -> (r: Result<(), FormatError>)
        requires
            old(self).wf(),
            level < old(self).levels@.len(),
            old(self).model().present(skip_index as nat, level as nat),
        ensures
            ({
                let m = old(self).model();
                let p = old(wtr).position();
                let sibling = match old(self).next_sibling_hole@[level as int] {
                    Some(q) => q as nat,
                    None => 0nat,
                };
                let eb = m.entry_bytes_with(skip_index as nat, level as nat, sibling);
                &&& r is Ok <==> p + m.entry_len(level as nat) <= usize::MAX
                &&& r is Ok ==> final(wtr).buffer() == old(wtr).buffer() + eb
                    && final(wtr).position() == p + m.entry_len(level as nat)
                    && final(self).next_sibling_hole@ == old(self).next_sibling_hole@.update(level as int, Some(p))
                    && final(self).model() == m
                    && final(self).wf()
                &&& r matches Err(e) ==> e.error_kind() is PositionOverflow
                    && is_partial_write(old(wtr).buffer(), final(wtr).buffer(), eb)
            }),
    {
        let ghost m = self.model();
        let entry_start = wtr.pos();
        let skip_value = self.skip_value(skip_index, level);
        let sibling = self.next_sibling(level);
        let ghost buf0 = wtr.buffer();
        let ghost eb = m.entry_bytes_with(skip_index as nat, level as nat, sibling as nat);
        proof {
            m.lemma_entry_bytes_with_len(skip_index as nat, level as nat, sibling as nat);
            lemma_auto_spec_u32_to_from_le_bytes();
            lemma_auto_spec_u64_to_from_le_bytes();
        }
        let r1 = wtr.write_u32_le(skip_value).context("failed to write skip value".to_owned());
        if let Err(e) = r1 {
            assert(wtr.buffer() =~= buf0 + eb.take(4));
            return Err(e);
        }
        // Only the last level actually associates skip values with offsets.
        if level == self.last_level() {
            let r2 = wtr.write_usize_le(self.skips[skip_index].offset).context(
                "failed to write last level skip offset".to_owned(),
            );
            if let Err(e) = r2 {
                assert(wtr.buffer() =~= buf0 + eb.take(12));
                return Err(e);
            }
        }
        let r3 = wtr.write_usize_le(sibling).context("failed to write next sibling offset".to_owned());
        assert(wtr.buffer() =~= buf0 + eb);
        if let Err(e) = r3 {
            assert(eb.take(eb.len() as int) =~= eb);
            return Err(e);
        }
        self.next_sibling_hole.set(level, Some(entry_start));
        Ok(())
    }

    /// Return the next sibling offset that has been recorded for the given
    /// level. If no sibling offset has been recorded, then `0` is returned.
    fn next_sibling(&self, level: usize) -> (p: usize)
        requires
            level < self.next_sibling_hole@.len(),
        ensures
            p == match self.next_sibling_hole@[level as int] {
                Some(q) => q,
                None => 0,
            },
    {
        match self.next_sibling_hole[level] {
            Some(q) => q,
            None => 0,
        }
    }

    /// Return the skip value for the given skip (`skip_index`) and `level`.
    ///
    /// The skip value corresponds to the maximum skip value in all children
    /// of this level. Readers will move to the next sibling in the same
    /// level when their value is greater than a particular skip value.
    fn skip_value(&self, skip_index: usize, level: usize) -> (v: u32)
        requires
            self.wf(),
            level < self.levels@.len(),
            skip_index < self.skips@.len(),
        ensures
            v == self.model().entry_value(skip_index as nat, level as nat),
    {
        proof {
            self.model().lemma_skip_every(level as nat);
        }
        let skip_every = self.skip_every(level);
        if skip_every >= self.skips.len() - skip_index {
            // There is no subsequent sibling at this level: this is the last
            // stop, so the target value is the maximum.
            self.max
        } else if level == self.last_level() {
            self.skips[skip_index].value
        } else {
            // Parent skips index the maximum value of their children, which
            // is the value of the last skip before the next sibling.
            let last_in_level = skip_index + skip_every - self.skip_size;
            if last_in_level < self.skips.len() {
                self.skips[last_in_level].value
            } else {
                self.max
            }
        }
    }

    /// Return the skip size for the given level: the number of skip values
    /// that traversing siblings at the given level skips.
    fn skip_every(&self, level: usize) -> (e: usize)
        requires
            self.wf(),
            level < self.levels@.len(),
        ensures
            e == self.model().skip_every(level as nat),
    {
        self.levels[level]
    }

    /// Return the last level in this skip list. It has no children, and
    /// associates skip values with offsets.
    fn last_level(&self) -> (l: usize)
        requires
            self.wf(),
            self.levels@.len() > 0,
        ensures
            l == self.model().levels() - 1,
    {
        self.levels.len() - 1
    }
}

} // verus!
