//! Disguising `$$` math delimiters as code span delimiters, and undoing it.
//!
//! A markdown parser would read the underscores and stars of LaTeX math as
//! emphasis markers. Before parsing, [`Replacer::replace`] therefore rewrites
//! each `$$` to a pair of backticks, which makes the parser treat the math as
//! an opaque code span, and records where it did so. Afterwards the
//! [`Replacer`] tells genuine code spans from disguised math and restores the
//! dollar signs in text that the parser hands back.

use core::ops::Range;
use vstd::prelude::*;
use vstd::utf8::*;

use crate::encoding::{lemma_ascii_update_keeps_utf8, string_from_utf8};

verus! {

/// The byte `$`.
pub const DOLLAR: u8 = 0x24;

/// The byte `` ` ``.
pub const TICK: u8 = 0x60;

/// The least length of a text in which delimiters are disguised: a shorter
/// text has no room for a non-empty math span `$$x$$`.
pub const MIN_MATH_TEXT: usize = 5;

/// Whether a math delimiter `$$` that is to be disguised starts at byte `i`
/// of `bytes`: two dollar signs with no backtick directly before or after.
pub open spec fn is_delimiter_at(bytes: Seq<u8>, i: int) -> bool {
    &&& 0 <= i
    &&& i + 1 < bytes.len()
    &&& bytes[i] == DOLLAR
    &&& bytes[i + 1] == DOLLAR
    &&& (i == 0 || bytes[i - 1] != TICK)
    &&& (i + 2 >= bytes.len() || bytes[i + 2] != TICK)
}

/// The bytes with the pair at `i` and `i + 1` set to `mark`.
pub open spec fn with_pair(bytes: Seq<u8>, i: int, mark: u8) -> Seq<u8> {
    bytes.update(i, mark).update(i + 1, mark)
}

/// The text after a scan that starts at offset `from` of `bytes`. The scan
/// goes from left to right and rewrites in place, so a delimiter is judged by
/// what the scan has made of the bytes before it.
pub open spec fn scan_text(bytes: Seq<u8>, from: nat) -> Seq<u8>
    decreases bytes.len() - from,
{
    if from + 1 >= bytes.len() {
        bytes
    } else if is_delimiter_at(bytes, from as int) {
        scan_text(with_pair(bytes, from as int, TICK), from + 1)
    } else {
        scan_text(bytes, from + 1)
    }
}

/// The offsets at which a scan that starts at offset `from` of `bytes`
/// disguises a delimiter, in increasing order.
pub open spec fn scan_offsets(bytes: Seq<u8>, from: nat) -> Seq<usize>
    decreases bytes.len() - from,
{
    if from + 1 >= bytes.len() {
        Seq::empty()
    } else if is_delimiter_at(bytes, from as int) {
        seq![from as usize] + scan_offsets(with_pair(bytes, from as int, TICK), from + 1)
    } else {
        scan_offsets(bytes, from + 1)
    }
}

/// The text with its math delimiters disguised.
pub open spec fn disguised(bytes: Seq<u8>) -> Seq<u8> {
    if bytes.len() >= MIN_MATH_TEXT {
        scan_text(bytes, 0)
    } else {
        bytes
    }
}

/// The characters of a text with its math delimiters disguised.
pub open spec fn disguised_text(text: Seq<char>) -> Seq<char> {
    decode_utf8(disguised(encode_utf8(text)))
}

/// The offsets at which `disguised` differs from the text, followed by the
/// length of the text as a sentinel.
pub open spec fn recorded(bytes: Seq<u8>) -> Seq<usize> {
    if bytes.len() >= MIN_MATH_TEXT {
        scan_offsets(bytes, 0).push(bytes.len() as usize)
    } else {
        seq![bytes.len() as usize]
    }
}

/// The number of bytes in the span from `start` to `end`, which is empty if
/// `end` lies before `start`.
pub open spec fn span_len(start: int, end: int) -> int {
    if start <= end {
        end - start
    } else {
        0
    }
}

/// Where a cursor that starts at the entry `from` of `offsets` comes to rest
/// when it looks for `pos`: at the first entry that is at least `pos`, or at
/// the last entry, the sentinel.
pub open spec fn seek_from(offsets: Seq<usize>, from: nat, pos: int) -> nat
    decreases offsets.len() - from,
{
    if from + 1 >= offsets.len() || offsets[from as int] >= pos {
        from
    } else {
        seek_from(offsets, from + 1, pos)
    }
}

/// Restores the delimiters of a fragment that covers the bytes from `start`
/// to `end` of the text, beginning with the entry `at` of `offsets`. The walk
/// ends at the sentinel or at the first entry whose two bytes do not both lie
/// before `end`. Gives the fragment and the entry at which the walk ended;
/// the fragment is `None` if that entry is in range but the fragment holds no
/// pair of backticks there.
pub open spec fn restore_from(
    offsets: Seq<usize>,
    at: nat,
    fragment: Seq<u8>,
    start: int,
    end: int,
) -> (Option<Seq<u8>>, nat)
    decreases offsets.len() - at,
{
    if at + 1 >= offsets.len() || offsets[at as int] + 1 >= end {
        (Some(fragment), at)
    } else {
        let local = offsets[at as int] - start;
        if fragment[local] == TICK && fragment[local + 1] == TICK {
            restore_from(offsets, at + 1, with_pair(fragment, local, DOLLAR), start, end)
        } else {
            (None, at)
        }
    }
}

/// What a [`Replacer`] stands for: the offsets of the disguised delimiters
/// and a cursor into them.
pub struct Table {
    /// Strictly increasing offsets; the last one is the sentinel, the length
    /// of the text.
    pub offsets: Seq<usize>,
    /// Index into `offsets` of the first entry that has not been passed yet.
    pub cursor: nat,
}

impl Table {
    /// The offsets increase strictly, end with a sentinel, and the cursor
    /// points at one of them.
    pub open spec fn wf(self) -> bool {
        &&& self.cursor < self.offsets.len()
        &&& forall|i: int, j: int|
            0 <= i < j < self.offsets.len() ==> self.offsets[i] < self.offsets[j]
    }

    /// The table of a text that has just been preprocessed.
    pub open spec fn of_text(bytes: Seq<u8>) -> Table {
        Table { offsets: recorded(bytes), cursor: 0 }
    }

    /// The offset under the cursor.
    pub open spec fn current(self) -> int {
        self.offsets[self.cursor as int] as int
    }

    /// The table after the cursor has looked for `pos`.
    pub open spec fn seek(self, pos: int) -> Table {
        Table { cursor: seek_from(self.offsets, self.cursor, pos), ..self }
    }

    /// Whether a delimiter was disguised at `pos`, as far as a cursor that
    /// only moves forward can tell.
    pub open spec fn is_point(self, pos: int) -> bool {
        self.seek(pos).current() == pos
    }

    /// Whether a fragment of `len` bytes can be matched with the span from
    /// `start` to `end` byte by byte. It cannot if the parser has changed the
    /// fragment's length.
    pub open spec fn correlates(len: int, start: int, end: int) -> bool {
        len == span_len(start, end)
    }

    /// The fragment with its delimiters restored, or `None` if the table and
    /// the fragment disagree. A fragment whose length differs from that of
    /// its span is left as it is.
    pub open spec fn restored(self, fragment: Seq<u8>, start: int, end: int) -> Option<Seq<u8>> {
        if Self::correlates(fragment.len() as int, start, end) {
            restore_from(self.offsets, self.seek(start).cursor, fragment, start, end).0
        } else {
            Some(fragment)
        }
    }

    /// The table after a fragment was restored.
    pub open spec fn after_restore(self, fragment: Seq<u8>, start: int, end: int) -> Table {
        if Self::correlates(fragment.len() as int, start, end) {
            Table {
                cursor: restore_from(self.offsets, self.seek(start).cursor, fragment, start, end).1,
                ..self
            }
        } else {
            self
        }
    }
}

/// Raised when the table names an offset inside a fragment at which the
/// fragment holds no pair of backticks: table and fragment do not belong to
/// the same text.
#[derive(Debug, Clone, Copy, PartialEq, Eq)]
pub struct MarkerMismatch {
    /// The offset in the text at which a pair of backticks was expected.
    pub offset: usize,
}

/// A fragment as it comes back from [`Replacer::un_replace`].
#[derive(Debug, Clone, PartialEq, Eq)]
pub struct Restored {
    /// The fragment, with the dollar signs back in their places.
    pub text: String,
    /// Whether the fragment could not be matched with its range, so that
    /// nothing was restored in it and math in it may come out wrongly.
    pub ambiguous: bool,
}

/// The places at which math delimiters were disguised in one text, with a
/// cursor that moves forward through them as the text is processed.
pub struct Replacer {
    positions: Vec<usize>,
    index: usize,
}

impl View for Replacer {
    type V = Table;

    closed spec fn view(&self) -> Table {
        Table { offsets: self.positions@, cursor: self.index as nat }
    }
}

/// A scan from `from` keeps the length and the bytes before `from`, and
/// records only offsets from `from` up to the last but one, in increasing
/// order.
pub proof fn lemma_scan(bytes: Seq<u8>, from: nat)
    requires
        bytes.len() <= usize::MAX,
    ensures
        scan_text(bytes, from).len() == bytes.len(),
        forall|j: int| 0 <= j < from && j < bytes.len() ==> scan_text(bytes, from)[j] == bytes[j],
        forall|k: int|
            0 <= k < scan_offsets(bytes, from).len() ==> from <= #[trigger] scan_offsets(
                bytes,
                from,
            )[k] && scan_offsets(bytes, from)[k] + 1 < bytes.len(),
        forall|k: int, l: int|
            0 <= k < l < scan_offsets(bytes, from).len() ==> scan_offsets(bytes, from)[k]
                < scan_offsets(bytes, from)[l],
    decreases bytes.len() - from,
{
    if from + 1 >= bytes.len() {
    } else if is_delimiter_at(bytes, from as int) {
        let next = with_pair(bytes, from as int, TICK);
        lemma_scan(next, from + 1);
        let rest = scan_offsets(next, from + 1);
        let all = scan_offsets(bytes, from);
        assert(all == seq![from as usize] + rest);
        assert forall|j: int| 0 <= j < from && j < bytes.len() implies scan_text(bytes, from)[j]
            == bytes[j] by {
            assert(scan_text(next, from + 1)[j] == next[j]);
        }
        assert forall|k: int| 0 <= k < all.len() implies from <= #[trigger] all[k] && all[k] + 1
            < bytes.len() by {
            if k > 0 {
                assert(all[k] == rest[k - 1]);
            }
        }
        assert forall|k: int, l: int| 0 <= k < l < all.len() implies all[k] < all[l] by {
            assert(all[l] == rest[l - 1]);
            if k > 0 {
                assert(all[k] == rest[k - 1]);
            }
        }
    } else {
        lemma_scan(bytes, from + 1);
        assert(scan_offsets(bytes, from) == scan_offsets(bytes, from + 1));
        assert forall|j: int| 0 <= j < from && j < bytes.len() implies scan_text(bytes, from)[j]
            == bytes[j] by {
            assert(scan_text(bytes, from + 1)[j] == bytes[j]);
        }
    }
}

/// The table of a freshly preprocessed text is well formed.
pub proof fn lemma_recorded_wf(bytes: Seq<u8>)
    requires
        bytes.len() <= usize::MAX,
    ensures
        Table::of_text(bytes).wf(),
        recorded(bytes).last() == bytes.len(),
        disguised(bytes).len() == bytes.len(),
{
    lemma_scan(bytes, 0);
}

/// Where a seeking cursor comes to rest: not before where it started, with
/// only smaller offsets passed, at the sentinel or at an offset that is at
/// least `pos`.
pub proof fn lemma_seek(table: Table, from: nat, pos: int)
    requires
        from < table.offsets.len(),
    ensures
        from <= seek_from(table.offsets, from, pos) < table.offsets.len(),
        forall|k: int| from <= k < seek_from(table.offsets, from, pos) ==> table.offsets[k] < pos,
        seek_from(table.offsets, from, pos) + 1 == table.offsets.len() || table.offsets[seek_from(
            table.offsets,
            from,
            pos,
        ) as int] >= pos,
    decreases table.offsets.len() - from,
{
    if !(from + 1 >= table.offsets.len() || table.offsets[from as int] >= pos) {
        lemma_seek(table, from + 1, pos);
    }
}

/// A restoring walk ends at or after the entry at which it began, and
/// inside the table.
pub proof fn lemma_restore_end(table: Table, at: nat, fragment: Seq<u8>, start: int, end: int)
    requires
        at < table.offsets.len(),
    ensures
        at <= restore_from(table.offsets, at, fragment, start, end).1 < table.offsets.len(),
    decreases table.offsets.len() - at,
{
    if !(at + 1 >= table.offsets.len() || table.offsets[at as int] + 1 >= end) {
        let local = table.offsets[at as int] - start;
        if fragment[local] == TICK && fragment[local + 1] == TICK {
            lemma_restore_end(table, at + 1, with_pair(fragment, local, DOLLAR), start, end);
        }
    }
}

/// The cursor never moves back: neither a question about a position nor the
/// restoring of a fragment returns to an entry that was passed.
pub proof fn lemma_cursor_moves_forward(
    table: Table,
    pos: int,
    fragment: Seq<u8>,
    start: int,
    end: int,
)
    requires
        table.wf(),
    ensures
        table.seek(pos).wf(),
        table.seek(pos).cursor >= table.cursor,
        table.after_restore(fragment, start, end).wf(),
        table.after_restore(fragment, start, end).cursor >= table.cursor,
{
    lemma_seek(table, table.cursor, pos);
    lemma_seek(table, table.cursor, start);
    lemma_restore_end(table, table.seek(start).cursor, fragment, start, end);
}

/// Looking for two positions in increasing order leaves the cursor where
/// looking for the second alone would: no entry is passed that the second
/// question needs.
pub proof fn lemma_seek_in_order(table: Table, first: int, second: int)
    requires
        table.wf(),
        first <= second,
    ensures
        table.seek(first).seek(second) == table.seek(second),
{
    lemma_seek_from_in_order(table, table.cursor, first, second);
}

proof fn lemma_seek_from_in_order(table: Table, from: nat, first: int, second: int)
    requires
        from < table.offsets.len(),
        first <= second,
    ensures
        seek_from(table.offsets, seek_from(table.offsets, from, first), second) == seek_from(
            table.offsets,
            from,
            second,
        ),
    decreases table.offsets.len() - from,
{
    if !(from + 1 >= table.offsets.len() || table.offsets[from as int] >= first) {
        lemma_seek_from_in_order(table, from + 1, first, second);
    }
}

/// As long as no entry before the cursor is `pos` or more, which holds of a
/// fresh table and stays true while positions are asked about in increasing
/// order, the answer for `pos` is exact: `pos` is a point if and only if the
/// table holds it.
pub proof fn lemma_point_iff_recorded(table: Table, pos: int)
    requires
        table.wf(),
        forall|k: int| 0 <= k < table.cursor ==> table.offsets[k] < pos,
    ensures
        table.is_point(pos) <==> exists|k: int|
            0 <= k < table.offsets.len() && table.offsets[k] == pos,
        forall|k: int| 0 <= k < table.seek(pos).cursor ==> table.offsets[k] < pos,
{
    lemma_seek(table, table.cursor, pos);
    let rest = table.seek(pos).cursor as int;
    if table.offsets[rest] != pos {
        assert forall|k: int| 0 <= k < table.offsets.len() implies table.offsets[k] != pos by {
            if k > rest {
                assert(table.offsets[rest] < table.offsets[k]);
            }
        }
    }
}

/// After a question about a position inside the text, a question about a
/// lower position is answered `false` and leaves the cursor where it is.
pub proof fn lemma_lower_position_is_no_point(table: Table, asked: int, pos: int)
    requires
        table.wf(),
        pos < asked <= table.offsets.last(),
    ensures
        !table.seek(asked).is_point(pos),
        table.seek(asked).seek(pos) == table.seek(asked),
{
    lemma_seek(table, table.cursor, asked);
    let rest = table.seek(asked).cursor as int;
    if rest + 1 < table.offsets.len() {
        assert(table.offsets[rest] >= asked);
    } else {
        assert(table.offsets[rest] == table.offsets.last());
    }
}

/// Whether `offsets` holds the offset `i`.
pub open spec fn holds(offsets: Seq<usize>, i: int) -> bool {
    exists|k: int| 0 <= k < offsets.len() && offsets[k] == i
}

/// What a scan does at an offset that it records: it finds two dollar signs
/// there and leaves two backticks, and the next offset that it records lies
/// behind them.
proof fn lemma_scan_pair(bytes: Seq<u8>, from: nat, k: int)
    requires
        bytes.len() <= usize::MAX,
        0 <= k < scan_offsets(bytes, from).len(),
    ensures
        from <= scan_offsets(bytes, from)[k],
        scan_offsets(bytes, from)[k] + 1 < bytes.len(),
        bytes[scan_offsets(bytes, from)[k] as int] == DOLLAR,
        bytes[scan_offsets(bytes, from)[k] + 1] == DOLLAR,
        scan_text(bytes, from)[scan_offsets(bytes, from)[k] as int] == TICK,
        scan_text(bytes, from)[scan_offsets(bytes, from)[k] + 1] == TICK,
        k + 1 < scan_offsets(bytes, from).len() ==> scan_offsets(bytes, from)[k] + 1
            < scan_offsets(bytes, from)[k + 1],
    decreases bytes.len() - from,
{
    let f = from as int;
    if from + 1 >= bytes.len() {
    } else if is_delimiter_at(bytes, f) {
        let next = with_pair(bytes, f, TICK);
        let rest = scan_offsets(next, from + 1);
        let all = scan_offsets(bytes, from);
        assert(all == seq![from as usize] + rest);
        assert(!is_delimiter_at(next, f + 1));
        assert(scan_text(bytes, from) == scan_text(next, from + 1));
        if from + 2 < bytes.len() {
            assert(rest == scan_offsets(next, from + 2));
            assert(scan_text(next, from + 1) == scan_text(next, from + 2));
        } else {
            assert(scan_text(next, from + 1) == next);
        }
        lemma_scan(next, from + 2);
        if k == 0 {
            if from + 2 < bytes.len() {
                assert(scan_text(next, from + 2)[f] == next[f]);
                assert(scan_text(next, from + 2)[f + 1] == next[f + 1]);
            }
            if 1 < all.len() {
                assert(all[1] == rest[0]);
            }
        } else {
            lemma_scan_pair(next, from + 1, k - 1);
            assert(all[k] == rest[k - 1]);
            let p = rest[k - 1] as int;
            assert(next[p] == DOLLAR && next[p + 1] == DOLLAR);
            assert(p != f && p != f + 1 && p + 1 != f + 1);
            if k + 1 < all.len() {
                assert(all[k + 1] == rest[k]);
            }
        }
    } else {
        assert(scan_offsets(bytes, from) == scan_offsets(bytes, from + 1));
        lemma_scan_pair(bytes, from + 1, k);
    }
}

/// A scan leaves a byte as it is unless it records the offset of the byte
/// or the offset before it.
proof fn lemma_scan_keeps(bytes: Seq<u8>, from: nat, j: int)
    requires
        bytes.len() <= usize::MAX,
        0 <= j < bytes.len(),
        !holds(scan_offsets(bytes, from), j),
        !holds(scan_offsets(bytes, from), j - 1),
    ensures
        scan_text(bytes, from)[j] == bytes[j],
    decreases bytes.len() - from,
{
    let f = from as int;
    if from + 1 >= bytes.len() {
    } else if is_delimiter_at(bytes, f) {
        let next = with_pair(bytes, f, TICK);
        let rest = scan_offsets(next, from + 1);
        let all = scan_offsets(bytes, from);
        assert(all == seq![from as usize] + rest);
        assert(all[0] == f);
        assert(j != f && j - 1 != f);
        assert forall|i: int| i == j || i == j - 1 implies !holds(rest, i) by {
            if holds(rest, i) {
                let k = choose|k: int| 0 <= k < rest.len() && rest[k] == i;
                assert(all[k + 1] == i);
            }
        }
        lemma_scan_keeps(next, from + 1, j);
    } else {
        assert(scan_offsets(bytes, from) == scan_offsets(bytes, from + 1));
        lemma_scan_keeps(bytes, from + 1, j);
    }
}

/// A restoring walk over a piece of the preprocessed text gives back the
/// piece of the text: the walk begins at the entry `at`, the bytes before
/// the offset of that entry are restored already, and no delimiter was
/// disguised across the end of the piece.
proof fn lemma_restore_piece(bytes: Seq<u8>, at: nat, fragment: Seq<u8>, start: int, end: int)
    requires
        MIN_MATH_TEXT <= bytes.len() <= usize::MAX,
        0 <= start <= end <= bytes.len(),
        fragment.len() == end - start,
        at < recorded(bytes).len(),
        at + 1 == recorded(bytes).len() || recorded(bytes)[at as int] >= start,
        !holds(recorded(bytes), end - 1),
        forall|i: int|
            0 <= i < fragment.len() ==> #[trigger] fragment[i] == (if start + i < recorded(
                bytes,
            )[at as int] {
                bytes[start + i]
            } else {
                disguised(bytes)[start + i]
            }),
    ensures
        restore_from(recorded(bytes), at, fragment, start, end).0 == Some(
            bytes.subrange(start, end),
        ),
    decreases recorded(bytes).len() - at,
{
    let offsets = recorded(bytes);
    let found = scan_offsets(bytes, 0);
    let a = at as int;
    lemma_scan(bytes, 0);
    lemma_recorded_wf(bytes);
    assert(forall|k: int| 0 <= k < found.len() ==> offsets[k] == found[k]);
    if at + 1 >= offsets.len() || offsets[a] + 1 >= end {
        if at + 1 < offsets.len() {
            if offsets[a] == end - 1 {
                assert(holds(offsets, end - 1));
            }
        }
        assert(fragment =~= bytes.subrange(start, end));
    } else {
        let p = offsets[a] as int;
        let local = p - start;
        lemma_scan_pair(bytes, 0, a);
        assert(fragment[local] == disguised(bytes)[start + local]);
        assert(fragment[local + 1] == disguised(bytes)[start + (local + 1)]);
        let next = with_pair(fragment, local, DOLLAR);
        assert(offsets[a] < offsets[a + 1]);
        assert(p + 1 < offsets[a + 1]) by {
            if a + 1 < found.len() {
                assert(offsets[a + 1] == found[a + 1]);
            }
        }
        assert forall|i: int| 0 <= i < next.len() implies #[trigger] next[i] == (if start + i
            < offsets[a + 1] {
            bytes[start + i]
        } else {
            disguised(bytes)[start + i]
        }) by {
            let j = start + i;
            if i == local || i == local + 1 {
            } else {
                assert(next[i] == fragment[i]);
                if p + 1 < j < offsets[a + 1] {
                    assert forall|g: int| g == j || g == j - 1 implies !holds(found, g) by {
                        if holds(found, g) {
                            let k = choose|k: int| 0 <= k < found.len() && found[k] == g;
                            if k <= a {
                                if k < a {
                                    assert(offsets[k] < offsets[a]);
                                }
                            } else {
                                if a + 1 < k {
                                    assert(offsets[a + 1] < offsets[k]);
                                }
                            }
                        }
                    }
                    lemma_scan_keeps(bytes, 0, j);
                }
            }
        }
        lemma_restore_piece(bytes, at + 1, next, start, end);
    }
}

/// Restoring a piece of the preprocessed text gives back the piece of the
/// text, whatever the text is and wherever the piece lies in it, if the
/// cursor has not gone beyond the piece and no delimiter was disguised
/// across one of its ends.
pub proof fn lemma_round_trip_of_a_piece(bytes: Seq<u8>, cursor: nat, start: int, end: int)
    requires
        bytes.len() <= usize::MAX,
        0 <= start <= end <= bytes.len(),
        cursor < recorded(bytes).len(),
        forall|k: int| 0 <= k < cursor ==> recorded(bytes)[k] < start,
        !holds(recorded(bytes), start - 1),
        !holds(recorded(bytes), end - 1),
    ensures
        (Table { offsets: recorded(bytes), cursor }).restored(
            disguised(bytes).subrange(start, end),
            start,
            end,
        ) == Some(bytes.subrange(start, end)),
{
    let offsets = recorded(bytes);
    let table = Table { offsets, cursor };
    let fragment = disguised(bytes).subrange(start, end);
    lemma_recorded_wf(bytes);
    lemma_seek(table, cursor, start);
    let at = seek_from(offsets, cursor, start);
    if bytes.len() >= MIN_MATH_TEXT {
        let found = scan_offsets(bytes, 0);
        assert(forall|k: int| 0 <= k < found.len() ==> offsets[k] == found[k]);
        assert forall|i: int| 0 <= i < fragment.len() implies #[trigger] fragment[i] == (if start
            + i < offsets[at as int] {
            bytes[start + i]
        } else {
            disguised(bytes)[start + i]
        }) by {
            let j = start + i;
            if j < offsets[at as int] {
                assert forall|g: int| g == j || g == j - 1 implies !holds(found, g) by {
                    if holds(found, g) {
                        let k = choose|k: int| 0 <= k < found.len() && found[k] == g;
                        if k < at {
                            assert(offsets[k] < start);
                            if offsets[k] == start - 1 {
                                assert(holds(offsets, start - 1));
                            }
                        } else if at < k {
                            assert(offsets[at as int] < offsets[k]);
                        }
                    }
                }
                lemma_scan_keeps(bytes, 0, j);
            }
        }
        lemma_restore_piece(bytes, at, fragment, start, end);
    } else {
        assert(fragment =~= bytes.subrange(start, end));
    }
}

/// Restoring the whole preprocessed text with its fresh table gives the text
/// back, whatever the text is.
pub proof fn lemma_round_trip(bytes: Seq<u8>)
    requires
        bytes.len() <= usize::MAX,
    ensures
        Table::of_text(bytes).restored(disguised(bytes), 0, bytes.len() as int) == Some(bytes),
{
    let len = bytes.len() as int;
    let offsets = recorded(bytes);
    lemma_recorded_wf(bytes);
    lemma_scan(bytes, 0);
    assert(!holds(offsets, len - 1)) by {
        if holds(offsets, len - 1) {
            let k = choose|k: int| 0 <= k < offsets.len() && offsets[k] == len - 1;
            if k + 1 < offsets.len() {
                assert(offsets[k] == scan_offsets(bytes, 0)[k]);
            }
        }
    }
    lemma_round_trip_of_a_piece(bytes, 0, 0, len);
    assert(disguised(bytes).subrange(0, len) =~= disguised(bytes));
    assert(bytes.subrange(0, len) =~= bytes);
}

/// Whether two dollar signs stand at the offsets `i` and `i + 1`.
pub open spec fn is_dollar_pair(bytes: Seq<u8>, i: int) -> bool {
    0 <= i && i + 1 < bytes.len() && bytes[i] == DOLLAR && bytes[i + 1] == DOLLAR
}

/// Whether every `$$` of the text stands alone, with neither a backtick nor
/// a third dollar sign directly before or after it.
pub open spec fn delimiters_stand_alone(bytes: Seq<u8>) -> bool {
    forall|i: int| #[trigger]
        is_dollar_pair(bytes, i) ==> (i == 0 || (bytes[i - 1] != TICK && bytes[i - 1] != DOLLAR))
            && (i + 2 >= bytes.len() || (bytes[i + 2] != TICK && bytes[i + 2] != DOLLAR))
}

/// The number of `$$` that start at an offset below `n`.
pub open spec fn count_pairs(bytes: Seq<u8>, n: nat) -> nat
    decreases n,
{
    if n == 0 {
        0
    } else if is_dollar_pair(bytes, n - 1) {
        count_pairs(bytes, (n - 1) as nat) + 1
    } else {
        count_pairs(bytes, (n - 1) as nat)
    }
}

/// Whether the `$$` of the text come in pairs, an opening and a closing one.
pub open spec fn well_paired(bytes: Seq<u8>) -> bool {
    count_pairs(bytes, bytes.len()) % 2 == 0
}

/// The text with a backtick over each dollar sign of a `$$` that starts at
/// an offset below `n`.
pub open spec fn masked(bytes: Seq<u8>, n: int) -> Seq<u8> {
    Seq::new(
        bytes.len(),
        |j: int|
            if (is_dollar_pair(bytes, j) && j < n) || (is_dollar_pair(bytes, j - 1) && j - 1 < n) {
                TICK
            } else {
                bytes[j]
            },
    )
}

proof fn lemma_count_pairs(bytes: Seq<u8>, n: nat)
    ensures
        count_pairs(bytes, n) == 0 ==> forall|i: int| 0 <= i < n ==> !is_dollar_pair(bytes, i),
        count_pairs(bytes, n) >= 2 ==> exists|i: int, j: int|
            0 <= i < j < n && is_dollar_pair(bytes, i) && is_dollar_pair(bytes, j),
        count_pairs(bytes, n) == 1 ==> exists|i: int| 0 <= i < n && is_dollar_pair(bytes, i),
    decreases n,
{
    if n > 0 {
        lemma_count_pairs(bytes, (n - 1) as nat);
        if is_dollar_pair(bytes, n - 1) {
            if count_pairs(bytes, (n - 1) as nat) >= 1 {
                let i = choose|i: int| 0 <= i < n - 1 && is_dollar_pair(bytes, i);
                assert(0 <= i < n - 1 < n && is_dollar_pair(bytes, i) && is_dollar_pair(
                    bytes,
                    n - 1,
                ));
            }
        }
    }
}

proof fn lemma_scan_of_masked(bytes: Seq<u8>, from: nat)
    requires
        bytes.len() <= usize::MAX,
        delimiters_stand_alone(bytes),
    ensures
        scan_text(masked(bytes, from as int), from) == masked(bytes, bytes.len() as int),
        forall|i: int| #[trigger]
            holds(scan_offsets(masked(bytes, from as int), from), i) ==> from <= i
                && is_dollar_pair(bytes, i),
        forall|i: int|
            from <= i && #[trigger] is_dollar_pair(bytes, i) ==> holds(
                scan_offsets(masked(bytes, from as int), from),
                i,
            ),
        scan_offsets(masked(bytes, from as int), from).len() + count_pairs(bytes, from)
            == count_pairs(bytes, bytes.len()) || from > bytes.len(),
    decreases bytes.len() - from,
{
    let f = from as int;
    let here = masked(bytes, from as int);
    let end = masked(bytes, bytes.len() as int);
    if from + 1 >= bytes.len() {
        assert(here =~= end);
        if from < bytes.len() {
            assert(count_pairs(bytes, bytes.len()) == count_pairs(bytes, from)) by {
                assert(!is_dollar_pair(bytes, bytes.len() - 1));
            }
        }
    } else {
        let pair = is_dollar_pair(bytes, from as int);
        if from > 0 {
            assert(is_dollar_pair(bytes, from - 1) ==> bytes[from as int] == DOLLAR);
            assert(is_dollar_pair(bytes, from - 2) ==> bytes[from - 1] == DOLLAR);
        }
        assert(is_dollar_pair(bytes, f + 1) ==> bytes[f + 1] == DOLLAR);
        assert(is_delimiter_at(here, from as int) == pair);
        let next = masked(bytes, f + 1);
        if pair {
            assert(with_pair(here, from as int, TICK) =~= next);
        } else {
            assert(here =~= next);
        }
        lemma_scan_of_masked(bytes, from + 1);
        assert(masked(bytes, (from + 1) as int) == next);
        let rest = scan_offsets(next, from + 1);
        let all = scan_offsets(here, from);
        assert(count_pairs(bytes, from + 1) == count_pairs(bytes, from) + if pair {
            1nat
        } else {
            0nat
        });
        assert forall|i: int| holds(all, i) implies from <= i && is_dollar_pair(bytes, i) by {
            let k = choose|k: int| 0 <= k < all.len() && all[k] == i;
            assert(0 <= k < all.len() && all[k] == i);
            if pair {
                assert(all == seq![from as usize] + rest);
                if k > 0 {
                    assert(rest[k - 1] == i);
                    assert(holds(rest, i));
                    assert(from <= i && is_dollar_pair(bytes, i));
                } else {
                    assert(all[0] == from);
                    assert(i == from);
                }
            } else {
                assert(all == rest);
                assert(holds(rest, i));
                assert(from + 1 <= i && is_dollar_pair(bytes, i));
            }
        }
        assert forall|i: int| from <= i && is_dollar_pair(bytes, i) implies holds(all, i) by {
            if pair {
                assert(all == seq![from as usize] + rest);
                if i == from {
                    assert(all[0] == i);
                } else {
                    assert(holds(rest, i));
                    let k = choose|k: int| 0 <= k < rest.len() && rest[k] == i;
                    assert(all[k + 1] == i);
                }
            } else {
                assert(all == rest);
                assert(holds(rest, i));
            }
        }
    }
}

/// In a text whose `$$` stand alone and come in pairs, preprocessing
/// disguises exactly the `$$`: the table lists their offsets and nothing else
/// before the sentinel, and the text changes at their bytes only, which then
/// hold backticks.
pub proof fn lemma_disguises_exactly_the_delimiters(bytes: Seq<u8>)
    requires
        bytes.len() <= usize::MAX,
        delimiters_stand_alone(bytes),
        well_paired(bytes),
    ensures
        forall|i: int|
            0 <= i < bytes.len() ==> (#[trigger] holds(recorded(bytes), i) <==> is_dollar_pair(
                bytes,
                i,
            )),
        recorded(bytes).len() == count_pairs(bytes, bytes.len()) + 1,
        disguised(bytes) == masked(bytes, bytes.len() as int),
        forall|j: int|
            0 <= j < bytes.len() ==> (#[trigger] disguised(bytes)[j] != bytes[j]
                <==> is_dollar_pair(bytes, j) || is_dollar_pair(bytes, j - 1)),
{
    let len = bytes.len();
    let count = count_pairs(bytes, len);
    let table = recorded(bytes);
    lemma_count_pairs(bytes, len);
    assert(masked(bytes, 0) =~= bytes);
    lemma_scan(bytes, 0);
    if len >= MIN_MATH_TEXT {
        lemma_scan_of_masked(bytes, 0);
        let offsets = scan_offsets(bytes, 0);
        assert forall|i: int| 0 <= i < len implies (holds(table, i) <==> is_dollar_pair(
            bytes,
            i,
        )) by {
            if holds(table, i) {
                let k = choose|k: int| 0 <= k < table.len() && table[k] == i;
                assert(offsets[k] == i);
                assert(holds(offsets, i));
            }
            if is_dollar_pair(bytes, i) {
                assert(holds(offsets, i));
                let k = choose|k: int| 0 <= k < offsets.len() && offsets[k] == i;
                assert(table[k] == i);
            }
        }
    } else {
        if count >= 2 {
            let (i, j) = choose|i: int, j: int|
                0 <= i < j < len && is_dollar_pair(bytes, i) && is_dollar_pair(bytes, j);
            assert(bytes[i + 1] == DOLLAR && bytes[i + 2] != DOLLAR);
            assert(j >= i + 3);
        }
        assert(count == 0);
        assert(masked(bytes, len as int) =~= bytes);
        assert forall|i: int| 0 <= i < len implies (holds(table, i) <==> is_dollar_pair(
            bytes,
            i,
        )) by {
            if holds(table, i) {
                let k = choose|k: int| 0 <= k < table.len() && table[k] == i;
            }
        }
    }
}

/// Disguises the delimiters in a buffer of bytes and reports where.
fn disguise(bytes: &mut Vec<u8>) -> (positions: Vec<usize>)
    requires
        valid_utf8(old(bytes)@),
    ensures
        final(bytes)@ == disguised(old(bytes)@),
        positions@ == recorded(old(bytes)@),
        valid_utf8(final(bytes)@),
{
    let mut positions: Vec<usize> = Vec::new();
    let n = bytes.len();
    if n >= MIN_MATH_TEXT {
        let mut i: usize = 0;
        while i < n - 1
            invariant
                n == bytes@.len(),
                n >= MIN_MATH_TEXT,
                i <= n - 1,
                scan_text(bytes@, i as nat) == scan_text(old(bytes)@, 0),
                positions@ + scan_offsets(bytes@, i as nat) == scan_offsets(old(bytes)@, 0),
                valid_utf8(bytes@),
            decreases n - i,
        {
            if bytes[i] == DOLLAR && bytes[i + 1] == DOLLAR && (i == 0 || bytes[i - 1] != TICK) && (
            i + 2 >= n || bytes[i + 2] != TICK) {
                proof {
                    lemma_ascii_update_keeps_utf8(bytes@, i as int, TICK);
                    lemma_ascii_update_keeps_utf8(bytes@.update(i as int, TICK), i + 1, TICK);
                    let next = with_pair(bytes@, i as int, TICK);
                    assert(positions@.push(i) + scan_offsets(next, (i + 1) as nat) =~= positions@
                        + scan_offsets(bytes@, i as nat));
                }
                positions.push(i);
                bytes.set(i, TICK);
                bytes.set(i + 1, TICK);
            }
            i += 1;
        }
        assert(positions@ + Seq::<usize>::empty() =~= positions@);
    }
    positions.push(n);
    positions
}

impl Replacer {
    /// The table of a replacer is well formed.
    #[verifier::type_invariant]
    pub open spec fn well_formed(&self) -> bool {
        self@.wf()
    }

    /// Rewrites every math delimiter `$$` in `input` to a pair of backticks
    /// and remembers where.
    ///
    /// The text is scanned byte by byte from left to right. A pair of dollar
    /// signs is left alone if a backtick stands directly before or after it,
    /// the backticks of a delimiter rewritten just before included. A text of
    /// less than five bytes is left as it is.
    pub fn replace(input: &mut String) -> (replacer: Replacer)
        ensures
            encode_utf8(final(input)@) == disguised(encode_utf8(old(input)@)),
            final(input)@ == disguised_text(old(input)@),
            replacer@ == Table::of_text(encode_utf8(old(input)@)),
            replacer@.wf(),
    {
        let mut bytes = input.as_str().as_bytes_vec();
        proof {
            encode_utf8_valid_utf8(input@);
            assert(bytes@.len() == bytes.len());
            lemma_recorded_wf(bytes@);
        }
        let positions = disguise(&mut bytes);
        match string_from_utf8(bytes) {
            Some(text) => {
                proof {
                    encode_utf8_decode_utf8(text@);
                }
                *input = text;
            },
            None => unreached(),
        }
        Replacer { positions, index: 0 }
    }

    /// Moves the cursor to the first remembered offset that is at least
    /// `pos`, or to the sentinel if there is none, and returns that offset.
    fn skip_smaller_than(&mut self, pos: usize) -> (offset: usize)
        ensures
            final(self)@ == old(self)@.seek(pos as int),
            final(self)@.wf(),
            offset == final(self)@.current(),
    {
        proof {
            use_type_invariant(&*self);
        }
        let ghost table = self@;
        let mut i = self.index;
        while i < self.positions.len() - 1 && self.positions[i] < pos
            invariant
                self@ == table,
                table.wf(),
                table.cursor <= i < table.offsets.len(),
                seek_from(table.offsets, table.cursor, pos as int) == seek_from(
                    table.offsets,
                    i as nat,
                    pos as int,
                ),
            decreases table.offsets.len() - i,
        {
            i += 1;
        }
        self.index = i;
        self.positions[i]
    }

    /// Tells whether a `$$` was rewritten at the bytes `pos` and `pos + 1` of
    /// the text.
    ///
    /// The cursor passes all remembered offsets below `pos` and never goes
    /// back, so that a whole text is processed in linear time: ask with
    /// positions that do not decrease. A position below one asked about
    /// before gets the answer `false`.
    pub fn check_if_replacement_point(&mut self, pos: usize) -> (found: bool)
        ensures
            final(self)@ == old(self)@.seek(pos as int),
            final(self)@.wf(),
            found == old(self)@.is_point(pos as int),
    {
        self.skip_smaller_than(pos) == pos
    }

    /// Restores the dollar signs in `s`, a piece of the preprocessed text
    /// that covers the bytes of `range`.
    ///
    /// If `s` is not as long as `range`, the parser has changed it and
    /// offsets no longer match: `s` comes back as it is, marked as
    /// ambiguous, and the cursor stays. Otherwise the cursor passes every
    /// remembered offset below the end of the range, and at each one inside
    /// the range the pair of backticks becomes a pair of dollar signs again.
    /// Fails if `s` holds something else than two backticks at such an
    /// offset.
    pub fn un_replace(&mut self, s: String, range: Range<usize>) -> (restored: Result<
        Restored,
        MarkerMismatch,
    >)
        ensures
            final(self)@ == old(self)@.after_restore(
                encode_utf8(s@),
                range.start as int,
                range.end as int,
            ),
            final(self)@.wf(),
            match old(self)@.restored(encode_utf8(s@), range.start as int, range.end as int) {
                Some(bytes) => restored is Ok && encode_utf8(restored->Ok_0.text@) == bytes
                    && restored->Ok_0.ambiguous == !Table::correlates(
                    encode_utf8(s@).len() as int,
                    range.start as int,
                    range.end as int,
                ),
                None => restored == Err::<Restored, MarkerMismatch>(
                    MarkerMismatch { offset: final(self)@.current() as usize },
                ),
            },
    {
        proof {
            use_type_invariant(&*self);
        }
        let mut bytes = s.as_str().as_bytes_vec();
        let span = if range.start <= range.end {
            range.end - range.start
        } else {
            0
        };
        if bytes.len() != span {
            return Ok(Restored { text: s, ambiguous: true });
        }
        let ghost table = self@;
        let ghost first = table.seek(range.start as int).cursor;
        let mut pos = self.skip_smaller_than(range.start);
        proof {
            encode_utf8_valid_utf8(s@);
            lemma_seek(table, table.cursor, range.start as int);
        }
        while self.index < self.positions.len() - 1 && range.end >= 2 && pos < range.end - 1
            invariant
                table == old(self)@,
                table.wf(),
                first == table.seek(range.start as int).cursor,
                Table::correlates(
                    encode_utf8(s@).len() as int,
                    range.start as int,
                    range.end as int,
                ),
                self@.offsets == table.offsets,
                self@.wf(),
                pos == self@.current(),
                first <= self@.cursor,
                self@.cursor + 1 < table.offsets.len() ==> range.start <= pos,
                bytes@.len() == span_len(range.start as int, range.end as int),
                valid_utf8(bytes@),
                restore_from(
                    table.offsets,
                    first,
                    encode_utf8(s@),
                    range.start as int,
                    range.end as int,
                ) == restore_from(
                    table.offsets,
                    self@.cursor,
                    bytes@,
                    range.start as int,
                    range.end as int,
                ),
            decreases table.offsets.len() - self@.cursor,
        {
            let local = pos - range.start;
            if bytes[local] != TICK || bytes[local + 1] != TICK {
                return Err(MarkerMismatch { offset: pos });
            }
            proof {
                lemma_ascii_update_keeps_utf8(bytes@, local as int, DOLLAR);
                lemma_ascii_update_keeps_utf8(
                    bytes@.update(local as int, DOLLAR),
                    local + 1,
                    DOLLAR,
                );
            }
            bytes.set(local, DOLLAR);
            bytes.set(local + 1, DOLLAR);
            self.index += 1;
            pos = self.positions[self.index];
        }
        match string_from_utf8(bytes) {
            Some(text) => Ok(Restored { text, ambiguous: false }),
            None => unreached(),
        }
    }
}

} // verus!
