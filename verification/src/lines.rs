//! Lines of a byte buffer: maximal runs of bytes other than the newline.

use vstd::prelude::*;

verus! {

/// The byte that separates records.
pub const NEWLINE: u8 = 10;

/// A non-empty line together with the offset of its first byte.
pub struct Line {
    pub offset: int,
    pub text: Seq<u8>,
}

/// The index of the first newline of `s` at or after `from`, or the length of
/// `s` when there is none.
pub open spec fn line_end(s: Seq<u8>, from: int) -> int
    decreases s.len() - from,
{
    if from >= s.len() {
        s.len() as int
    } else if s[from] == NEWLINE {
        from
    } else {
        line_end(s, from + 1)
    }
}

/// The non-empty lines of `s` that start at or after `from`, in file order.
/// A line that starts at index `i` of `s` is given the offset `base + i`.
pub open spec fn lines_from(s: Seq<u8>, from: int, base: int) -> Seq<Line>
    decreases s.len() - from,
{
    if from < 0 || from >= s.len() {
        Seq::empty()
    } else {
        let end = line_end(s, from);
        if end == from {
            lines_from(s, from + 1, base)
        } else if from < end < s.len() {
            seq![Line { offset: base + from, text: s.subrange(from, end) }] + lines_from(
                s,
                end + 1,
                base,
            )
        } else {
            seq![Line { offset: base + from, text: s.subrange(from, s.len() as int) }]
        }
    }
}

/// The non-empty lines of `s`, the first byte of `s` being at offset `base`.
pub open spec fn lines(s: Seq<u8>, base: int) -> Seq<Line> {
    lines_from(s, 0, base)
}

/// `[start, end)` is a line of `s`: a non-empty run without a newline that
/// cannot be extended on either side.
pub open spec fn is_line(s: Seq<u8>, start: int, end: int) -> bool {
    &&& 0 <= start < end <= s.len()
    &&& forall|k: int| start <= k < end ==> s[k] != NEWLINE
    &&& (start == 0 || s[start - 1] == NEWLINE)
    &&& (end == s.len() || s[end] == NEWLINE)
}

/// `line_end` stops at the first newline and skips nothing else.
pub proof fn lemma_line_end(s: Seq<u8>, from: int)
    requires
        0 <= from <= s.len(),
    ensures
        from <= line_end(s, from) <= s.len(),
        forall|k: int| from <= k < line_end(s, from) ==> s[k] != NEWLINE,
        line_end(s, from) < s.len() ==> s[line_end(s, from)] == NEWLINE,
    decreases s.len() - from,
{
    if from < s.len() && s[from] != NEWLINE {
        lemma_line_end(s, from + 1);
    }
}

/// Any index that is followed only by ordinary bytes up to a newline, or up to
/// the end, is where `line_end` stops.
pub proof fn lemma_line_end_is(s: Seq<u8>, from: int, end: int)
    requires
        0 <= from <= end <= s.len(),
        forall|k: int| from <= k < end ==> s[k] != NEWLINE,
        end == s.len() || s[end] == NEWLINE,
    ensures
        line_end(s, from) == end,
    decreases end - from,
{
    if from < end {
        lemma_line_end_is(s, from + 1, end);
    }
}

/// `line` is a line of `s`, byte for byte, when the first byte of `s` has the
/// offset `base`.
pub open spec fn is_line_of(s: Seq<u8>, base: int, line: Line) -> bool {
    let start = line.offset - base;
    let end = start + line.text.len();
    is_line(s, start, end) && line.text == s.subrange(start, end)
}

/// `from` is where a line may start: the beginning, or just after a newline.
pub open spec fn at_line_start(s: Seq<u8>, from: int) -> bool {
    0 <= from <= s.len() && (from == 0 || s[from - 1] == NEWLINE)
}

/// Nothing is made up: every line listed is a line of `s`, found at its
/// offset, and the lines are listed in the order in which they stand.
pub proof fn lemma_lines_sound(s: Seq<u8>, from: int, base: int)
    requires
        at_line_start(s, from),
    ensures
        forall|i: int|
            0 <= i < lines_from(s, from, base).len() ==> {
                &&& is_line_of(s, base, #[trigger] lines_from(s, from, base)[i])
                &&& from <= lines_from(s, from, base)[i].offset - base
            },
        forall|i: int, j: int|
            0 <= i < j < lines_from(s, from, base).len() ==> (#[trigger] lines_from(
                s,
                from,
                base,
            )[i]).offset < (#[trigger] lines_from(s, from, base)[j]).offset,
    decreases s.len() - from,
{
    if from < s.len() {
        let end = line_end(s, from);
        lemma_line_end(s, from);
        if end == from {
            lemma_lines_sound(s, from + 1, base);
        } else if end < s.len() {
            let line = Line { offset: base + from, text: s.subrange(from, end) };
            let rest = lines_from(s, end + 1, base);
            lemma_lines_sound(s, end + 1, base);
            let all = lines_from(s, from, base);
            assert(all == seq![line] + rest);
            assert(is_line_of(s, base, line));
            assert forall|i: int| 0 <= i < all.len() implies {
                &&& is_line_of(s, base, #[trigger] all[i])
                &&& from <= all[i].offset - base
            } by {
                if i > 0 {
                    assert(all[i] == rest[i - 1]);
                }
            }
            assert forall|i: int, j: int| 0 <= i < j < all.len() implies (#[trigger] all[i]).offset
                < (#[trigger] all[j]).offset by {
                assert(all[j] == rest[j - 1]);
                if i > 0 {
                    assert(all[i] == rest[i - 1]);
                }
            }
        } else {
            let line = Line { offset: base + from, text: s.subrange(from, s.len() as int) };
            assert(is_line_of(s, base, line));
        }
    }
}

/// Nothing is left out: every line of `s` that starts at or after `from` is
/// listed.
pub proof fn lemma_lines_complete(s: Seq<u8>, from: int, base: int, start: int, end: int)
    requires
        at_line_start(s, from),
        is_line(s, start, end),
        from <= start,
    ensures
        exists|i: int|
            0 <= i < lines_from(s, from, base).len() && #[trigger] lines_from(s, from, base)[i]
                == (Line { offset: base + start, text: s.subrange(start, end) }),
    decreases s.len() - from,
{
    let stop = line_end(s, from);
    lemma_line_end(s, from);
    let all = lines_from(s, from, base);
    if start == from {
        lemma_line_end_is(s, start, end);
        assert(all[0] == Line { offset: base + start, text: s.subrange(start, end) });
    } else {
        assert(s[start - 1] == NEWLINE);
        assert(stop <= start - 1);
        if stop == from {
            lemma_lines_complete(s, from + 1, base, start, end);
        } else {
            let rest = lines_from(s, stop + 1, base);
            lemma_lines_complete(s, stop + 1, base, start, end);
            let i = choose|i: int|
                0 <= i < rest.len() && #[trigger] rest[i] == (Line {
                    offset: base + start,
                    text: s.subrange(start, end),
                });
            assert(all[i + 1] == rest[i]);
        }
    }
}

/// The end of a line does not depend on what follows the next newline.
pub proof fn lemma_line_end_in_prefix(s: Seq<u8>, from: int, upto: int)
    requires
        0 <= from <= upto <= s.len(),
        line_end(s, from) < upto,
    ensures
        line_end(s.take(upto), from) == line_end(s, from),
{
    lemma_line_end(s, from);
    lemma_line_end_is(s.take(upto), from, line_end(s, from));
}

/// Cutting `s` at its start, at its end or right after a newline cuts no line: the lines of `s` are the
/// lines before the cut followed by the lines after it.
pub proof fn lemma_lines_split(s: Seq<u8>, from: int, cut: int, base: int)
    requires
        0 <= from <= cut <= s.len(),
        cut == s.len() || cut == 0 || s[cut - 1] == NEWLINE,
    ensures
        lines_from(s, from, base) == lines_from(s.take(cut), from, base) + lines_from(
            s,
            cut,
            base,
        ),
    decreases cut - from,
{
    let head = s.take(cut);
    if cut == s.len() {
        assert(head =~= s);
        assert(lines_from(s, from, base) + Seq::<Line>::empty() =~= lines_from(s, from, base));
    } else if from == cut {
        assert(Seq::<Line>::empty() + lines_from(s, cut, base) =~= lines_from(s, cut, base));
    } else {
        let end = line_end(s, from);
        lemma_line_end(s, from);
        assert(end <= cut - 1);
        lemma_line_end_in_prefix(s, from, cut);
        if end == from {
            lemma_lines_split(s, from + 1, cut, base);
        } else {
            lemma_lines_split(s, end + 1, cut, base);
            let line = Line { offset: base + from, text: s.subrange(from, end) };
            assert(head.subrange(from, end) =~= s.subrange(from, end));
            assert(seq![line] + (lines_from(head, end + 1, base) + lines_from(s, cut, base))
                =~= (seq![line] + lines_from(head, end + 1, base)) + lines_from(s, cut, base));
        }
    }
}

/// The lines of a piece of `s`, taken by itself and given the offset at which
/// it stands, are the lines that `s` has there.
pub proof fn lemma_lines_of_piece(s: Seq<u8>, start: int, end: int, from: int, base: int)
    requires
        0 <= start <= end <= s.len(),
        0 <= from <= end - start,
    ensures
        lines_from(s.subrange(start, end), from, base + start) == lines_from(
            s.take(end),
            start + from,
            base,
        ),
    decreases end - start - from,
{
    let piece = s.subrange(start, end);
    let head = s.take(end);
    if from < end - start {
        let stop = line_end(piece, from);
        lemma_line_end(piece, from);
        assert forall|k: int| start + from <= k < start + stop implies head[k] != NEWLINE by {
            assert(head[k] == piece[k - start]);
        }
        assert(start + stop < head.len() ==> head[start + stop] == piece[stop]);
        lemma_line_end_is(head, start + from, start + stop);
        if stop == from {
            lemma_lines_of_piece(s, start, end, from + 1, base);
        } else {
            assert(piece.subrange(from, stop) =~= head.subrange(start + from, start + stop));
            if stop < piece.len() {
                lemma_lines_of_piece(s, start, end, stop + 1, base);
            } else {
                assert(piece.subrange(from, piece.len() as int) =~= head.subrange(
                    start + from,
                    head.len() as int,
                ));
            }
        }
    }
}

/// Finds the end of the line that starts at `from`.
pub fn find_line_end(bytes: &[u8], from: usize) -> (end: usize)
    requires
        from <= bytes@.len(),
    ensures
        end == line_end(bytes@, from as int),
        from <= end <= bytes@.len(),
{
    let mut end: usize = from;
    while end < bytes.len() && bytes[end] != NEWLINE
        invariant
            from <= end <= bytes@.len(),
            line_end(bytes@, from as int) == line_end(bytes@, end as int),
        decreases bytes@.len() - end,
    {
        end += 1;
    }
    end
}

} // verus!
