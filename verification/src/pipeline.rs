//! What a whole run writes, whatever the order in which chunks are scanned.

use crate::decimal::decimal;
use crate::decimal::decimal_value;
use crate::decimal::lemma_decimal_digits;
use crate::decimal::lemma_decimal_round_trip;
use crate::decimal::ZERO;
use crate::dispatch::chunk_lines;
use crate::dispatch::chunks_from;
use crate::dispatch::lemma_file_covered;
use crate::dispatch::lines_of_chunks;
use crate::dispatch::Span;
use crate::lines::is_line;
use crate::lines::is_line_of;
use crate::lines::lemma_lines_complete;
use crate::lines::lemma_lines_sound;
use crate::lines::lines;
use crate::lines::Line;
use crate::pattern::Pattern;
use crate::stats::Totals;
use crate::worker::accepted;
use crate::worker::after_lines;
use crate::worker::flushed;
use crate::worker::lemma_after_lines_concat;
use crate::worker::lemma_output_conserved;
use crate::worker::record;
use crate::worker::Progress;
use crate::worker::COLON;
use vstd::multiset::Multiset;
use vstd::prelude::*;
use vstd::seq_lib::lemma_multiset_commutative;

verus! {

/// The lines of the file that the pattern accepts, in file order.
pub open spec fn matching_lines(pattern: Pattern, data: Seq<u8>) -> Seq<Line> {
    accepted(pattern, lines(data, 0))
}

/// The accepted lines of the chunks `spans`, without regard to order.
pub open spec fn matches_in_chunks(pattern: Pattern, data: Seq<u8>, spans: Seq<Span>) -> Multiset<
    Line,
>
    decreases spans.len(),
{
    if spans.len() == 0 {
        Multiset::empty()
    } else {
        accepted(pattern, chunk_lines(data, spans.first())).to_multiset().add(
            matches_in_chunks(pattern, data, spans.drop_first()),
        )
    }
}

/// The accepted lines of two runs of lines are those of the first followed by
/// those of the second.
pub proof fn lemma_accepted_concat(pattern: Pattern, first: Seq<Line>, second: Seq<Line>)
    ensures
        accepted(pattern, first + second) == accepted(pattern, first) + accepted(pattern, second),
    decreases second.len(),
{
    if second.len() == 0 {
        assert(first + second =~= first);
        assert(accepted(pattern, first) + accepted(pattern, second) =~= accepted(pattern, first));
    } else {
        assert((first + second).drop_last() =~= first + second.drop_last());
        lemma_accepted_concat(pattern, first, second.drop_last());
        assert(accepted(pattern, first) + accepted(pattern, second.drop_last()).push(second.last())
            =~= (accepted(pattern, first) + accepted(pattern, second.drop_last())).push(
            second.last(),
        ));
    }
}

/// A line is among the accepted lines exactly when it is among the lines and
/// the pattern accepts it.
pub proof fn lemma_accepted_members(pattern: Pattern, all: Seq<Line>, line: Line)
    ensures
        accepted(pattern, all).contains(line) <==> all.contains(line) && pattern.accepts(line.text),
    decreases all.len(),
{
    if all.len() > 0 {
        let head = all.drop_last();
        lemma_accepted_members(pattern, head, line);
        let kept = accepted(pattern, head);
        if all.contains(line) {
            let i = choose|i: int| 0 <= i < all.len() && all[i] == line;
            if i < all.len() - 1 {
                assert(head[i] == line);
            }
        }
        if head.contains(line) {
            let i = choose|i: int| 0 <= i < head.len() && head[i] == line;
            assert(all[i] == line);
        }
        if pattern.accepts(all.last().text) {
            let now = kept.push(all.last());
            if now.contains(line) {
                let i = choose|i: int| 0 <= i < now.len() && now[i] == line;
                if i < kept.len() {
                    assert(kept[i] == line);
                }
            }
            if kept.contains(line) {
                let i = choose|i: int| 0 <= i < kept.len() && kept[i] == line;
                assert(now[i] == line);
            }
            assert(now[now.len() - 1] == all.last());
        }
        assert(all[all.len() - 1] == all.last());
    }
}

/// No lines make the empty multiset.
proof fn lemma_nothing_in_no_lines()
    ensures
        Seq::<Line>::empty().to_multiset() == Multiset::<Line>::empty(),
{
    broadcast use vstd::seq_lib::group_to_multiset_ensures;
    broadcast use vstd::multiset::group_multiset_axioms;

    let none = Seq::<Line>::empty().to_multiset();
    assert(none.len() == 0);
    assert(none =~= Multiset::<Line>::empty());
}

/// Taken in file order, the accepted lines of some chunks are the accepted
/// ones among the lines of those chunks.
pub proof fn lemma_matches_in_file_order(pattern: Pattern, data: Seq<u8>, spans: Seq<Span>)
    ensures
        matches_in_chunks(pattern, data, spans) == accepted(
            pattern,
            lines_of_chunks(data, spans),
        ).to_multiset(),
    decreases spans.len(),
{
    if spans.len() == 0 {
        assert(accepted(pattern, lines_of_chunks(data, spans)) =~= Seq::<Line>::empty());
        lemma_nothing_in_no_lines();
    } else {
        lemma_matches_in_file_order(pattern, data, spans.drop_first());
        let here = chunk_lines(data, spans.first());
        let rest = lines_of_chunks(data, spans.drop_first());
        lemma_accepted_concat(pattern, here, rest);
        lemma_multiset_commutative(accepted(pattern, here), accepted(pattern, rest));
    }
}

/// Completeness and no fabrication, line by line: a stretch of the file that
/// is a line is among the matching lines if and only if the pattern accepts
/// it, and every matching line is a line of the file, found at its offset.
pub proof fn lemma_matching_lines_exact(pattern: Pattern, data: Seq<u8>)
    ensures
        forall|start: int, end: int|
            #![trigger data.subrange(start, end)]
            is_line(data, start, end) ==> (pattern.accepts(data.subrange(start, end))
                <==> matching_lines(pattern, data).contains(
                Line { offset: start, text: data.subrange(start, end) },
            )),
        forall|i: int|
            0 <= i < matching_lines(pattern, data).len() ==> {
                &&& is_line_of(data, 0, #[trigger] matching_lines(pattern, data)[i])
                &&& pattern.accepts(matching_lines(pattern, data)[i].text)
            },
{
    let all = lines(data, 0);
    let hits = matching_lines(pattern, data);
    lemma_lines_sound(data, 0, 0);
    assert forall|start: int, end: int| #![trigger data.subrange(start, end)] is_line(data, start, end) implies (
    pattern.accepts(data.subrange(start, end)) <==> hits.contains(
        Line { offset: start, text: data.subrange(start, end) },
    )) by {
        let line = Line { offset: start, text: data.subrange(start, end) };
        lemma_lines_complete(data, 0, 0, start, end);
        lemma_accepted_members(pattern, all, line);
    }
    assert forall|i: int| 0 <= i < hits.len() implies {
        &&& is_line_of(data, 0, #[trigger] hits[i])
        &&& pattern.accepts(hits[i].text)
    } by {
        lemma_accepted_members(pattern, all, hits[i]);
        assert(hits.contains(hits[i]));
        let k = choose|k: int| 0 <= k < all.len() && all[k] == hits[i];
        assert(is_line_of(data, 0, all[k]));
    }
}

/// Completeness of a run: unless the file is a single byte, the chunks of a
/// run that is not stopped early hold exactly the matching lines of the file,
/// each as often as it stands there.
pub proof fn lemma_run_complete(pattern: Pattern, data: Seq<u8>, chunk_size: int)
    requires
        chunk_size >= 2,
        data.len() != 1,
    ensures
        matches_in_chunks(pattern, data, chunks_from(data, 0, chunk_size)) == matching_lines(
            pattern,
            data,
        ).to_multiset(),
{
    lemma_file_covered(data, chunk_size);
    lemma_matches_in_file_order(pattern, data, chunks_from(data, 0, chunk_size));
}

/// Chunks shared out between workers lose nothing: the accepted lines of two
/// shares together are those of the one and those of the other.
pub proof fn lemma_matches_of_shares(
    pattern: Pattern,
    data: Seq<u8>,
    mine: Seq<Span>,
    yours: Seq<Span>,
)
    ensures
        matches_in_chunks(pattern, data, mine + yours) == matches_in_chunks(
            pattern,
            data,
            mine,
        ).add(matches_in_chunks(pattern, data, yours)),
    decreases mine.len(),
{
    if mine.len() == 0 {
        assert(mine + yours =~= yours);
        assert(Multiset::<Line>::empty().add(matches_in_chunks(pattern, data, yours))
            =~= matches_in_chunks(pattern, data, yours));
    } else {
        assert((mine + yours).first() == mine.first());
        assert((mine + yours).drop_first() =~= mine.drop_first() + yours);
        lemma_matches_of_shares(pattern, data, mine.drop_first(), yours);
        let head = accepted(pattern, chunk_lines(data, mine.first())).to_multiset();
        assert(head.add(
            matches_in_chunks(pattern, data, mine.drop_first()).add(
                matches_in_chunks(pattern, data, yours),
            ),
        ) =~= head.add(matches_in_chunks(pattern, data, mine.drop_first())).add(
            matches_in_chunks(pattern, data, yours),
        ));
    }
}

/// Taking one chunk out of a run takes out its accepted lines and no others.
pub proof fn lemma_matches_without(pattern: Pattern, data: Seq<u8>, spans: Seq<Span>, i: int)
    requires
        0 <= i < spans.len(),
    ensures
        matches_in_chunks(pattern, data, spans) == matches_in_chunks(
            pattern,
            data,
            spans.remove(i),
        ).add(accepted(pattern, chunk_lines(data, spans[i])).to_multiset()),
{
    let before = spans.take(i);
    let after = spans.skip(i + 1);
    let one = seq![spans[i]];
    assert(spans =~= before + (one + after));
    assert(spans.remove(i) =~= before + after);
    lemma_matches_of_shares(pattern, data, before, one + after);
    lemma_matches_of_shares(pattern, data, one, after);
    lemma_matches_of_shares(pattern, data, before, after);
    assert(one.drop_first() =~= Seq::<Span>::empty());
    let here = accepted(pattern, chunk_lines(data, spans[i])).to_multiset();
    assert(matches_in_chunks(pattern, data, one.drop_first()) == Multiset::<Line>::empty());
    assert(one.first() == spans[i]);
    assert(matches_in_chunks(pattern, data, one) =~= here);
    assert(matches_in_chunks(pattern, data, before).add(
        here.add(matches_in_chunks(pattern, data, after)),
    ) =~= matches_in_chunks(pattern, data, before).add(
        matches_in_chunks(pattern, data, after),
    ).add(here));
}

/// The order in which chunks are scanned does not matter: two runs over the
/// same chunks, in whatever order, find the same lines equally often.
pub proof fn lemma_order_free(pattern: Pattern, data: Seq<u8>, one: Seq<Span>, other: Seq<Span>)
    requires
        one.to_multiset() == other.to_multiset(),
    ensures
        matches_in_chunks(pattern, data, one) == matches_in_chunks(pattern, data, other),
    decreases one.len(),
{
    broadcast use vstd::seq_lib::group_to_multiset_ensures;

    if one.len() == 0 {
        assert(one.to_multiset().len() == 0);
        assert(other.to_multiset().len() == other.len());
    } else {
        let head = one.first();
        assert(one.contains(head));
        assert(other.to_multiset().count(head) > 0);
        assert(other.contains(head));
        let i = choose|i: int| 0 <= i < other.len() && other[i] == head;
        assert(one.remove(0) =~= one.drop_first());
        assert(one.remove(0).to_multiset() == one.to_multiset().remove(one[0]));
        assert(other.remove(i).to_multiset() == other.to_multiset().remove(other[i]));
        lemma_order_free(pattern, data, one.drop_first(), other.remove(i));
        lemma_matches_without(pattern, data, other, i);
        let here = accepted(pattern, chunk_lines(data, head)).to_multiset();
        assert(here.add(matches_in_chunks(pattern, data, one.drop_first()))
            =~= matches_in_chunks(pattern, data, one.drop_first()).add(here));
    }
}

/// A worker that has not looked at anything yet.
pub open spec fn fresh() -> Progress {
    Progress {
        pending: Seq::empty(),
        stats: Totals { cracked: 0, hashed: 0, waits: 0, kbs: 0 },
        emissions: Seq::empty(),
    }
}

/// The state of a worker after it has been given the chunks `spans`, one
/// call of `process` after the other.
pub open spec fn after_chunks(
    pattern: Pattern,
    position: bool,
    p: Progress,
    data: Seq<u8>,
    spans: Seq<Span>,
) -> Progress
    decreases spans.len(),
{
    if spans.len() == 0 {
        p
    } else {
        after_chunks(
            pattern,
            position,
            after_lines(pattern, position, p, chunk_lines(data, spans.first())),
            data,
            spans.drop_first(),
        )
    }
}

/// Chunk boundaries do not show in what a worker does: being given chunks one
/// by one is the same as looking at all their lines in a row.
pub proof fn lemma_after_chunks(
    pattern: Pattern,
    position: bool,
    p: Progress,
    data: Seq<u8>,
    spans: Seq<Span>,
)
    ensures
        after_chunks(pattern, position, p, data, spans) == after_lines(
            pattern,
            position,
            p,
            lines_of_chunks(data, spans),
        ),
    decreases spans.len(),
{
    if spans.len() > 0 {
        let here = chunk_lines(data, spans.first());
        let next = after_lines(pattern, position, p, here);
        lemma_after_chunks(pattern, position, next, data, spans.drop_first());
        lemma_after_lines_concat(
            pattern,
            position,
            p,
            here,
            lines_of_chunks(data, spans.drop_first()),
        );
    }
}

/// What one worker writes in its life: started afresh and given the chunks
/// `mine` one after the other, it has handed over or still holds, when the
/// sentinel comes, exactly the accepted lines of those chunks, in the order
/// in which it met them.
pub proof fn lemma_worker_writes_its_share(
    pattern: Pattern,
    position: bool,
    data: Seq<u8>,
    mine: Seq<Span>,
)
    ensures
        ({
            let last = after_chunks(pattern, position, fresh(), data, mine);
            &&& flushed(last.emissions) + last.pending == accepted(
                pattern,
                lines_of_chunks(data, mine),
            )
            &&& (flushed(last.emissions) + last.pending).to_multiset() == matches_in_chunks(
                pattern,
                data,
                mine,
            )
        }),
{
    let all = lines_of_chunks(data, mine);
    lemma_after_chunks(pattern, position, fresh(), data, mine);
    lemma_output_conserved(pattern, position, fresh(), all);
    lemma_matches_in_file_order(pattern, data, mine);
    assert(flushed(fresh().emissions) + fresh().pending + accepted(pattern, all) =~= accepted(
        pattern,
        all,
    ));
}

/// A run that is cut short finds nothing that a complete run would not find:
/// the chunks dispatched up to any point hold matching lines of the file, none
/// more often than it stands there.
pub proof fn lemma_cut_short(pattern: Pattern, data: Seq<u8>, chunk_size: int, sent: int)
    requires
        chunk_size >= 2,
        data.len() != 1,
        0 <= sent <= chunks_from(data, 0, chunk_size).len(),
    ensures
        matches_in_chunks(pattern, data, chunks_from(data, 0, chunk_size).take(sent)).subset_of(
            matching_lines(pattern, data).to_multiset(),
        ),
{
    broadcast use vstd::multiset::group_multiset_axioms;

    let all = chunks_from(data, 0, chunk_size);
    assert(all =~= all.take(sent) + all.skip(sent));
    lemma_matches_of_shares(pattern, data, all.take(sent), all.skip(sent));
    lemma_run_complete(pattern, data, chunk_size);
}

/// In a file that holds at most one matching line, a run finds at most one,
/// wherever it is stopped.
pub proof fn lemma_at_most_one(pattern: Pattern, data: Seq<u8>, chunk_size: int, sent: int)
    requires
        chunk_size >= 2,
        data.len() != 1,
        matching_lines(pattern, data).len() <= 1,
        0 <= sent <= chunks_from(data, 0, chunk_size).len(),
    ensures
        matches_in_chunks(pattern, data, chunks_from(data, 0, chunk_size).take(sent)).len() <= 1,
{
    broadcast use vstd::seq_lib::group_to_multiset_ensures;

    let all = chunks_from(data, 0, chunk_size);
    assert(all =~= all.take(sent) + all.skip(sent));
    lemma_matches_of_shares(pattern, data, all.take(sent), all.skip(sent));
    lemma_run_complete(pattern, data, chunk_size);
    let a = matches_in_chunks(pattern, data, all.take(sent));
    let b = matches_in_chunks(pattern, data, all.skip(sent));
    assert(a.add(b).len() == a.len() + b.len());
}

/// Position correctness: the record of a matching line, written with its
/// position, starts with digits that read back as the offset of the line,
/// then a colon; and the file holds the line at that offset.
pub proof fn lemma_position_is_offset(pattern: Pattern, data: Seq<u8>, i: int)
    requires
        0 <= i < matching_lines(pattern, data).len(),
    ensures
        ({
            let line = matching_lines(pattern, data)[i];
            let digits = decimal(line.offset as nat);
            let written = record(true, line);
            &&& 0 <= line.offset
            &&& written.subrange(0, digits.len() as int) == digits
            &&& forall|k: int| 0 <= k < digits.len() ==> ZERO <= #[trigger] written[k] <= ZERO + 9
            &&& written[digits.len() as int] == COLON
            &&& decimal_value(digits) == line.offset
            &&& data.subrange(line.offset, line.offset + line.text.len()) == line.text
        }),
{
    let line = matching_lines(pattern, data)[i];
    let digits = decimal(line.offset as nat);
    let written = record(true, line);
    lemma_matching_lines_exact(pattern, data);
    lemma_decimal_digits(line.offset as nat);
    lemma_decimal_round_trip(line.offset as nat);
    assert(written.subrange(0, digits.len() as int) =~= digits);
    assert forall|k: int| 0 <= k < digits.len() implies ZERO <= #[trigger] written[k] <= ZERO
        + 9 by {
        assert(written[k] == digits[k]);
    }
}

} // verus!
