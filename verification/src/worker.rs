//! One worker: turns chunks into output records and progress reports.

use crate::decimal::decimal;
use crate::decimal::lemma_decimal_digits;
use crate::decimal::push_decimal;
use crate::lines::find_line_end;
use crate::lines::lemma_line_end_is;
use crate::lines::lemma_lines_split;
use crate::lines::lines;
use crate::lines::lines_from;
use crate::lines::Line;
use crate::lines::NEWLINE;
use crate::pattern::Pattern;
use crate::stats::Stats;
use crate::stats::Totals;
use vstd::prelude::*;

verus! {

/// The output buffer is written out as soon as it holds this many bytes.
pub const FLUSH_AT: usize = 8192;

/// The counters are reported as soon as this many matches have been counted.
pub const UPDATE_THRESHOLD: usize = 1;

/// The byte between an offset and its line.
pub const COLON: u8 = 58;

/// What a worker asks its caller to do, in the order given.
#[derive(Debug)]
pub enum Effect {
    /// Write these bytes to the output in one piece.
    Flush(Vec<u8>),
    /// Send this snapshot of the counters.
    Report(Stats),
}

/// An `Effect` as plain values.
pub enum EffectView {
    Flush(Seq<u8>),
    Report(Totals),
}

impl View for Effect {
    type V = EffectView;

    open spec fn view(&self) -> EffectView {
        match self {
            Effect::Flush(bytes) => EffectView::Flush(bytes@),
            Effect::Report(stats) => EffectView::Report(stats@),
        }
    }
}

impl DeepView for Effect {
    type V = EffectView;

    open spec fn deep_view(&self) -> EffectView {
        self.view()
    }
}

/// An effect in terms of lines rather than bytes.
pub enum Emission {
    Flush(Seq<Line>),
    Report(Totals),
}

/// What a worker holds and what it has asked for so far.
pub struct Progress {
    /// The matching lines whose records wait in the buffer.
    pub pending: Seq<Line>,
    pub stats: Totals,
    pub emissions: Seq<Emission>,
}

/// The bytes written for one matching line: the line and a newline, after the
/// decimal offset and a colon when positions are asked for.
pub open spec fn record(position: bool, line: Line) -> Seq<u8> {
    if position {
        decimal(line.offset as nat) + seq![COLON] + line.text + seq![NEWLINE]
    } else {
        line.text + seq![NEWLINE]
    }
}

/// The records of `lines`, one after the other.
pub open spec fn render(position: bool, lines: Seq<Line>) -> Seq<u8>
    decreases lines.len(),
{
    if lines.len() == 0 {
        Seq::empty()
    } else {
        render(position, lines.drop_last()) + record(position, lines.last())
    }
}

/// A record without the newline that ends it.
pub open spec fn record_body(position: bool, line: Line) -> Seq<u8> {
    if position {
        decimal(line.offset as nat) + seq![COLON] + line.text
    } else {
        line.text
    }
}

/// `text` is not empty and holds no newline.
pub open spec fn is_one_line(text: Seq<u8>) -> bool {
    text.len() > 0 && forall|k: int| 0 <= k < text.len() ==> text[k] != NEWLINE
}

/// Records written one after the other are the records of all the lines: it
/// does not show in the output where one write ended and the next began.
pub proof fn lemma_render_concat(position: bool, first: Seq<Line>, second: Seq<Line>)
    ensures
        render(position, first + second) == render(position, first) + render(position, second),
    decreases second.len(),
{
    if second.len() == 0 {
        assert(first + second =~= first);
        assert(render(position, first) + render(position, second) =~= render(position, first));
    } else {
        assert((first + second).drop_last() =~= first + second.drop_last());
        lemma_render_concat(position, first, second.drop_last());
        assert(render(position, first) + (render(position, second.drop_last()) + record(
            position,
            second.last(),
        )) =~= (render(position, first) + render(position, second.drop_last())) + record(
            position,
            second.last(),
        ));
    }
}

/// The body of a record is one line whenever the text of its line is.
pub proof fn lemma_record_body_is_one_line(position: bool, line: Line)
    requires
        is_one_line(line.text),
    ensures
        is_one_line(record_body(position, line)),
        record(position, line) == record_body(position, line).push(NEWLINE),
{
    if position {
        lemma_decimal_digits(line.offset as nat);
        let digits = decimal(line.offset as nat);
        let body = record_body(position, line);
        assert forall|k: int| 0 <= k < body.len() implies body[k] != NEWLINE by {
            if k < digits.len() {
                assert(body[k] == digits[k]);
            } else if k > digits.len() {
                assert(body[k] == line.text[k - digits.len() - 1]);
            }
        }
    }
    assert(record(position, line) =~= record_body(position, line).push(NEWLINE));
}

/// What is written can be read back: the output for `written`, read line by
/// line, gives one line per record, in order, and each is the body of its
/// record.
pub proof fn lemma_output_reads_back(position: bool, written: Seq<Line>)
    requires
        forall|i: int| 0 <= i < written.len() ==> is_one_line(#[trigger] written[i].text),
    ensures
        lines(render(position, written), 0).len() == written.len(),
        forall|i: int|
            0 <= i < written.len() ==> (#[trigger] lines(render(position, written), 0)[i]).text
                == record_body(position, written[i]),
        written.len() > 0 ==> render(position, written).last() == NEWLINE,
    decreases written.len(),
{
    if written.len() > 0 {
        let head = written.drop_last();
        let line = written.last();
        lemma_output_reads_back(position, head);
        lemma_record_body_is_one_line(position, line);
        let before = render(position, head);
        let body = record_body(position, line);
        let all = render(position, written);
        let cut = before.len() as int;
        assert(all == before + body.push(NEWLINE));
        assert(all.take(cut) =~= before);
        lemma_lines_split(all, 0, cut, 0);
        assert forall|k: int| cut <= k < cut + body.len() implies all[k] != NEWLINE by {
            assert(all[k] == body[k - cut]);
        }
        lemma_line_end_is(all, cut, cut + body.len());
        assert(all.subrange(cut, cut + body.len()) =~= body);
        let tail = lines_from(all, cut, 0);
        assert(lines_from(all, cut + body.len() + 1, 0) =~= Seq::<Line>::empty());
        assert(tail =~= seq![Line { offset: cut, text: body }]);
        let read = lines(all, 0);
        assert(read == lines(before, 0) + tail);
        assert forall|i: int| 0 <= i < written.len() implies (#[trigger] read[i]).text
            == record_body(position, written[i]) by {
            if i < head.len() {
                assert(read[i] == lines(before, 0)[i]);
                assert(written[i] == head[i]);
            }
        }
    }
}

/// The bytes and counters that an emission stands for.
pub open spec fn rendered(position: bool, emission: Emission) -> EffectView {
    match emission {
        Emission::Flush(lines) => EffectView::Flush(render(position, lines)),
        Emission::Report(totals) => EffectView::Report(totals),
    }
}

/// All of `emissions`, rendered.
pub open spec fn rendered_all(position: bool, emissions: Seq<Emission>) -> Seq<EffectView> {
    emissions.map_values(|e: Emission| rendered(position, e))
}

/// The state of a worker after it has looked at one more line.
///
/// The line is counted. If it matches it is counted as a match and its record
/// joins the buffer; the buffer is then flushed if it has reached `FLUSH_AT`,
/// and the counters are reported, and `cracked` and `hashed` reset, if
/// `cracked` has reached `UPDATE_THRESHOLD`.
pub open spec fn after_line(pattern: Pattern, position: bool, p: Progress, line: Line) -> Progress {
    let hashed = p.stats.hashed + 1;
    if !pattern.accepts(line.text) {
        Progress {
            pending: p.pending,
            stats: Totals {
                cracked: p.stats.cracked,
                hashed,
                waits: p.stats.waits,
                kbs: p.stats.kbs,
            },
            emissions: p.emissions,
        }
    } else {
        let counted = Totals {
            cracked: p.stats.cracked + 1,
            hashed,
            waits: p.stats.waits,
            kbs: p.stats.kbs,
        };
        let grown = p.pending.push(line);
        let flush = render(position, grown).len() >= FLUSH_AT;
        let report = counted.cracked == UPDATE_THRESHOLD;
        let flushed = if flush {
            p.emissions.push(Emission::Flush(grown))
        } else {
            p.emissions
        };
        Progress {
            pending: if flush {
                Seq::empty()
            } else {
                grown
            },
            stats: if report {
                Totals { cracked: 0, hashed: 0, waits: p.stats.waits, kbs: p.stats.kbs }
            } else {
                counted
            },
            emissions: if report {
                flushed.push(Emission::Report(counted))
            } else {
                flushed
            },
        }
    }
}

/// The state of a worker after it has looked at `lines`, first to last.
pub open spec fn after_lines(pattern: Pattern, position: bool, p: Progress, lines: Seq<Line>) -> Progress
    decreases lines.len(),
{
    if lines.len() == 0 {
        p
    } else {
        after_line(
            pattern,
            position,
            after_lines(pattern, position, p, lines.drop_last()),
            lines.last(),
        )
    }
}

/// The lines of `lines` that `pattern` accepts, in order.
pub open spec fn accepted(pattern: Pattern, lines: Seq<Line>) -> Seq<Line>
    decreases lines.len(),
{
    if lines.len() == 0 {
        Seq::empty()
    } else if pattern.accepts(lines.last().text) {
        accepted(pattern, lines.drop_last()).push(lines.last())
    } else {
        accepted(pattern, lines.drop_last())
    }
}

/// The lines that `emissions` hand over for writing, in order.
pub open spec fn flushed(emissions: Seq<Emission>) -> Seq<Line>
    decreases emissions.len(),
{
    if emissions.len() == 0 {
        Seq::empty()
    } else {
        match emissions.last() {
            Emission::Flush(lines) => flushed(emissions.drop_last()) + lines,
            Emission::Report(_) => flushed(emissions.drop_last()),
        }
    }
}

/// The sum of the counters that `emissions` report.
pub open spec fn reported(emissions: Seq<Emission>) -> Totals
    decreases emissions.len(),
{
    if emissions.len() == 0 {
        Totals { cracked: 0, hashed: 0, waits: 0, kbs: 0 }
    } else {
        match emissions.last() {
            Emission::Flush(_) => reported(emissions.drop_last()),
            Emission::Report(totals) => reported(emissions.drop_last()).plus(totals),
        }
    }
}

/// Looking at one run of lines and then at another is looking at both in a row.
pub proof fn lemma_after_lines_concat(
    pattern: Pattern,
    position: bool,
    p: Progress,
    first: Seq<Line>,
    second: Seq<Line>,
)
    ensures
        after_lines(pattern, position, p, first + second) == after_lines(
            pattern,
            position,
            after_lines(pattern, position, p, first),
            second,
        ),
    decreases second.len(),
{
    if second.len() == 0 {
        assert(first + second =~= first);
    } else {
        assert((first + second).drop_last() =~= first + second.drop_last());
        lemma_after_lines_concat(pattern, position, p, first, second.drop_last());
    }
}

/// No matching line is lost or invented, and none changes place: what has been
/// handed over for writing, followed by what still waits in the buffer, grows
/// by exactly the accepted lines, in order.
pub proof fn lemma_output_conserved(pattern: Pattern, position: bool, p: Progress, lines: Seq<Line>)
    ensures
        ({
            let q = after_lines(pattern, position, p, lines);
            flushed(q.emissions) + q.pending == flushed(p.emissions) + p.pending + accepted(
                pattern,
                lines,
            )
        }),
    decreases lines.len(),
{
    let q = after_lines(pattern, position, p, lines);
    if lines.len() == 0 {
        assert(flushed(p.emissions) + p.pending + accepted(pattern, lines) =~= flushed(p.emissions)
            + p.pending);
    } else {
        let mid = after_lines(pattern, position, p, lines.drop_last());
        lemma_output_conserved(pattern, position, p, lines.drop_last());
        let line = lines.last();
        if pattern.accepts(line.text) {
            let grown = mid.pending.push(line);
            let flush = render(position, grown).len() >= FLUSH_AT;
            let after_flush = if flush {
                mid.emissions.push(Emission::Flush(grown))
            } else {
                mid.emissions
            };
            assert(flushed(after_flush) + q.pending =~= flushed(mid.emissions) + mid.pending.push(
                line,
            )) by {
                if flush {
                    assert(after_flush.drop_last() =~= mid.emissions);
                }
            }
            assert(flushed(q.emissions) == flushed(after_flush)) by {
                if q.emissions != after_flush {
                    assert(q.emissions.drop_last() =~= after_flush);
                }
            }
            assert(flushed(mid.emissions) + mid.pending.push(line) =~= (flushed(mid.emissions)
                + mid.pending).push(line));
            assert((flushed(p.emissions) + p.pending + accepted(pattern, lines.drop_last())).push(
                line,
            ) =~= flushed(p.emissions) + p.pending + accepted(pattern, lines));
        }
    }
}

/// Every line is counted once and every match is counted once: what has been
/// reported plus what the counters hold grows by the number of lines and by
/// the number of accepted lines. The other two counters stay as they are.
pub proof fn lemma_counts_conserved(pattern: Pattern, position: bool, p: Progress, lines: Seq<Line>)
    ensures
        ({
            let q = after_lines(pattern, position, p, lines);
            &&& reported(q.emissions).hashed + q.stats.hashed == reported(p.emissions).hashed
                + p.stats.hashed + lines.len()
            &&& reported(q.emissions).cracked + q.stats.cracked == reported(p.emissions).cracked
                + p.stats.cracked + accepted(pattern, lines).len()
            &&& q.stats.waits == p.stats.waits
            &&& q.stats.kbs == p.stats.kbs
        }),
    decreases lines.len(),
{
    let q = after_lines(pattern, position, p, lines);
    if lines.len() > 0 {
        let mid = after_lines(pattern, position, p, lines.drop_last());
        lemma_counts_conserved(pattern, position, p, lines.drop_last());
        let line = lines.last();
        if pattern.accepts(line.text) {
            let grown = mid.pending.push(line);
            let flush = render(position, grown).len() >= FLUSH_AT;
            let after_flush = if flush {
                mid.emissions.push(Emission::Flush(grown))
            } else {
                mid.emissions
            };
            assert(reported(after_flush) == reported(mid.emissions)) by {
                if flush {
                    assert(after_flush.drop_last() =~= mid.emissions);
                }
            }
            if q.emissions != after_flush {
                assert(q.emissions.drop_last() =~= after_flush);
            }
        }
    }
}

/// A worker between two messages.
pub struct Worker {
    pub pattern: Pattern,
    /// Whether each record starts with the offset of its line.
    pub position: bool,
    /// Records not yet written out.
    pub out: Vec<u8>,
    pub stats: Stats,
    /// The lines whose records are in `out`.
    pub pending: Ghost<Seq<Line>>,
}

impl Worker {
    /// The buffer holds the records of the pending lines and is below the
    /// flush mark; the match counter is below the report mark.
    pub open spec fn wf(&self) -> bool {
        &&& self.out@ == render(self.position, self.pending@)
        &&& self.out@.len() < FLUSH_AT
        &&& self.stats.cracked < UPDATE_THRESHOLD
    }

    /// The worker's state with nothing asked for yet.
    pub open spec fn progress(&self) -> Progress {
        Progress { pending: self.pending@, stats: self.stats@, emissions: Seq::empty() }
    }

    /// This worker, having returned `effects`, is where `p` says.
    pub open spec fn reached(&self, effects: Seq<EffectView>, p: Progress) -> bool {
        &&& self.pending@ == p.pending
        &&& self.stats@ == p.stats
        &&& effects == rendered_all(self.position, p.emissions)
    }

    /// A worker with an empty buffer and all counters at zero.
    pub fn new(pattern: Pattern, position: bool) -> (w: Worker)
        ensures
            w.wf(),
            w.pattern == pattern,
            w.position == position,
            w.out@.len() == 0,
            w.pending@.len() == 0,
            w.stats == (Stats { cracked: 0, hashed: 0, waits: 0, kbs: 0 }),
    {
        Worker {
            pattern,
            position,
            out: Vec::with_capacity(FLUSH_AT),
            stats: Stats::new(),
            pending: Ghost(Seq::empty()),
        }
    }

    /// Looks at the line `text`, which starts at offset `at`.
    pub fn scan_line(&mut self, at: usize, text: &[u8]) -> (asked: Vec<Effect>)
        requires
            old(self).wf(),
            old(self).stats.hashed < usize::MAX,
        ensures
            final(self).wf(),
            final(self).pattern == old(self).pattern,
            final(self).position == old(self).position,
            final(self).stats.waits == old(self).stats.waits,
            final(self).stats.kbs == old(self).stats.kbs,
            final(self).reached(
                asked.deep_view(),
                after_line(
                    old(self).pattern,
                    old(self).position,
                    old(self).progress(),
                    Line { offset: at as int, text: text@ },
                ),
            ),
    {
        let ghost line = Line { offset: at as int, text: text@ };
        let ghost before = self.progress();
        let ghost after = after_line(self.pattern, self.position, before, line);
        let mut asked: Vec<Effect> = Vec::new();
        self.stats.hashed = self.stats.hashed + 1;
        if !self.pattern.matches(text) {
            assert(asked.deep_view() =~= rendered_all(self.position, after.emissions));
            return asked;
        }
        self.stats.cracked = self.stats.cracked + 1;
        let ghost grown = self.pending@.push(line);
        if self.position {
            push_decimal(&mut self.out, at);
            self.out.push(COLON);
        }
        append_bytes(&mut self.out, text);
        self.out.push(NEWLINE);
        proof {
            assert(grown.drop_last() =~= self.pending@);
            assert(self.out@ =~= render(self.position, grown));
        }
        if self.out.len() >= FLUSH_AT {
            let mut full: Vec<u8> = Vec::with_capacity(FLUSH_AT);
            core::mem::swap(&mut self.out, &mut full);
            asked.push(Effect::Flush(full));
            self.pending = Ghost(Seq::empty());
        } else {
            self.pending = Ghost(grown);
        }
        if self.stats.cracked == UPDATE_THRESHOLD {
            asked.push(Effect::Report(self.stats));
            self.stats.cracked = 0;
            self.stats.hashed = 0;
        }
        assert(asked.deep_view() =~= rendered_all(self.position, after.emissions));
        asked
    }

    /// Looks at every non-empty line of a chunk whose first byte stands at
    /// `offset` in the file, and returns what has to be written and sent, in
    /// order.
    pub fn process(&mut self, offset: usize, bytes: &[u8]) -> (effects: Vec<Effect>)
        requires
            old(self).wf(),
            offset + bytes@.len() <= usize::MAX,
            old(self).stats.hashed + bytes@.len() <= usize::MAX,
        ensures
            final(self).wf(),
            final(self).pattern == old(self).pattern,
            final(self).position == old(self).position,
            final(self).stats.waits == old(self).stats.waits,
            final(self).stats.kbs == old(self).stats.kbs,
            final(self).reached(
                effects.deep_view(),
                after_lines(
                    old(self).pattern,
                    old(self).position,
                    old(self).progress(),
                    lines(bytes@, offset as int),
                ),
            ),
    {
        let mut effects: Vec<Effect> = Vec::new();
        let ghost start = self.progress();
        let ghost mut seen: Seq<Line> = Seq::empty();
        let mut i: usize = 0;
        assert(effects.deep_view() =~= rendered_all(self.position, start.emissions));
        while i < bytes.len()
            invariant
                i <= bytes@.len(),
                self.wf(),
                self.pattern == old(self).pattern,
                self.position == old(self).position,
                self.stats.waits == old(self).stats.waits,
                self.stats.kbs == old(self).stats.kbs,
                offset + bytes@.len() <= usize::MAX,
                self.stats.hashed + (bytes@.len() - i) <= usize::MAX,
                seen + lines_from(bytes@, i as int, offset as int) == lines(bytes@, offset as int),
                self.reached(
                    effects.deep_view(),
                    after_lines(self.pattern, self.position, start, seen),
                ),
            decreases bytes@.len() - i,
        {
            let end = find_line_end(bytes, i);
            if end == i {
                i += 1;
            } else {
                let ghost line = Line {
                    offset: offset as int + i as int,
                    text: bytes@.subrange(i as int, end as int),
                };
                let ghost so_far = after_lines(self.pattern, self.position, start, seen);
                let ghost local = self.progress();
                let ghost had = effects.deep_view();
                let mut asked = self.scan_line(offset + i, &bytes[i..end]);
                let ghost new = asked.deep_view();
                effects.append(&mut asked);
                proof {
                    let rest = if end < bytes@.len() {
                        lines_from(bytes@, end as int + 1, offset as int)
                    } else {
                        Seq::<Line>::empty()
                    };
                    assert(lines_from(bytes@, i as int, offset as int) == seq![line] + rest);
                    assert(seen.push(line) + rest =~= seen + (seq![line] + rest));
                    assert(seen.push(line).drop_last() =~= seen);
                    let step = after_line(self.pattern, self.position, local, line);
                    let whole = after_line(self.pattern, self.position, so_far, line);
                    assert(whole.emissions =~= so_far.emissions + step.emissions);
                    assert(whole.pending == step.pending);
                    assert(whole.stats == step.stats);
                    assert(effects.deep_view() =~= had + new);
                    assert(rendered_all(self.position, whole.emissions) =~= rendered_all(
                        self.position,
                        so_far.emissions,
                    ) + rendered_all(self.position, step.emissions));
                    seen = seen.push(line);
                }
                i = if end < bytes.len() {
                    end + 1
                } else {
                    end
                };
            }
        }
        assert(seen =~= lines(bytes@, offset as int));
        effects
    }

    /// The sentinel has arrived: hands over what is left in the buffer, to be
    /// written out, and the counters, to be sent as the final report.
    pub fn finish(self) -> (last: (Vec<u8>, Stats))
        ensures
            last.0 == self.out,
            last.1 == self.stats,
            self.wf() ==> last.0@ == render(self.position, self.pending@),
    {
        (self.out, self.stats)
    }

    /// The queue was found empty: counts the wait and says how many
    /// milliseconds to sleep, which is the new count.
    pub fn idle(&mut self) -> (millis: u64)
        requires
            old(self).stats.waits < usize::MAX,
        ensures
            final(self).stats.waits == old(self).stats.waits + 1,
            millis == final(self).stats.waits,
            final(self).stats.cracked == old(self).stats.cracked,
            final(self).stats.hashed == old(self).stats.hashed,
            final(self).stats.kbs == old(self).stats.kbs,
            final(self).pattern == old(self).pattern,
            final(self).position == old(self).position,
            final(self).out == old(self).out,
            final(self).pending == old(self).pending,
    {
        self.stats.waits = self.stats.waits + 1;
        self.stats.waits as u64
    }
}

/// Appends `bytes` to `out`.
fn append_bytes(out: &mut Vec<u8>, bytes: &[u8])
    ensures
        final(out)@ == old(out)@ + bytes@,
{
    out.extend_from_slice(bytes);
    assert(out@ =~= old(out)@ + bytes@);
}

} // verus!
