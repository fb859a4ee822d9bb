//! The dispatcher: carves the file into chunks that end on a line boundary and
//! decides, after each chunk, whether to look at the workers' reports and
//! whether to slide the page-cache window.

use crate::lines::find_line_end;
use crate::lines::lemma_line_end;
use crate::lines::is_line;
use crate::lines::is_line_of;
use crate::lines::lemma_lines_complete;
use crate::lines::lemma_lines_of_piece;
use crate::lines::lemma_lines_sound;
use crate::lines::lemma_lines_split;
use crate::lines::line_end;
use crate::lines::lines;
use crate::lines::lines_from;
use crate::lines::Line;
use crate::lines::NEWLINE;
use crate::stats::Stats;
use crate::window::Prefetch;
use crate::window::Window;
use vstd::prelude::*;
use vstd::slice::slice_to_vec;

verus! {

/// The workers' reports are looked at once in this many chunks.
pub const CHECK_THRESH: usize = 50;

/// A piece of the file for one worker: a copy of the bytes and the offset of
/// the first of them.
#[derive(Debug)]
pub struct Chunk {
    pub offset: usize,
    pub bytes: Vec<u8>,
}

/// A chunk to enqueue, and whether to poll the reports once afterwards.
#[derive(Debug)]
pub struct Outgoing {
    pub chunk: Chunk,
    pub checkin: bool,
}

/// A move of the page-cache window: drop the pages before `evict_upto`, then
/// read `prefetch`.
#[derive(Clone, Copy, Debug, PartialEq, Eq, Structural)]
pub struct Slide {
    pub evict_upto: usize,
    pub prefetch: Prefetch,
}

/// Where a chunk that starts at `pos` would end if lines did not matter.
pub open spec fn tentative_end(length: int, pos: int, chunk_size: int) -> int {
    if pos + chunk_size >= length {
        length
    } else {
        pos + chunk_size
    }
}

/// Where the chunk that starts at `pos` ends: at the tentative end if a
/// newline stands just before it, else just after the next newline, else at
/// the end of the data.
pub open spec fn chunk_end(data: Seq<u8>, pos: int, chunk_size: int) -> int {
    let stop = line_end(data, tentative_end(data.len() as int, pos, chunk_size) - 1) + 1;
    if stop > data.len() {
        data.len() as int
    } else {
        stop
    }
}

/// A chunk reaches at least as far as its size asks, ends right after a
/// newline or at the end of the data, and ends at the first such place. With
/// a chunk size of two or more, the chunk after it starts further on.
pub proof fn lemma_chunk_end(data: Seq<u8>, pos: int, chunk_size: int)
    requires
        0 <= pos,
        pos + 1 < data.len(),
        chunk_size >= 1,
    ensures
        ({
            let from = tentative_end(data.len() as int, pos, chunk_size);
            let to = chunk_end(data, pos, chunk_size);
            &&& pos < from <= to <= data.len()
            &&& to == data.len() || data[to - 1] == NEWLINE
            &&& forall|k: int| from - 1 <= k < to - 1 ==> data[k] != NEWLINE
            &&& chunk_size >= 2 ==> pos < to - 1
        }),
{
    let from = tentative_end(data.len() as int, pos, chunk_size);
    lemma_line_end(data, from - 1);
}

/// The stretch `[start, end)` of the file that one chunk holds.
pub struct Span {
    pub start: int,
    pub end: int,
}

/// The chunks dispatched from the cursor `pos` on, when nothing stops the
/// dispatcher early: the chunk at `pos`, then the chunks from its last byte.
pub open spec fn chunks_from(data: Seq<u8>, pos: int, chunk_size: int) -> Seq<Span>
    decreases data.len() - pos,
{
    let end = chunk_end(data, pos, chunk_size);
    if 0 <= pos && pos + 1 < data.len() && pos < end - 1 < data.len() {
        seq![Span { start: pos, end }] + chunks_from(data, end - 1, chunk_size)
    } else {
        Seq::empty()
    }
}

/// The lines that a worker finds in the chunk `span`, with their offsets in
/// the file.
pub open spec fn chunk_lines(data: Seq<u8>, span: Span) -> Seq<Line> {
    lines(data.subrange(span.start, span.end), span.start)
}

/// The lines found in `spans`, chunk after chunk.
pub open spec fn lines_of_chunks(data: Seq<u8>, spans: Seq<Span>) -> Seq<Line>
    decreases spans.len(),
{
    if spans.len() == 0 {
        Seq::empty()
    } else {
        chunk_lines(data, spans.first()) + lines_of_chunks(data, spans.drop_first())
    }
}

/// No line is split and none is lost: from a cursor that stands at the start
/// of the file or on a newline, the chunks hold, one after the other, exactly
/// the lines that the file has from there on.
pub proof fn lemma_chunks_cover(data: Seq<u8>, pos: int, chunk_size: int)
    requires
        chunk_size >= 2,
        0 <= pos,
        pos + 1 < data.len(),
        pos == 0 || data[pos] == NEWLINE,
    ensures
        lines_of_chunks(data, chunks_from(data, pos, chunk_size)) == lines_from(data, pos, 0),
    decreases data.len() - pos,
{
    let end = chunk_end(data, pos, chunk_size);
    lemma_chunk_end(data, pos, chunk_size);
    let span = Span { start: pos, end };
    let rest = chunks_from(data, end - 1, chunk_size);
    let all = chunks_from(data, pos, chunk_size);
    assert(all == seq![span] + rest);
    assert(all.first() == span);
    assert(all.drop_first() =~= rest);
    lemma_lines_of_piece(data, pos, end, 0, 0);
    lemma_lines_split(data, pos, end, 0);
    let here = chunk_lines(data, span);
    assert(here == lines_from(data.take(end), pos, 0));
    assert(lines_of_chunks(data, all) == here + lines_of_chunks(data, rest));
    if end == data.len() {
        assert(rest =~= Seq::<Span>::empty());
        assert(lines_from(data, end, 0) =~= Seq::<Line>::empty());
        assert(here + Seq::<Line>::empty() =~= here);
    } else {
        lemma_chunks_cover(data, end - 1, chunk_size);
        assert(line_end(data, end - 1) == end - 1);
        assert(lines_from(data, end - 1, 0) == lines_from(data, end, 0));
    }
}

/// The whole file: unless it is a single byte, its chunks hold exactly its
/// lines, in order.
pub proof fn lemma_file_covered(data: Seq<u8>, chunk_size: int)
    requires
        chunk_size >= 2,
        data.len() != 1,
    ensures
        lines_of_chunks(data, chunks_from(data, 0, chunk_size)) == lines(data, 0),
{
    if data.len() >= 2 {
        lemma_chunks_cover(data, 0, chunk_size);
    }
}

/// The chunk boundary law: every chunk of a run lies inside the file, starts
/// on the last byte of the chunk before it, and ends right after a newline or
/// at the end of the file.
pub proof fn lemma_chunks_end_on_lines(data: Seq<u8>, pos: int, chunk_size: int)
    requires
        chunk_size >= 2,
        0 <= pos,
    ensures
        forall|k: int|
            0 <= k < chunks_from(data, pos, chunk_size).len() ==> {
                let span = #[trigger] chunks_from(data, pos, chunk_size)[k];
                &&& pos <= span.start < span.end - 1 < data.len()
                &&& span.end == data.len() || data[span.end - 1] == NEWLINE
                &&& k == 0 ==> span.start == pos
                &&& k > 0 ==> span.start == chunks_from(data, pos, chunk_size)[k - 1].end - 1
            },
    decreases data.len() - pos,
{
    let all = chunks_from(data, pos, chunk_size);
    if all.len() > 0 {
        let end = chunk_end(data, pos, chunk_size);
        lemma_chunk_end(data, pos, chunk_size);
        let rest = chunks_from(data, end - 1, chunk_size);
        lemma_chunks_end_on_lines(data, end - 1, chunk_size);
        assert forall|k: int| 0 <= k < all.len() implies {
            let span = #[trigger] all[k];
            &&& pos <= span.start < span.end - 1 < data.len()
            &&& span.end == data.len() || data[span.end - 1] == NEWLINE
            &&& k == 0 ==> span.start == pos
            &&& k > 0 ==> span.start == all[k - 1].end - 1
        } by {
            if k > 0 {
                assert(all[k] == rest[k - 1]);
                if k > 1 {
                    assert(all[k - 1] == rest[k - 2]);
                }
            }
        }
    }
}

/// A line found in some chunks is found in one of them.
pub proof fn lemma_line_of_some_chunk(data: Seq<u8>, spans: Seq<Span>, line: Line)
    requires
        lines_of_chunks(data, spans).contains(line),
    ensures
        exists|k: int| 0 <= k < spans.len() && chunk_lines(data, #[trigger] spans[k]).contains(line),
    decreases spans.len(),
{
    if spans.len() > 0 {
        let here = chunk_lines(data, spans.first());
        let rest = lines_of_chunks(data, spans.drop_first());
        let i = choose|i: int|
            0 <= i < lines_of_chunks(data, spans).len() && lines_of_chunks(data, spans)[i] == line;
        if i < here.len() {
            assert(here[i] == line);
            assert(chunk_lines(data, spans[0]).contains(line));
        } else {
            assert(rest[i - here.len()] == line);
            lemma_line_of_some_chunk(data, spans.drop_first(), line);
            let k = choose|k: int|
                0 <= k < spans.drop_first().len() && chunk_lines(
                    data,
                    #[trigger] spans.drop_first()[k],
                ).contains(line);
            assert(spans[k + 1] == spans.drop_first()[k]);
        }
    }
}

/// No line is split across two chunks: unless the file is a single byte,
/// every line of it lies, whole, inside one chunk of the run.
pub proof fn lemma_no_line_is_split(data: Seq<u8>, chunk_size: int, start: int, end: int)
    requires
        chunk_size >= 2,
        data.len() != 1,
        is_line(data, start, end),
    ensures
        exists|k: int|
            {
                &&& 0 <= k < chunks_from(data, 0, chunk_size).len()
                &&& (#[trigger] chunks_from(data, 0, chunk_size)[k]).start <= start
                &&& end <= chunks_from(data, 0, chunk_size)[k].end
            },
{
    let spans = chunks_from(data, 0, chunk_size);
    let line = Line { offset: start, text: data.subrange(start, end) };
    lemma_lines_complete(data, 0, 0, start, end);
    lemma_file_covered(data, chunk_size);
    assert(lines_of_chunks(data, spans).contains(line));
    lemma_line_of_some_chunk(data, spans, line);
    let k = choose|k: int| 0 <= k < spans.len() && chunk_lines(data, #[trigger] spans[k]).contains(line);
    lemma_chunks_end_on_lines(data, 0, chunk_size);
    let span = spans[k];
    let piece = data.subrange(span.start, span.end);
    lemma_lines_sound(piece, 0, span.start);
    let found = chunk_lines(data, span);
    let i = choose|i: int| 0 <= i < found.len() && found[i] == line;
    assert(is_line_of(piece, span.start, found[i]));
}

/// The dispatcher between two chunks, or between a chunk and its settlement.
pub struct Dispatcher {
    pub window: Window,
    pub chunk_size: usize,
    /// Stop as soon as a match has been reported.
    pub first: bool,
    /// Where the next chunk starts.
    pub pos: usize,
    /// One more than the number of chunks settled.
    pub count: usize,
    pub stats: Stats,
    /// A match was reported in `first` mode; nothing more is dispatched.
    pub stopped: bool,
    /// A chunk has been handed out and `settle` has not been called for it.
    pub awaiting: bool,
}

impl Dispatcher {
    /// The sizes allow progress, the cursor is inside the file, and the
    /// counters are bounded by the cursor.
    pub open spec fn wf(&self) -> bool {
        &&& self.window.wf()
        &&& self.window.cache_size >= 2
        &&& self.chunk_size >= 2
        &&& self.pos <= self.window.length
        &&& self.awaiting ==> self.pos < self.window.length
        &&& 1 <= self.count
        &&& self.count <= self.pos + if self.awaiting {
            0int
        } else {
            1int
        }
        &&& self.stats.kbs <= self.pos
    }

    /// There is something left to dispatch.
    pub open spec fn has_more(&self) -> bool {
        !self.stopped && self.pos + 1 < self.window.length
    }

    /// The window is to slide now: the cursor stands within a chunk of a
    /// multiple of half the window, and not all of the file has been read
    /// ahead.
    pub open spec fn slide_due(&self) -> bool {
        &&& self.pos as int % self.window.half() <= self.chunk_size
        &&& self.window.cache_point < self.window.length
    }

    /// A dispatcher at the start of the file.
    pub fn new(window: Window, chunk_size: usize, first: bool) -> (d: Dispatcher)
        requires
            window.wf(),
            window.cache_size >= 2,
            chunk_size >= 2,
        ensures
            d.wf(),
            d.window == window,
            d.chunk_size == chunk_size,
            d.first == first,
            d.pos == 0,
            d.count == 1,
            d.stats == (Stats { cracked: 0, hashed: 0, waits: 0, kbs: 0 }),
            !d.stopped,
            !d.awaiting,
    {
        Dispatcher {
            window,
            chunk_size,
            first,
            pos: 0,
            count: 1,
            stats: Stats::new(),
            stopped: false,
            awaiting: false,
        }
    }

    /// Says whether another chunk is to be dispatched.
    pub fn more(&self) -> (b: bool)
        ensures
            b == self.has_more(),
    {
        !self.stopped && self.window.length > 1 && self.pos < self.window.length - 1
    }

    /// Cuts the next chunk out of `data`, which is the whole file.
    ///
    /// The chunk starts at the cursor. The cursor moves to the last byte of
    /// the chunk, so that the next chunk starts on the newline that ends this
    /// one. The kilobytes of the chunk are counted.
    pub fn next_chunk(&mut self, data: &[u8]) -> (out: Outgoing)
        requires
            old(self).wf(),
            old(self).has_more(),
            !old(self).awaiting,
            data@.len() == old(self).window.length,
        ensures
            final(self).wf(),
            final(self).awaiting,
            out.chunk.offset == old(self).pos,
            out.chunk.bytes@ == data@.subrange(
                old(self).pos as int,
                chunk_end(data@, old(self).pos as int, old(self).chunk_size as int),
            ),
            out.chunk.bytes@.len() >= 2,
            final(self).pos > old(self).pos,
            out.chunk.offset + out.chunk.bytes@.len() == data@.len() || out.chunk.bytes@.last()
                == NEWLINE,
            chunks_from(data@, old(self).pos as int, old(self).chunk_size as int) == seq![
                Span {
                    start: old(self).pos as int,
                    end: chunk_end(data@, old(self).pos as int, old(self).chunk_size as int),
                },
            ] + chunks_from(data@, final(self).pos as int, old(self).chunk_size as int),
            out.checkin == (old(self).count % CHECK_THRESH == 0),
            final(self).pos == chunk_end(data@, old(self).pos as int, old(self).chunk_size as int)
                - 1,
            final(self).stats.kbs == old(self).stats.kbs + out.chunk.bytes@.len() / 1024,
            final(self).stats.cracked == old(self).stats.cracked,
            final(self).stats.hashed == old(self).stats.hashed,
            final(self).stats.waits == old(self).stats.waits,
            final(self).window == old(self).window,
            final(self).chunk_size == old(self).chunk_size,
            final(self).first == old(self).first,
            final(self).count == old(self).count,
            final(self).stopped == old(self).stopped,
    {
        let length = self.window.length;
        let pos = self.pos;
        proof {
            lemma_chunk_end(data@, pos as int, self.chunk_size as int);
        }
        let from = if self.chunk_size >= length - pos {
            length
        } else {
            pos + self.chunk_size
        };
        let newline = find_line_end(data, from - 1);
        let to = if newline < length {
            newline + 1
        } else {
            length
        };
        let bytes = slice_to_vec(&data[pos..to]);
        self.stats.kbs = self.stats.kbs + (to - pos) / 1024;
        self.pos = to - 1;
        self.awaiting = true;
        Outgoing { chunk: Chunk { offset: pos, bytes }, checkin: self.count % CHECK_THRESH == 0 }
    }

    /// Closes the round of the chunk last handed out.
    ///
    /// `report` is what a poll of the workers' reports has given, if one was
    /// made and found something. It is taken into the counters. In `first`
    /// mode a report that brings the matches to one or more stops the
    /// dispatcher. Otherwise the round is counted, and if the window is due to
    /// slide, the cache point moves on and the eviction and the read to carry
    /// out are returned.
    pub fn settle(&mut self, report: Option<Stats>) -> (slide: Option<Slide>)
        requires
            old(self).wf(),
            old(self).awaiting,
            report matches Some(s) ==> old(self).stats@.joined(s@).fits(),
        ensures
            final(self).wf(),
            !final(self).awaiting,
            final(self).pos == old(self).pos,
            final(self).chunk_size == old(self).chunk_size,
            final(self).first == old(self).first,
            final(self).window.length == old(self).window.length,
            final(self).window.cache_size == old(self).window.cache_size,
            final(self).stats@ == match report {
                Some(s) => old(self).stats@.joined(s@),
                None => old(self).stats@,
            },
            final(self).stopped == (old(self).stopped || (old(self).first && report is Some
                && final(self).stats.cracked >= 1)),
            final(self).stopped && !old(self).stopped ==> {
                &&& slide is None
                &&& final(self).count == old(self).count
                &&& final(self).window == old(self).window
            },
            !(final(self).stopped && !old(self).stopped) ==> {
                &&& final(self).count == old(self).count + 1
                &&& slide == if old(self).slide_due() {
                    Some(
                        Slide {
                            evict_upto: old(self).pos,
                            prefetch: Prefetch {
                                offset: old(self).window.cache_point,
                                length: (old(self).window.cache_size / 2) as usize,
                            },
                        },
                    )
                } else {
                    None::<Slide>
                }
                &&& final(self).window.cache_point == if !old(self).slide_due() {
                    old(self).window.cache_point as int
                } else if old(self).window.cache_point + old(self).window.half()
                    >= old(self).window.length {
                    old(self).window.length as int
                } else {
                    old(self).window.cache_point + old(self).window.half()
                }
            },
            old(self).window.cache_point <= final(self).window.cache_point <= old(
                self,
            ).window.length,
    {
        self.awaiting = false;
        match report {
            Some(s) => {
                self.stats.absorb(&s);
                if self.first && self.stats.cracked >= 1 && !self.stopped {
                    self.stopped = true;
                    return None;
                }
            },
            None => {},
        }
        self.count = self.count + 1;
        let half = self.window.cache_size / 2;
        if self.pos % half <= self.chunk_size && self.window.cache_point < self.window.length {
            let evict_upto = self.pos;
            let prefetch = self.window.prefetch_next_half();
            Some(Slide { evict_upto, prefetch })
        } else {
            None
        }
    }
}

} // verus!
