//! The page-cache window: how much of the file has been read ahead, and what
//! to read next.

use vstd::prelude::*;

verus! {

/// A stretch of the file to read through, so that it lands in the page cache.
#[derive(Clone, Copy, Debug, PartialEq, Eq, Structural)]
pub struct Prefetch {
    pub offset: usize,
    pub length: usize,
}

/// The window over a file of `length` bytes. Everything before `cache_point`
/// has been asked for.
#[derive(Clone, Copy, Debug, PartialEq, Eq, Structural)]
pub struct Window {
    pub length: usize,
    pub cache_size: usize,
    pub cache_point: usize,
}

/// The number of pages that hold `length` bytes.
pub open spec fn pages_needed(length: int, page_size: int) -> int {
    if length % page_size == 0 {
        length / page_size
    } else {
        length / page_size + 1
    }
}

/// The number of entries of `answer` whose lowest bit is set.
pub open spec fn resident_count(answer: Seq<u8>) -> nat
    decreases answer.len(),
{
    if answer.len() == 0 {
        0
    } else {
        resident_count(answer.drop_last()) + if answer.last() % 2 == 1 {
            1nat
        } else {
            0nat
        }
    }
}

/// Less than 97 in a hundred pages are resident.
pub open spec fn mostly_absent(resident: int, pages: int) -> bool {
    resident * 100 < pages * 97
}

/// Calls `page_size::get`, which asks the operating system for the size of a
/// memory page. Nothing is claimed about the number.
#[verifier::external_body]
fn system_page_size() -> usize {
    page_size::get()
}

/// Counts the pages that hold `length` bytes when a page has `page_size` bytes.
pub fn page_count(length: usize, page_size: usize) -> (pages: usize)
    requires
        page_size > 0,
    ensures
        pages == pages_needed(length as int, page_size as int),
{
    let whole = length / page_size;
    let pages = if length % page_size == 0 {
        whole
    } else {
        assert(page_size >= 2) by {
            if page_size == 1 {
                assert(length as int % 1 == 0);
            }
        }
        assert(length >= 1) by {
            if length == 0 {
                assert(0int % page_size as int == 0);
            }
        }
        assert(whole < length) by (nonlinear_arith)
            requires
                page_size >= 2,
                length >= 1,
                whole == length as int / page_size as int,
        ;
        whole + 1
    };
    pages
}

/// Counts the pages of a file of `length` bytes on this machine, or gives
/// `None` should the machine report pages of no size.
pub fn pages_here(length: usize) -> (pages: Option<usize>)
    ensures
        pages matches Some(n) ==> exists|page_size: int|
            page_size > 0 && n == #[trigger] pages_needed(length as int, page_size),
{
    pages_for(length, system_page_size())
}

/// Counts the pages of a file of `length` bytes for a reported page size:
/// `None` for pages of no size, else the number of pages that hold the file.
pub fn pages_for(length: usize, page_size: usize) -> (pages: Option<usize>)
    ensures
        page_size == 0 <==> pages is None,
        pages matches Some(n) ==> n == pages_needed(length as int, page_size as int),
{
    if page_size == 0 {
        None
    } else {
        Some(page_count(length, page_size))
    }
}

/// Counts the resident pages in the answer of a residency probe, which holds
/// one byte per page with the lowest bit set for a page in memory.
pub fn resident_pages(answer: &[u8]) -> (resident: usize)
    ensures
        resident == resident_count(answer@),
        resident <= answer@.len(),
{
    let mut resident: usize = 0;
    let mut i: usize = 0;
    while i < answer.len()
        invariant
            i <= answer@.len(),
            resident == resident_count(answer@.take(i as int)),
            resident <= i,
        decreases answer@.len() - i,
    {
        assert(answer@.take(i + 1).drop_last() =~= answer@.take(i as int));
        if answer[i] % 2 == 1 {
            resident += 1;
        }
        i += 1;
    }
    assert(answer@.take(i as int) =~= answer@);
    resident
}

/// Decides whether the file has to be warmed up: yes when fewer than 97 in a
/// hundred of its pages are resident.
pub fn needs_warmup(resident: usize, pages: usize) -> (needed: bool)
    ensures
        needed == mostly_absent(resident as int, pages as int),
{
    (resident as u128) * 100 < (pages as u128) * 97
}

impl Prefetch {
    /// The number of reads, each of `block_size` bytes, that are issued for
    /// this stretch: one more than the whole blocks in it.
    pub fn reads(&self, block_size: usize) -> (n: usize)
        requires
            block_size > 0,
            self.length / block_size < usize::MAX,
        ensures
            n == self.length / block_size + 1,
    {
        self.length / block_size + 1
    }
}

impl Window {
    /// The cache point lies inside the file and the window can be halved.
    pub open spec fn wf(&self) -> bool {
        self.cache_point <= self.length
    }

    /// Half the window, the step by which it slides.
    pub open spec fn half(&self) -> int {
        self.cache_size as int / 2
    }

    /// Sets the window up from what the residency probe has found.
    ///
    /// A file that is mostly absent from the page cache is warmed from its
    /// start: all of it when it fits in the window, else as much as the window
    /// holds. A file that is already resident needs nothing.
    pub fn init(length: usize, cache_size: usize, resident: usize, pages: usize) -> (r: (
        Window,
        Option<Prefetch>,
    ))
        ensures
            r.0.wf(),
            r.0.length == length,
            r.0.cache_size == cache_size,
            r.0.cache_point == if mostly_absent(resident as int, pages as int) && length
                > cache_size {
                cache_size
            } else {
                length
            },
            r.1 == if mostly_absent(resident as int, pages as int) {
                Some(Prefetch { offset: 0, length: r.0.cache_point })
            } else {
                None::<Prefetch>
            },
    {
        if needs_warmup(resident, pages) {
            let warm = if length > cache_size {
                cache_size
            } else {
                length
            };
            (
                Window { length, cache_size, cache_point: warm },
                Some(Prefetch { offset: 0, length: warm }),
            )
        } else {
            (Window { length, cache_size, cache_point: length }, None)
        }
    }

    /// Moves the cache point half a window ahead, but not past the end of the
    /// file, and says what to read: half a window from the old cache point.
    pub fn prefetch_next_half(&mut self) -> (read: Prefetch)
        requires
            old(self).wf(),
        ensures
            final(self).wf(),
            final(self).length == old(self).length,
            final(self).cache_size == old(self).cache_size,
            final(self).cache_point == if old(self).cache_point + old(self).half() >= old(
                self,
            ).length {
                old(self).length as int
            } else {
                old(self).cache_point + old(self).half()
            },
            old(self).cache_point <= final(self).cache_point <= old(self).length,
            read == (Prefetch { offset: old(self).cache_point, length: (old(self).cache_size / 2) as usize }),
    {
        let half = self.cache_size / 2;
        let read = Prefetch { offset: self.cache_point, length: half };
        if half >= self.length - self.cache_point {
            self.cache_point = self.length;
        } else {
            self.cache_point = self.cache_point + half;
        }
        read
    }
}

} // verus!
