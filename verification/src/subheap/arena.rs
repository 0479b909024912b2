//! The bump arena: whole spans, carved upward and never given back.

use vstd::prelude::*;
use crate::meta::{packed_tag, spans_in, unpacked_tag, SpanTable, SPAN_BYTES};

verus! {

/// A bump allocator over `[base, end)` that hands out whole spans.
pub struct BumpArena {
    cursor: usize,
    end: usize,
    base: usize,
}

impl BumpArena {
    /// First address.
    pub closed spec fn base(&self) -> int {
        self.base as int
    }

    /// Number of bytes, carved or not.
    pub closed spec fn size(&self) -> int {
        self.end - self.base
    }

    /// Number of spans carved so far.
    pub closed spec fn carved(&self) -> int {
        (self.cursor - self.base) / SPAN_BYTES as int
    }

    /// Number of whole spans left to carve.
    pub open spec fn whole_left(&self) -> int {
        self.size() / SPAN_BYTES as int - self.carved()
    }

    /// The cursor stands on the span grid, inside the arena.
    pub closed spec fn wf(&self) -> bool {
        &&& self.base <= self.cursor <= self.end
        &&& (self.cursor - self.base) % SPAN_BYTES as int == 0
    }

    /// What the invariant says of the carved spans.
    pub proof fn lemma_carved(&self)
        requires
            self.wf(),
        ensures
            0 <= self.carved() * SPAN_BYTES <= self.size(),
            0 <= self.carved() <= spans_in(self.size()),
            self.base() + self.size() <= usize::MAX,
            0 <= self.base(),
            0 <= self.size(),
            self.whole_left() >= 0,
    {
    }

    /// An arena over `[base, base + bytes)` with nothing carved.
    pub fn new(base: usize, bytes: usize) -> (a: BumpArena)
        requires
            base + bytes <= usize::MAX,
        ensures
            a.wf(),
            a.base() == base,
            a.size() == bytes,
            a.carved() == 0,
    {
        BumpArena { cursor: base, end: base + bytes, base }
    }

    /// Carve up to `num_spans` whole spans and assign them to `(class, home)`.
    /// Returns the range carved, which is empty if no whole span is left.
    pub fn carve_spans(
        &mut self,
        num_spans: usize,
        class: u16,
        home: u16,
        spans: &mut SpanTable,
    ) -> (r: (usize, usize))
        requires
            old(self).wf(),
            old(spans).wf(),
            old(spans).base() == old(self).base(),
            old(spans).size() == old(self).size(),
            num_spans >= 1,
        ensures
            final(self).wf(),
            final(self).base() == old(self).base(),
            final(self).size() == old(self).size(),
            final(spans).wf(),
            final(spans).base() == old(spans).base(),
            final(spans).size() == old(spans).size(),
            final(self).carved() == old(self).carved() + (if num_spans < old(self).whole_left() {
                num_spans as int
            } else {
                old(self).whole_left()
            }),
            old(self).whole_left() == 0 ==> *final(self) == *old(self) && *final(spans) == *old(spans),
            r.1 - r.0 <= num_spans * 65536,
            r.1 - r.0 < num_spans * 65536 ==> r.1 + 65536 > old(self).base() + old(self).size(),
            r.1 <= old(self).base() + old(self).size(),
            (r.1 - r.0) % 65536 == 0,
            r.0 == old(self).base() + old(self).carved() * SPAN_BYTES,
            r.1 == old(self).base() + final(self).carved() * SPAN_BYTES,
            forall|s: int|
                0 <= s < spans_in(old(self).size()) ==> #[trigger] final(spans).tag(s) == (if old(
                    self,
                ).carved() <= s < final(self).carved() {
                    unpacked_tag(packed_tag(class as int, home as int) as u32)
                } else {
                    old(spans).tag(s)
                }),
    {
        let start: usize = self.cursor;
        let avail: usize = (self.end - start) / SPAN_BYTES;
        if avail == 0 {
            return (start, start);
        }
        let take: usize = if num_spans < avail {
            num_spans
        } else {
            avail
        };
        let run_end: usize = start + take * SPAN_BYTES;
        self.cursor = run_end;
        spans.assign_range(start, run_end - start, class, home);
        (start, run_end)
    }

    /// Bytes carved so far, of an arena of `budget` bytes.
    pub fn carved_bytes(&self, budget: usize) -> (n: usize)
        requires
            self.wf(),
            budget == self.size(),
        ensures
            n == self.carved() * SPAN_BYTES,
    {
        let base: usize = self.end - budget;
        self.cursor.saturating_sub(base)
    }

    /// Carve exactly `run_bytes` bytes (whole spans), or nothing.
    pub fn carve_run(&mut self, run_bytes: usize) -> (r: Option<usize>)
        requires
            old(self).wf(),
            run_bytes % SPAN_BYTES == 0,
        ensures
            final(self).wf(),
            final(self).base() == old(self).base(),
            final(self).size() == old(self).size(),
            r.is_some() <==> run_bytes / SPAN_BYTES <= old(self).whole_left(),
            r is None ==> *final(self) == *old(self),
            r is None ==> old(self).base() + old(self).carved() * 65536 + run_bytes > old(self).base()
                + old(self).size(),
            r matches Some(start) ==> start + run_bytes <= old(self).base() + old(self).size()
                && final(self).carved() * 65536 == old(self).carved() * 65536 + run_bytes,
            r matches Some(start) ==> {
                &&& start == old(self).base() + old(self).carved() * SPAN_BYTES
                &&& final(self).carved() == old(self).carved() + run_bytes / SPAN_BYTES
            },
    {
        let rel: usize = self.cursor - self.base;
        let start: usize = self.base + (rel / SPAN_BYTES) * SPAN_BYTES;
        let end: usize = match start.checked_add(run_bytes) {
            Some(e) => e,
            None => {
                return None;
            },
        };
        if end > self.end {
            return None;
        }
        self.cursor = end;
        Some(start)
    }
}

} // verus!
