use vstd::prelude::*;

verus! {

/// `a + b`, stopping at the largest representable value.
pub open spec fn sat_add(a: u64, b: u64) -> u64 {
    if a + b > u64::MAX {
        u64::MAX
    } else {
        (a + b) as u64
    }
}

/// Monotonic counters describing the progress of one crawl run.
///
/// `start_time` is the run's start timestamp in milliseconds; the
/// caller supplies it, since reading a clock is outside this library.
#[derive(Clone, Copy, Debug)]
pub struct CrawlStats {
    pub pages_visited: u64,
    pub links_followed: u64,
    pub links_ignored: u64,
    pub start_time: u64,
}

impl CrawlStats {
    /// Fresh counters for a run that starts at `now_millis`.
    pub fn new(now_millis: u64) -> (r: CrawlStats)
        ensures
            r.pages_visited == 0,
            r.links_followed == 0,
            r.links_ignored == 0,
            r.start_time == now_millis,
    {
        CrawlStats {
            pages_visited: 0,
            links_followed: 0,
            links_ignored: 0,
            start_time: now_millis,
        }
    }

    /// Counts one fetched page.
    pub fn record_page(&mut self)
        ensures
            final(self).pages_visited == sat_add(old(self).pages_visited, 1),
            final(self).links_followed == old(self).links_followed,
            final(self).links_ignored == old(self).links_ignored,
            final(self).start_time == old(self).start_time,
    {
        if self.pages_visited < u64::MAX {
            self.pages_visited = self.pages_visited + 1;
        }
    }

    /// Merges one page's accepted and rejected link counts.
    pub fn merge_links(&mut self, followed: u64, ignored: u64)
        ensures
            final(self).pages_visited == old(self).pages_visited,
            final(self).links_followed == sat_add(old(self).links_followed, followed),
            final(self).links_ignored == sat_add(old(self).links_ignored, ignored),
            final(self).start_time == old(self).start_time,
    {
        if self.links_followed <= u64::MAX - followed {
            self.links_followed = self.links_followed + followed;
        } else {
            self.links_followed = u64::MAX;
        }
        if self.links_ignored <= u64::MAX - ignored {
            self.links_ignored = self.links_ignored + ignored;
        } else {
            self.links_ignored = u64::MAX;
        }
    }
}

} // verus!
