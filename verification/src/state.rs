//! A resumable snapshot of one run: the remaining frontier entries and
//! the visited set.

use vstd::prelude::*;
use crate::codec::{entry_views_u64, parse_state_json, quote_free, state_json, state_to_json};

verus! {

/// What a run leaves behind and a later run can resume from.
pub struct CrawlState {
    /// The remaining `(url, depth)` work items.
    pub queue: Vec<(String, usize)>,
    /// The URLs already claimed.
    pub visited: Vec<String>,
}

impl CrawlState {
    /// The JSON snapshot of this state: the queue, then the visited
    /// set.  URLs are written unescaped — a URL cannot contain a
    /// quote — so text holding a quoted URL would not reparse.
    pub fn to_json(&self) -> (r: String)
        ensures
            r@ == state_json(entry_views_u64(self.queue@), self.visited.deep_view()),
    {
        state_to_json(&self.queue, &self.visited)
    }

    /// Decodes a snapshot: succeeds exactly on the snapshot text of a
    /// state whose URLs are quote-free and whose depths the platform
    /// can hold, and returns the exact decoding.
    pub fn parse(s: &str) -> (r: Option<CrawlState>)
        ensures
            match r {
                Some(st) => {
                    &&& s@ == state_json(entry_views_u64(st.queue@), st.visited.deep_view())
                    &&& (forall|k: int|
                        0 <= k < entry_views_u64(st.queue@).len() ==> quote_free(
                            (#[trigger] entry_views_u64(st.queue@)[k]).0,
                        ))
                    &&& (forall|k: int|
                        0 <= k < entry_views_u64(st.queue@).len() ==> (#[trigger] entry_views_u64(
                            st.queue@,
                        )[k]).1 <= usize::MAX as u64)
                    &&& (forall|k: int|
                        0 <= k < st.visited.deep_view().len() ==> quote_free(
                            #[trigger] st.visited.deep_view()[k],
                        ))
                },
                None => forall|q: Seq<(Seq<char>, u64)>, v: Seq<Seq<char>>|
                    ((forall|k: int| 0 <= k < q.len() ==> quote_free((#[trigger] q[k]).0)) && (
                    forall|k: int|
                        0 <= k < q.len() ==> (#[trigger] q[k]).1 <= usize::MAX as u64) && (
                    forall|k: int| 0 <= k < v.len() ==> quote_free(#[trigger] v[k]))) ==> s@
                        != state_json(q, v),
            },
    {
        match parse_state_json(s) {
            Some((queue, visited)) => Some(CrawlState { queue, visited }),
            None => None,
        }
    }
}

/// The `(url, depth)` entries of `q`, as character sequences.
pub open spec fn entry_views(q: Seq<(String, usize)>) -> Seq<(Seq<char>, nat)> {
    Seq::new(q.len(), |i: int| (q[i].0@, q[i].1 as nat))
}

} // verus!
