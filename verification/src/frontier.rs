//! The crawl frontier: a multi-producer/multi-consumer queue of
//! `(url, depth)` work items, backed by `crossbeam`'s `SegQueue`.
//!
//! The queue is internally synchronized and promises no pop order, so
//! its contents are modelled as a multiset of `(url, depth)` pairs.

use vstd::prelude::*;
use vstd::multiset::Multiset;

verus! {

/// Work queue of `(url, depth)` entries awaiting a worker.
#[verifier::external_body]
pub struct Frontier {
    queue: crossbeam::queue::SegQueue<(String, usize)>,
}

/// The multiset of `(url, depth)` entries currently in `f`.
pub uninterp spec fn frontier_contents(f: Frontier) -> Multiset<(Seq<char>, nat)>;

impl Frontier {
    /// Relies on `crossbeam::queue::SegQueue::new`: a fresh queue is empty.
    #[verifier::external_body]
    pub fn new() -> (r: Frontier)
        ensures
            frontier_contents(r) == Multiset::<(Seq<char>, nat)>::empty(),
    {
        Frontier { queue: crossbeam::queue::SegQueue::new() }
    }

    /// Relies on `crossbeam::queue::SegQueue::push`: the pushed element
    /// joins the queue's contents and nothing else changes.
    #[verifier::external_body]
    pub fn push(&mut self, url: String, depth: usize)
        ensures
            frontier_contents(*final(self)) == frontier_contents(*old(self)).insert(
                (url@, depth as nat),
            ),
    {
        self.queue.push((url, depth));
    }

    /// Relies on `crossbeam::queue::SegQueue::pop`: it returns `None`
    /// exactly when the queue is empty, and otherwise removes and
    /// returns one element of the contents.
    #[verifier::external_body]
    pub fn pop(&mut self) -> (r: Option<(String, usize)>)
        ensures
            match r {
                None => {
                    &&& frontier_contents(*old(self)) == Multiset::<(Seq<char>, nat)>::empty()
                    &&& frontier_contents(*final(self)) == frontier_contents(*old(self))
                },
                Some(entry) => {
                    &&& frontier_contents(*old(self)).contains((entry.0@, entry.1 as nat))
                    &&& frontier_contents(*final(self)) == frontier_contents(*old(self)).remove(
                        (entry.0@, entry.1 as nat),
                    )
                },
            },
    {
        self.queue.pop()
    }

}

} // verus!
