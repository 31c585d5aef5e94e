//! The set of URLs already claimed for fetching.  Inserting a URL and
//! checking membership happen in one call, so a URL can be claimed at
//! most once per run.

use vstd::prelude::*;

verus! {

/// Set of URLs that have been claimed for a fetch during this run.
pub struct VisitedSet {
    urls: Vec<String>,
}

proof fn lemma_deep_view_index(v: &Vec<String>, i: int)
    requires
        0 <= i < v@.len(),
    ensures
        v.deep_view().len() == v@.len(),
        v.deep_view()[i] == v@[i]@,
{
}

proof fn lemma_deep_view_len(v: &Vec<String>)
    ensures
        v.deep_view().len() == v@.len(),
{
}

impl VisitedSet {
    /// The claimed URLs in insertion order.
    pub closed spec fn seq_view(&self) -> Seq<Seq<char>> {
        self.urls.deep_view()
    }

    /// The claimed URLs as a set.
    pub open spec fn view(&self) -> Set<Seq<char>> {
        Set::new(|u: Seq<char>| self.seq_view().contains(u))
    }

    /// The stored vector holds no URL twice.
    pub open spec fn wf(&self) -> bool {
        forall|i: int, j: int|
            0 <= i < j < self.seq_view().len() ==> self.seq_view()[i] != self.seq_view()[j]
    }

    /// An empty set.
    pub fn new() -> (r: VisitedSet)
        ensures
            r.wf(),
            r.seq_view() == Seq::<Seq<char>>::empty(),
            r@ == Set::<Seq<char>>::empty(),
    {
        let r = VisitedSet { urls: Vec::new() };
        assert(r.seq_view() =~= Seq::<Seq<char>>::empty());
        assert(r@ =~= Set::<Seq<char>>::empty());
        r
    }

    /// How many URLs have been claimed.
    pub fn len(&self) -> (r: usize)
        ensures
            r == self.seq_view().len(),
    {
        self.urls.len()
    }

    /// Whether `url` has already been claimed.
    pub fn contains(&self, url: &String) -> (r: bool)
        ensures
            r == self@.contains(url@),
    {
        proof {
            lemma_deep_view_len(&self.urls);
        }
        let mut i: usize = 0;
        while i < self.urls.len()
            invariant
                i <= self.urls@.len(),
                self.seq_view().len() == self.urls@.len(),
                forall|j: int| 0 <= j < i ==> self.seq_view()[j] != url@,
            decreases self.urls@.len() - i,
        {
            proof {
                lemma_deep_view_index(&self.urls, i as int);
            }
            if self.urls[i] == *url {
                assert(self.seq_view()[i as int] == url@);
                assert(self@.contains(url@));
                return true;
            }
            i += 1;
        }
        assert(!self.seq_view().contains(url@));
        false
    }

    /// Claims `url` if it is still free: the membership check and the
    /// insertion form one indivisible step, so two claims of the same
    /// URL can never both succeed.
    pub fn check_and_claim(&mut self, url: String) -> (claimed: bool)
        requires
            old(self).wf(),
        ensures
            final(self).wf(),
            claimed == !old(self)@.contains(url@),
            final(self)@ == old(self)@.insert(url@),
            claimed ==> final(self).seq_view() == old(self).seq_view().push(url@),
            !claimed ==> final(self).seq_view() == old(self).seq_view(),
    {
        if self.contains(&url) {
            assert(self@ =~= old(self)@.insert(url@));
            false
        } else {
            let ghost pre = self.urls.deep_view();
            self.urls.push(url);
            assert(self.seq_view() =~= pre.push(url@));
            assert(self@ =~= old(self)@.insert(url@)) by {
                assert(forall|u: Seq<char>| #[trigger] old(self)@.contains(u) ==> self@.contains(u)) by {
                    assert(forall|j: int| 0 <= j < pre.len() ==> self.seq_view()[j] == pre[j]);
                };
                assert(self.seq_view()[pre.len() as int] == url@);
                assert(self@.contains(url@));
            };
            true
        }
    }

    /// A copy of the claimed URLs, in insertion order.
    pub fn to_vec(&self) -> (r: Vec<String>)
        ensures
            r.deep_view() == self.seq_view(),
    {
        let mut r: Vec<String> = Vec::new();
        let mut i: usize = 0;
        while i < self.urls.len()
            invariant
                i <= self.urls@.len(),
                self.seq_view().len() == self.urls@.len(),
                r.deep_view() == self.seq_view().subrange(0, i as int),
            decreases self.urls@.len() - i,
        {
            proof {
                lemma_deep_view_index(&self.urls, i as int);
            }
            let item = self.urls[i].clone();
            let ghost rpre = r.deep_view();
            r.push(item);
            proof {
                lemma_deep_view_len(&r);
                assert(r.deep_view() =~= rpre.push(self.seq_view()[i as int])) by {
                    assert forall|j: int| 0 <= j < r.deep_view().len() implies
                        r.deep_view()[j] == rpre.push(self.seq_view()[i as int])[j] by {
                        lemma_deep_view_index(&r, j);
                    }
                };
            }
            i += 1;
            assert(r.deep_view() =~= self.seq_view().subrange(0, i as int));
        }
        assert(r.deep_view() =~= self.seq_view());
        r
    }

    /// Replaces the whole set, as when a saved run is resumed.
    /// Any duplicate in `urls` is dropped.
    pub fn replace_with(&mut self, urls: Vec<String>)
        ensures
            final(self).wf(),
            final(self)@ == Set::new(
                |u: Seq<char>| exists|i: int| 0 <= i < urls@.len() && urls@[i]@ == u,
            ),
    {
        let mut fresh = VisitedSet { urls: Vec::new() };
        assert(fresh.seq_view() =~= Seq::<Seq<char>>::empty());
        assert(fresh@ =~= Set::<Seq<char>>::empty());
        let mut i: usize = 0;
        while i < urls.len()
            invariant
                i <= urls@.len(),
                fresh.wf(),
                fresh@ == Set::new(|u: Seq<char>| exists|j: int| 0 <= j < i && urls@[j]@ == u),
            decreases urls@.len() - i,
        {
            let item = urls[i].clone();
            fresh.check_and_claim(item);
            i += 1;
            assert(fresh@ =~= Set::new(|u: Seq<char>| exists|j: int| 0 <= j < i && urls@[j]@ == u));
        }
        assert(fresh@ =~= Set::new(|u: Seq<char>| exists|j: int| 0 <= j < urls@.len() && urls@[j]@ == u));
        *self = fresh;
    }
}

} // verus!
