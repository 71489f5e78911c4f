//! Keyed page storage: a map from a pair of numbers to the bytes of a page.

use std::collections::HashMap;
use vstd::prelude::*;
use vstd::std_specs::hash::*;

verus! {

broadcast use group_hash_axioms;

/// The single number under which the pair `(major, minor)` is filed.
pub open spec fn filing_key(major: u32, minor: u32) -> u64 {
    (major as u64 * 0x1_0000_0000 + minor as u64) as u64
}

/// Distinct pairs are filed under distinct numbers.
pub proof fn lemma_filing_key_injective(a: (u32, u32), b: (u32, u32))
    ensures
        filing_key(a.0, a.1) == filing_key(b.0, b.1) <==> a == b,
{
}

/// Pages keyed by a pair of numbers.
pub struct PageStore {
    pages: HashMap<u64, Vec<u8>>,
}

impl PageStore {
    /// The stored pages, by key.
    pub closed spec fn view(&self) -> Map<(u32, u32), Seq<u8>> {
        Map::new(
            |k: (u32, u32)| self.pages@.contains_key(filing_key(k.0, k.1)),
            |k: (u32, u32)| self.pages@[filing_key(k.0, k.1)]@,
        )
    }

    /// A store without pages.
    pub fn new() -> (store: PageStore)
        ensures
            store@ == Map::<(u32, u32), Seq<u8>>::empty(),
    {
        let store = PageStore { pages: HashMap::new() };
        assert(store@ =~= Map::<(u32, u32), Seq<u8>>::empty());
        store
    }

    fn key(major: u32, minor: u32) -> (k: u64)
        ensures
            k == filing_key(major, minor),
    {
        major as u64 * 0x1_0000_0000 + minor as u64
    }

    /// Whether a page is stored under the key.
    pub fn contains(&self, major: u32, minor: u32) -> (present: bool)
        ensures
            present == self@.contains_key((major, minor)),
    {
        let k = Self::key(major, minor);
        self.pages.contains_key(&k)
    }

    /// The page stored under the key, if any.
    pub fn get(&self, major: u32, minor: u32) -> (page: Option<&Vec<u8>>)
        ensures
            match page {
                Some(p) => self@.contains_key((major, minor)) && self@[(major, minor)] == p@,
                None => !self@.contains_key((major, minor)),
            },
    {
        let k = Self::key(major, minor);
        self.pages.get(&k)
    }

    /// Stores `page` under the key, replacing what was there.
    pub fn insert(&mut self, major: u32, minor: u32, page: Vec<u8>)
        ensures
            final(self)@ == old(self)@.insert((major, minor), page@),
    {
        let k = Self::key(major, minor);
        self.pages.insert(k, page);
        assert(self@ =~= old(self)@.insert((major, minor), page@)) by {
            assert forall|q: (u32, u32)| #[trigger]
                self@.contains_key(q) == old(self)@.insert((major, minor), page@).contains_key(
                    q,
                ) by {
                lemma_filing_key_injective(q, (major, minor));
            }
            assert forall|q: (u32, u32)| self@.contains_key(q) implies #[trigger] self@[q] == old(
                self,
            )@.insert((major, minor), page@)[q] by {
                lemma_filing_key_injective(q, (major, minor));
            }
        }
    }

    /// Removes and returns the page stored under the key, if any.
    pub fn remove(&mut self, major: u32, minor: u32) -> (page: Option<Vec<u8>>)
        ensures
            final(self)@ == old(self)@.remove((major, minor)),
            match page {
                Some(p) => old(self)@.contains_key((major, minor)) && old(self)@[(major, minor)]
                    == p@,
                None => !old(self)@.contains_key((major, minor)),
            },
    {
        let k = Self::key(major, minor);
        let page = self.pages.remove(&k);
        assert(self@ =~= old(self)@.remove((major, minor))) by {
            assert forall|q: (u32, u32)| #[trigger]
                self@.contains_key(q) == old(self)@.remove((major, minor)).contains_key(q) by {
                lemma_filing_key_injective(q, (major, minor));
            }
            assert forall|q: (u32, u32)| self@.contains_key(q) implies #[trigger] self@[q] == old(
                self,
            )@.remove((major, minor))[q] by {
                lemma_filing_key_injective(q, (major, minor));
            }
        }
        page
    }
}

/// Signal pages, one per recipient at most.
pub struct SignalStore {
    pages: HashMap<u32, Vec<u8>>,
}

impl SignalStore {
    /// The stored signal pages, by recipient.
    pub closed spec fn view(&self) -> Map<u32, Seq<u8>> {
        Map::new(|k: u32| self.pages@.contains_key(k), |k: u32| self.pages@[k]@)
    }

    /// A store without pages.
    pub fn new() -> (store: SignalStore)
        ensures
            store@ == Map::<u32, Seq<u8>>::empty(),
    {
        let store = SignalStore { pages: HashMap::new() };
        assert(store@ =~= Map::<u32, Seq<u8>>::empty());
        store
    }

    /// The page waiting for the recipient, if any.
    pub fn get(&self, recipient: u32) -> (page: Option<&Vec<u8>>)
        ensures
            match page {
                Some(p) => self@.contains_key(recipient) && self@[recipient] == p@,
                None => !self@.contains_key(recipient),
            },
    {
        self.pages.get(&recipient)
    }

    /// Stores `page` for the recipient, replacing what was there.
    pub fn insert(&mut self, recipient: u32, page: Vec<u8>)
        ensures
            final(self)@ == old(self)@.insert(recipient, page@),
    {
        self.pages.insert(recipient, page);
        assert(self@ =~= old(self)@.insert(recipient, page@));
    }

    /// Removes and returns the page waiting for the recipient, if any.
    pub fn remove(&mut self, recipient: u32) -> (page: Option<Vec<u8>>)
        ensures
            final(self)@ == old(self)@.remove(recipient),
            match page {
                Some(p) => old(self)@.contains_key(recipient) && old(self)@[recipient] == p@,
                None => !old(self)@.contains_key(recipient),
            },
    {
        let page = self.pages.remove(&recipient);
        assert(self@ =~= old(self)@.remove(recipient));
        page
    }
}

} // verus!
