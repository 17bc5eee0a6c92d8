//! The set of known readings, searched by common prefix.
use vstd::prelude::*;
use crate::kana_trie::crawdad_kana_trie::{CrawdadKanaTrie, KanaTrieError};
use crate::lm::word_index::WordIndex;
use crate::text::{str_eq, strings_view};

pub mod crawdad_kana_trie;
pub mod trie_image;

verus! {

/// The largest number of readings that a builder takes: as many as a trie
/// can hold.
pub const MAX_KEYS: usize = 0x8000_0000;

/// Collects readings one by one and builds a [`CrawdadKanaTrie`] of them.
///
/// A reading that was already added is not added again, so the keys handed
/// to the trie are distinct.
pub struct KanaTrieBuilder {
    keys: Vec<String>,
    index: WordIndex,
}

impl KanaTrieBuilder {
    /// The readings added so far, in the order in which they first came.
    pub closed spec fn keys(&self) -> Seq<Seq<char>> {
        strings_view(self.keys@)
    }

    /// The invariant of the builder: no reading twice, and no more than
    /// `MAX_KEYS` of them.
    pub closed spec fn wf(&self) -> bool {
        &&& self.keys().no_duplicates()
        &&& self.keys().len() <= MAX_KEYS
        &&& self.index.wf(self.keys())
    }

    /// A builder with no reading.
    pub fn new() -> (b: KanaTrieBuilder)
        ensures
            b.wf(),
            b.keys() == Seq::<Seq<char>>::empty(),
    {
        let b = KanaTrieBuilder { keys: Vec::new(), index: WordIndex::new() };
        assert(b.keys() =~= Seq::<Seq<char>>::empty());
        b
    }

    /// Adds `yomi`, unless it is there already or the builder is full.
    pub fn add(&mut self, yomi: &String)
        requires
            old(self).wf(),
        ensures
            final(self).wf(),
            final(self).keys() == if old(self).keys().contains(yomi@) || old(self).keys().len()
                == MAX_KEYS {
                old(self).keys()
            } else {
                old(self).keys().push(yomi@)
            },
    {
        match self.index.candidates(Ghost(self.keys()), yomi.as_str()) {
            None => {},
            Some(ids) => {
                let mut j: usize = 0;
                while j < ids.len()
                    invariant
                        *self == *old(self),
                        self.wf(),
                        j <= ids.len(),
                        forall|k: int| 0 <= k < ids@.len() ==> (#[trigger] ids@[k]) < self.keys().len(),
                        forall|k: int| 0 <= k < j ==> self.keys()[ids@[k] as int] != yomi@,
                    decreases ids.len() - j,
                {
                    let id = ids[j];
                    if str_eq(self.keys[id as usize].as_str(), yomi.as_str()) {
                        assert(self.keys()[id as int] == yomi@);
                        return ;
                    }
                    j = j + 1;
                }
                proof {
                    if self.keys().contains(yomi@) {
                        let i = choose|i: int| 0 <= i < self.keys().len() && self.keys()[i] == yomi@;
                        assert(ids@.contains(i as u32));
                        let k = choose|k: int| 0 <= k < ids@.len() && ids@[k] == i as u32;
                        assert(self.keys()[ids@[k] as int] != yomi@);
                        assert(false);
                    }
                }
            },
        }
        if self.keys.len() >= MAX_KEYS {
            return ;
        }
        let ghost before = self.keys();
        let id = self.keys.len() as u32;
        self.index.add(Ghost(before), yomi.as_str(), id);
        self.keys.push(yomi.clone());
        proof {
            assert(self.keys() =~= before.push(yomi@));
            assert forall|a: int, b: int| 0 <= a < b < self.keys().len() implies self.keys()[a]
                != self.keys()[b] by {
                if b < before.len() {
                    assert(before[a] != before[b]);
                } else {
                    assert(before[a] != yomi@);
                }
            }
        }
    }

    /// Builds the trie of the readings added so far.
    pub fn build(self) -> (r: Result<CrawdadKanaTrie, KanaTrieError>)
        ensures
            CrawdadKanaTrie::build_post(self.keys(), r),
    {
        CrawdadKanaTrie::build(self.keys)
    }
}

impl Default for KanaTrieBuilder {
    fn default() -> (b: KanaTrieBuilder)
        ensures
            b.wf(),
            b.keys() == Seq::<Seq<char>>::empty(),
    {
        KanaTrieBuilder::new()
    }
}

} // verus!
