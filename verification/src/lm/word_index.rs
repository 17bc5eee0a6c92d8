//! Finds a word among many by its hash.
//!
//! The index keeps, for each hash, the ids of the words with that hash. To
//! look a word up, only the words with its hash are compared with it.
use std::collections::HashMap;
use vstd::prelude::*;

verus! {

/// The modulus of the hash: the largest prime below 2^32.
pub const HASH_MODULUS: u64 = 4_294_967_291;

/// The hash of a word: its characters as the digits of a number to the
/// base 31, modulo `HASH_MODULUS`.
pub open spec fn word_hash(word: Seq<char>) -> u64
    decreases word.len(),
{
    if word.len() == 0 {
        0
    } else {
        ((word_hash(word.drop_last()) * 31 + word.last() as u32) % (HASH_MODULUS as int)) as u64
    }
}

/// A hash is below the modulus.
pub proof fn lemma_word_hash_range(word: Seq<char>)
    ensures
        word_hash(word) < HASH_MODULUS,
    decreases word.len(),
{
    if word.len() > 0 {
        lemma_word_hash_range(word.drop_last());
    }
}

/// The hash of `word`.
pub fn hash_str(word: &str) -> (h: u64)
    ensures
        h == word_hash(word@),
{
    let mut h: u64 = 0;
    let mut it = word.chars();
    for c in iter: it
        invariant
            iter.seq() == word@,
            h == word_hash(iter.seq().take(iter.index() as int)),
            h < HASH_MODULUS,
    {
        proof {
            let upto = iter.seq().take(iter.index() + 1);
            assert(upto.drop_last() =~= iter.seq().take(iter.index() as int));
            assert(upto.last() == c);
            lemma_word_hash_range(upto);
        }
        let digit: u32 = c as u32;
        h = (h * 31 + digit as u64) % HASH_MODULUS;
    }
    assert(word@.take(word@.len() as int) =~= word@);
    h
}

/// For each hash, the ids of the words with that hash.
pub struct WordIndex {
    buckets: HashMap<u64, Vec<u32>>,
}

impl WordIndex {
    /// Whether the index is that of `words`: it lists every word under its
    /// hash, and lists nothing but words.
    pub closed spec fn wf(&self, words: Seq<Seq<char>>) -> bool {
        &&& forall|i: int|
            0 <= i < words.len() ==> self.buckets@.contains_key(#[trigger] word_hash(words[i]))
                && self.buckets@[word_hash(words[i])]@.contains(i as u32)
        &&& forall|h: u64, j: int|
            self.buckets@.contains_key(h) && 0 <= j < self.buckets@[h]@.len() ==> (
            #[trigger] self.buckets@[h]@[j]) < words.len()
        &&& words.len() <= u32::MAX
    }

    /// The index of no words.
    pub fn new() -> (index: WordIndex)
        ensures
            index.wf(Seq::empty()),
    {
        WordIndex { buckets: HashMap::new() }
    }

    /// Lists the word `word`, which gets the id `id`, the next one.
    pub(crate) fn add(&mut self, words: Ghost<Seq<Seq<char>>>, word: &str, id: u32)
        requires
            old(self).wf(words@),
            id == words@.len(),
            id < u32::MAX,
        ensures
            final(self).wf(words@.push(word@)),
    {
        let h = hash_str(word);
        let ghost before = self.buckets@;
        let mut bucket: Vec<u32> = match self.buckets.remove(&h) {
            Some(bucket) => bucket,
            None => Vec::new(),
        };
        let ghost old_bucket = bucket@;
        bucket.push(id);
        self.buckets.insert(h, bucket);
        proof {
            let after = self.buckets@;
            let all = words@.push(word@);
            assert(after[h]@ == old_bucket.push(id));
            assert forall|i: int| 0 <= i < all.len() implies after.contains_key(
                #[trigger] word_hash(all[i]),
            ) && after[word_hash(all[i])]@.contains(i as u32) by {
                let hi = word_hash(all[i]);
                if i < words@.len() {
                    assert(all[i] == words@[i]);
                    assert(before.contains_key(hi) && before[hi]@.contains(i as u32));
                    if hi == h {
                        let k = choose|k: int| 0 <= k < old_bucket.len() && old_bucket[k] == i as u32;
                        assert(after[h]@[k] == i as u32);
                    } else {
                        assert(after[hi] == before[hi]);
                    }
                } else {
                    assert(after[h]@[old_bucket.len() as int] == id);
                }
            }
            assert forall|g: u64, j: int| after.contains_key(g) && 0 <= j < after[g]@.len() implies (
            #[trigger] after[g]@[j]) < all.len() by {
                if g == h {
                    if j < old_bucket.len() {
                        assert(after[g]@[j] == old_bucket[j]);
                        assert(before[h]@[j] < words@.len());
                    }
                } else {
                    assert(after[g] == before[g]);
                    assert(before[g]@[j] < words@.len());
                }
            }
        }
    }

    /// The ids of the words that may be `word`: those with its hash. The
    /// id of `word` is among them if `word` is one of the words.
    pub(crate) fn candidates(&self, words: Ghost<Seq<Seq<char>>>, word: &str) -> (r: Option<&Vec<u32>>)
        requires
            self.wf(words@),
        ensures
            r is None ==> !words@.contains(word@),
            r matches Some(ids) ==> {
                &&& forall|j: int| 0 <= j < ids@.len() ==> (#[trigger] ids@[j]) < words@.len()
                &&& forall|i: int|
                    0 <= i < words@.len() && words@[i] == word@ ==> ids@.contains(i as u32)
            },
    {
        let h = hash_str(word);
        let r = self.buckets.get(&h);
        proof {
            if r is None && words@.contains(word@) {
                let i = choose|i: int| 0 <= i < words@.len() && words@[i] == word@;
                assert(self.buckets@.contains_key(word_hash(words@[i])));
            }
            if r is Some {
                assert forall|i: int| 0 <= i < words@.len() && words@[i] == word@ implies r->0@.contains(
                    i as u32,
                ) by {
                    assert(self.buckets@.contains_key(word_hash(words@[i])));
                }
            }
        }
        r
    }
}

} // verus!
