//! The unigram model: each word's id and cost.
//!
//! A word is written `surface/reading`. Ids are dense: the words of a model
//! with `n` words have the ids `0..n`, in the order in which they were added.
use vstd::prelude::*;
use crate::cost::{cost_in_range, COST_MAX, COST_ONE};
use crate::lm::word_index::WordIndex;
use crate::text::str_eq;

verus! {

/// The largest number of words in a model: ids are kept in three bytes, of
/// which the top bit stays clear.
pub const MAX_WORDS: usize = 0x80_0000;

/// The default cost of a model without words: -20.0.
pub const DEFAULT_COST_EMPTY: i64 = -0x14_0000_0000;

/// Why a word was not added to the model.
#[derive(Clone, Copy, Debug, PartialEq, Eq, Structural)]
pub enum UnigramError {
    /// The model already holds `MAX_WORDS` words.
    TooManyWords,
    /// The model already holds the word.
    DuplicateWord,
    /// The cost is larger in size than `COST_MAX`.
    CostOutOfRange,
}

/// The smallest of `costs`, or `COST_MAX` where there is none.
pub open spec fn min_cost(costs: Seq<i64>) -> int
    decreases costs.len(),
{
    if costs.len() == 0 {
        COST_MAX as int
    } else {
        let rest = min_cost(costs.drop_last());
        if costs.last() < rest {
            costs.last() as int
        } else {
            rest
        }
    }
}

/// The cost that stands for a word that the model does not hold: the
/// smallest cost in the model less 1.0, or `DEFAULT_COST_EMPTY` for a model
/// without words.
pub open spec fn default_cost_of(costs: Seq<i64>) -> int {
    if costs.len() == 0 {
        DEFAULT_COST_EMPTY as int
    } else {
        min_cost(costs) - COST_ONE
    }
}

/// The index of `word` in `words`, if it occurs there.
pub open spec fn position_of(words: Seq<Seq<char>>, word: Seq<char>) -> Option<int> {
    if words.contains(word) {
        Some(words.index_of(word))
    } else {
        None
    }
}

/// The words of a model with their costs.
pub struct SystemUnigramLM {
    words: Vec<String>,
    costs: Vec<i64>,
    default_cost: i64,
    index: WordIndex,
}

impl SystemUnigramLM {
    /// The words of the model; a word's index is its id.
    pub closed spec fn words(&self) -> Seq<Seq<char>> {
        Seq::new(self.words@.len(), |i: int| self.words@[i]@)
    }

    /// The costs of the words, by id.
    pub closed spec fn costs(&self) -> Seq<i64> {
        self.costs@
    }

    /// The cost that stands for an unknown word.
    pub closed spec fn default_cost(&self) -> int {
        self.default_cost as int
    }

    /// The invariant of the model: one cost per word, no word twice, no more
    /// than `MAX_WORDS` words, every cost in range.
    pub closed spec fn wf(&self) -> bool {
        &&& self.words().len() == self.costs().len()
        &&& self.words().len() <= MAX_WORDS
        &&& self.words().no_duplicates()
        &&& forall|i: int| 0 <= i < self.costs().len() ==> cost_in_range(#[trigger] self.costs()[i] as int)
        &&& self.default_cost as int == default_cost_of(self.costs())
        &&& self.index.wf(self.words())
    }

    /// What a well-formed model holds, for those who cannot see inside.
    pub proof fn lemma_wf(&self)
        requires
            self.wf(),
        ensures
            self.words().len() == self.costs().len(),
            self.words().len() <= MAX_WORDS,
            self.words().no_duplicates(),
            forall|i: int| 0 <= i < self.costs().len() ==> cost_in_range(#[trigger] self.costs()[i] as int),
            self.default_cost() == default_cost_of(self.costs()),
            -COST_MAX - COST_ONE <= self.default_cost() <= COST_MAX,
    {
        lemma_min_cost_bounds(self.costs());
    }

    /// The id and the cost of `word`, if the model holds it.
    pub fn find(&self, word: &str) -> (r: Option<(u32, i64)>)
        requires
            self.wf(),
        ensures
            match position_of(self.words(), word@) {
                Some(i) => r == Some((i as u32, self.costs()[i])),
                None => r is None,
            },
            r matches Some(found) ==> found.0 < self.words().len(),
    {
        let ids = match self.index.candidates(Ghost(self.words()), word) {
            Some(ids) => ids,
            None => {
                return None;
            },
        };
        let mut j: usize = 0;
        while j < ids.len()
            invariant
                self.wf(),
                j <= ids.len(),
                forall|k: int| 0 <= k < ids@.len() ==> (#[trigger] ids@[k]) < self.words().len(),
                forall|k: int| 0 <= k < j ==> self.words()[ids@[k] as int] != word@,
            decreases ids.len() - j,
        {
            let id = ids[j];
            if str_eq(self.words[id as usize].as_str(), word) {
                proof {
                    assert(self.words()[id as int] == word@);
                    let k = self.words().index_of(word@);
                    assert(self.words()[k] == word@);
                }
                return Some((id, self.costs[id as usize]));
            }
            j = j + 1;
        }
        proof {
            if self.words().contains(word@) {
                let i = choose|i: int| 0 <= i < self.words().len() && self.words()[i] == word@;
                assert(ids@.contains(i as u32));
                let k = choose|k: int| 0 <= k < ids@.len() && ids@[k] == i as u32;
                assert(self.words()[ids@[k] as int] != word@);
                assert(false);
            }
        }
        None
    }

    /// The number of words in the model.
    pub fn num_keys(&self) -> (n: u32)
        requires
            self.wf(),
        ensures
            n == self.words().len(),
    {
        self.words.len() as u32
    }

    /// The cost that stands for a word that the model does not hold.
    pub fn get_default_cost(&self) -> (c: i64)
        requires
            self.wf(),
        ensures
            c == self.default_cost(),
            c == default_cost_of(self.costs()),
    {
        self.default_cost
    }
}

/// The smallest cost is one of the costs, or `COST_MAX`.
pub proof fn lemma_min_cost_bounds(costs: Seq<i64>)
    requires
        forall|i: int| 0 <= i < costs.len() ==> cost_in_range(#[trigger] costs[i] as int),
    ensures
        -COST_MAX <= min_cost(costs) <= COST_MAX,
        forall|i: int| 0 <= i < costs.len() ==> min_cost(costs) <= #[trigger] costs[i],
    decreases costs.len(),
{
    if costs.len() > 0 {
        lemma_min_cost_bounds(costs.drop_last());
        assert forall|i: int| 0 <= i < costs.len() implies min_cost(costs) <= #[trigger] costs[i] by {
            if i < costs.len() - 1 {
                assert(costs.drop_last()[i] == costs[i]);
            }
        }
    }
}

/// Collects the words of a unigram model.
pub struct SystemUnigramLMBuilder {
    words: Vec<String>,
    costs: Vec<i64>,
    lowest: i64,
    index: WordIndex,
}

impl SystemUnigramLMBuilder {
    /// The words added so far.
    pub closed spec fn words(&self) -> Seq<Seq<char>> {
        Seq::new(self.words@.len(), |i: int| self.words@[i]@)
    }

    /// The costs of the words added so far.
    pub closed spec fn costs(&self) -> Seq<i64> {
        self.costs@
    }

    /// The invariant of the builder.
    pub closed spec fn wf(&self) -> bool {
        &&& self.words().len() == self.costs().len()
        &&& self.words().len() <= MAX_WORDS
        &&& self.words().no_duplicates()
        &&& forall|i: int| 0 <= i < self.costs().len() ==> cost_in_range(#[trigger] self.costs()[i] as int)
        &&& self.lowest as int == min_cost(self.costs())
        &&& self.index.wf(self.words())
    }

    /// A builder without words.
    pub fn new() -> (b: SystemUnigramLMBuilder)
        ensures
            b.wf(),
            b.words().len() == 0,
            b.costs().len() == 0,
    {
        let b = SystemUnigramLMBuilder {
            words: Vec::new(),
            costs: Vec::new(),
            lowest: COST_MAX,
            index: WordIndex::new(),
        };
        assert(b.words() =~= Seq::<Seq<char>>::empty());
        b
    }

    /// Adds `word` with `cost` and returns its id, the number of words that
    /// were there before it. A word that is already there, a cost out of
    /// range and a word beyond the `MAX_WORDS`th are refused, in this order,
    /// and leave the builder as it was.
    pub fn add(&mut self, word: &String, cost: i64) -> (r: Result<u32, UnigramError>)
        requires
            old(self).wf(),
        ensures
            final(self).wf(),
            match r {
                Ok(id) => {
                    &&& !old(self).words().contains(word@)
                    &&& cost_in_range(cost as int)
                    &&& id == old(self).words().len()
                    &&& final(self).words() == old(self).words().push(word@)
                    &&& final(self).costs() == old(self).costs().push(cost)
                },
                Err(e) => {
                    &&& final(self).words() == old(self).words()
                    &&& final(self).costs() == old(self).costs()
                    &&& e == UnigramError::DuplicateWord <==> old(self).words().contains(word@)
                    &&& e == UnigramError::CostOutOfRange <==> !old(self).words().contains(word@)
                        && !cost_in_range(cost as int)
                    &&& e == UnigramError::TooManyWords <==> !old(self).words().contains(word@)
                        && cost_in_range(cost as int) && old(self).words().len() == MAX_WORDS
                },
            },
    {
        match self.index.candidates(Ghost(self.words()), word.as_str()) {
            None => {},
            Some(ids) => {
                let mut j: usize = 0;
                while j < ids.len()
                    invariant
                        *self == *old(self),
                        self.wf(),
                        j <= ids.len(),
                        forall|k: int| 0 <= k < ids@.len() ==> (#[trigger] ids@[k]) < self.words().len(),
                        forall|k: int| 0 <= k < j ==> self.words()[ids@[k] as int] != word@,
                    decreases ids.len() - j,
                {
                    let id = ids[j];
                    if self.words[id as usize] == *word {
                        assert(self.words()[id as int] == word@);
                        return Err(UnigramError::DuplicateWord);
                    }
                    j = j + 1;
                }
                proof {
                    if self.words().contains(word@) {
                        let i = choose|i: int|
                            0 <= i < self.words().len() && self.words()[i] == word@;
                        assert(ids@.contains(i as u32));
                        let k = choose|k: int| 0 <= k < ids@.len() && ids@[k] == i as u32;
                        assert(self.words()[ids@[k] as int] != word@);
                        assert(false);
                    }
                }
            },
        }
        if cost < -COST_MAX || cost > COST_MAX {
            return Err(UnigramError::CostOutOfRange);
        }
        if self.words.len() >= MAX_WORDS {
            return Err(UnigramError::TooManyWords);
        }
        let id = self.words.len() as u32;
        let ghost before_words = self.words();
        let ghost before_costs = self.costs();
        self.index.add(Ghost(before_words), word.as_str(), id);
        self.words.push(word.clone());
        self.costs.push(cost);
        if cost < self.lowest {
            self.lowest = cost;
        }
        proof {
            assert(self.words() =~= before_words.push(word@));
            assert(self.costs() =~= before_costs.push(cost));
            assert(self.costs().drop_last() =~= before_costs);
        }
        Ok(id)
    }

    /// The model of the words added so far.
    pub fn build(self) -> (lm: SystemUnigramLM)
        requires
            self.wf(),
        ensures
            lm.wf(),
            lm.words() == self.words(),
            lm.costs() == self.costs(),
    {
        proof {
            lemma_min_cost_bounds(self.costs());
        }
        let default_cost = if self.words.len() == 0 {
            DEFAULT_COST_EMPTY
        } else {
            self.lowest - COST_ONE
        };
        let lm = SystemUnigramLM {
            words: self.words,
            costs: self.costs,
            default_cost,
            index: self.index,
        };
        assert(lm.words() =~= self.words());
        lm
    }
}

impl Default for SystemUnigramLMBuilder {
    fn default() -> (b: SystemUnigramLMBuilder)
        ensures
            b.wf(),
            b.words().len() == 0,
    {
        SystemUnigramLMBuilder::new()
    }
}

/// Every word that the model holds has an id below the number of its words.
pub proof fn lemma_found_id_below_num_keys(lm: SystemUnigramLM, word: Seq<char>)
    requires
        lm.wf(),
        lm.words().contains(word),
    ensures
        position_of(lm.words(), word) is Some,
        0 <= position_of(lm.words(), word)->0 < lm.words().len(),
        lm.words().len() <= MAX_WORDS,
{
    lm.lemma_wf();
    let k = lm.words().index_of(word);
}

/// Why stored entries are not a unigram model.
#[derive(Clone, Copy, Debug, PartialEq, Eq, Structural)]
pub enum UnigramLoadError {
    /// There are more than `MAX_WORDS` entries.
    TooManyWords,
    /// An id is not below the number of entries.
    IdOutOfRange,
    /// Two entries have the same id.
    DuplicateId,
    /// Two entries have the same word.
    DuplicateWord,
    /// A cost is larger in size than `COST_MAX`.
    CostOutOfRange,
}

/// One stored entry: the id of a word, the word, and its cost.
pub struct StoredWord {
    /// The id of the word.
    pub id: u32,
    /// The word, `surface/reading`.
    pub word: String,
    /// The cost of the word.
    pub cost: i64,
}

/// Whether the entries are those of a model: no more than `MAX_WORDS`,
/// with the ids `0..n` each once, no word twice, every cost in range.
pub open spec fn entries_valid(entries: Seq<StoredWord>) -> bool {
    &&& entries.len() <= MAX_WORDS
    &&& forall|i: int| 0 <= i < entries.len() ==> (#[trigger] entries[i]).id < entries.len()
    &&& forall|i: int, j: int|
        0 <= i < j < entries.len() ==> (#[trigger] entries[i]).id != (#[trigger] entries[j]).id
    &&& forall|i: int, j: int|
        0 <= i < j < entries.len() ==> (#[trigger] entries[i]).word@ != (#[trigger] entries[j]).word@
    &&& forall|i: int| 0 <= i < entries.len() ==> cost_in_range((#[trigger] entries[i]).cost as int)
}

/// Whether one of the entries has the id `id`.
pub open spec fn has_id(entries: Seq<StoredWord>, id: int) -> bool {
    exists|i: int| 0 <= i < entries.len() && (#[trigger] entries[i]).id == id
}

/// Entries with the ids below their number, each at most once, have each
/// of those ids.
pub proof fn lemma_ids_are_dense(entries: Seq<StoredWord>)
    requires
        forall|i: int| 0 <= i < entries.len() ==> (#[trigger] entries[i]).id < entries.len(),
        forall|i: int, j: int|
            0 <= i < j < entries.len() ==> (#[trigger] entries[i]).id != (#[trigger] entries[j]).id,
    ensures
        forall|id: int| 0 <= id < entries.len() ==> #[trigger] has_id(entries, id),
{
    let ids = Seq::new(entries.len(), |i: int| entries[i].id as int);
    let all = vstd::set_lib::set_int_range(0, entries.len() as int);
    assert(ids.no_duplicates()) by {
        assert forall|i: int, j: int| 0 <= i < ids.len() && 0 <= j < ids.len() && i != j implies ids[i]
            != ids[j] by {
            if i < j {
                assert(entries[i].id != entries[j].id);
            } else {
                assert(entries[j].id != entries[i].id);
            }
        }
    }
    ids.unique_seq_to_set();
    vstd::set_lib::lemma_int_range(0, entries.len() as int);
    assert(ids.to_set().subset_of(all)) by {
        assert forall|x: int| ids.to_set().contains(x) implies all.contains(x) by {
            let i = choose|i: int| 0 <= i < ids.len() && ids[i] == x;
            assert(entries[i].id < entries.len());
        }
    }
    vstd::set_lib::lemma_len_subset(ids.to_set(), all);
    vstd::set_lib::lemma_subset_equality(ids.to_set(), all);
    assert forall|id: int| 0 <= id < entries.len() implies #[trigger] has_id(entries, id) by {
        assert(all.contains(id));
        assert(ids.to_set().contains(id));
        let i = choose|i: int| 0 <= i < ids.len() && ids[i] == id;
        assert(entries[i].id == id);
    }
}

/// Whether the word with the id `d` and its cost are those of the entry at
/// `order[d]`.
pub open spec fn placed(
    words: Seq<Seq<char>>,
    costs: Seq<i64>,
    entries: Seq<StoredWord>,
    order: Seq<usize>,
    d: int,
) -> bool {
    words[d] == entries[order[d] as int].word@ && costs[d] == entries[order[d] as int].cost
}

/// Whether the entries show the fault that `e` names.
pub open spec fn shows_fault(entries: Seq<StoredWord>, e: UnigramLoadError) -> bool {
    match e {
        UnigramLoadError::TooManyWords => entries.len() > MAX_WORDS,
        UnigramLoadError::IdOutOfRange => exists|i: int|
            0 <= i < entries.len() && (#[trigger] entries[i]).id >= entries.len(),
        UnigramLoadError::DuplicateId => exists|i: int, j: int|
            0 <= i < j < entries.len() && (#[trigger] entries[i]).id == (#[trigger] entries[j]).id,
        UnigramLoadError::DuplicateWord => exists|i: int, j: int|
            0 <= i < j < entries.len() && (#[trigger] entries[i]).word@ == (
            #[trigger] entries[j]).word@,
        UnigramLoadError::CostOutOfRange => exists|i: int|
            0 <= i < entries.len() && !cost_in_range((#[trigger] entries[i]).cost as int),
    }
}

impl SystemUnigramLM {
    /// The model of the stored entries, in whatever order they come: each
    /// word gets the id that is stored with it.
    pub fn from_entries(entries: Vec<StoredWord>) -> (r: Result<SystemUnigramLM, UnigramLoadError>)
        ensures
            r is Ok <==> entries_valid(entries@),
            r matches Ok(lm) ==> {
                &&& lm.wf()
                &&& lm.words().len() == entries@.len()
                &&& lm.costs().len() == entries@.len()
                &&& forall|i: int|
                    0 <= i < entries@.len() ==> lm.words()[(#[trigger] entries@[i]).id as int]
                        == entries@[i].word@ && lm.costs()[entries@[i].id as int] == entries@[i].cost
            },
            r matches Err(e) ==> shows_fault(entries@, e),
    {
        let n = entries.len();
        if n > MAX_WORDS {
            return Err(UnigramLoadError::TooManyWords);
        }
        let mut order: Vec<usize> = Vec::new();
        let mut k: usize = 0;
        while k < n
            invariant
                k <= n,
                order.len() == k,
                forall|id: int| 0 <= id < k ==> order@[id] == n,
            decreases n - k,
        {
            order.push(n);
            k = k + 1;
        }
        let mut i: usize = 0;
        while i < n
            invariant
                n == entries@.len(),
                i <= n,
                order.len() == n,
                forall|a: int| 0 <= a < i ==> (#[trigger] entries@[a]).id < n,
                forall|a: int| 0 <= a < i ==> order@[(#[trigger] entries@[a]).id as int] == a,
                forall|id: int|
                    0 <= id < n ==> (#[trigger] order@[id] == n || (0 <= order@[id] < i
                        && entries@[order@[id] as int].id == id)),
            decreases n - i,
        {
            let id = entries[i].id as usize;
            if id >= n {
                return Err(UnigramLoadError::IdOutOfRange);
            }
            if order[id] != n {
                assert(entries@[order@[id as int] as int].id == entries@[i as int].id);
                return Err(UnigramLoadError::DuplicateId);
            }
            order.set(id, i);
            i = i + 1;
        }
        proof {
            assert forall|a: int, b: int| 0 <= a < b < n implies (#[trigger] entries@[a]).id != (
            #[trigger] entries@[b]).id by {
                assert(order@[entries@[a].id as int] == a);
                assert(order@[entries@[b].id as int] == b);
            }
            lemma_ids_are_dense(entries@);
        }
        let mut builder = SystemUnigramLMBuilder::new();
        let mut id: usize = 0;
        while id < n
            invariant
                n == entries@.len(),
                forall|d: int| 0 <= d < n ==> #[trigger] has_id(entries@, d),
                n <= MAX_WORDS,
                id <= n,
                order.len() == n,
                builder.wf(),
                builder.words().len() == id,
                builder.costs().len() == id,
                forall|a: int| 0 <= a < n ==> (#[trigger] entries@[a]).id < n,
                forall|a: int| 0 <= a < n ==> order@[(#[trigger] entries@[a]).id as int] == a,
                forall|d: int|
                    0 <= d < n ==> (#[trigger] order@[d] == n || (0 <= order@[d] < n
                        && entries@[order@[d] as int].id == d)),
                forall|d: int| 0 <= d < id ==> order@[d] < n,
                forall|d: int|
                    0 <= d < id ==> #[trigger] placed(
                        builder.words(),
                        builder.costs(),
                        entries@,
                        order@,
                        d,
                    ),
            decreases n - id,
        {
            let at = order[id];
            proof {
                assert(has_id(entries@, id as int));
                let a = choose|a: int| 0 <= a < n && (#[trigger] entries@[a]).id == id;
                assert(order@[entries@[a].id as int] == a);
            }
            let ghost before_words = builder.words();
            let ghost before_costs = builder.costs();
            match builder.add(&entries[at].word, entries[at].cost) {
                Ok(_) => {},
                Err(UnigramError::DuplicateWord) => {
                    proof {
                        let d = choose|d: int|
                            0 <= d < before_words.len() && before_words[d] == entries@[at as int].word@;
                        assert(placed(before_words, before_costs, entries@, order@, d));
                        let other = order@[d] as int;
                        assert(entries@[other].word@ == entries@[at as int].word@);
                        assert(entries@[other].id == d);
                        assert(other != at);
                        if other < at {
                            assert(entries@[other].word@ == entries@[at as int].word@);
                        } else {
                            assert(entries@[at as int].word@ == entries@[other].word@);
                        }
                    }
                    return Err(UnigramLoadError::DuplicateWord);
                },
                Err(UnigramError::CostOutOfRange) => {
                    return Err(UnigramLoadError::CostOutOfRange);
                },
                Err(UnigramError::TooManyWords) => {
                    return Err(UnigramLoadError::TooManyWords);
                },
            }
            proof {
                assert(builder.words() == before_words.push(entries@[at as int].word@));
                assert(builder.costs() == before_costs.push(entries@[at as int].cost));
                assert forall|d: int| 0 <= d < id + 1 implies #[trigger] placed(
                    builder.words(),
                    builder.costs(),
                    entries@,
                    order@,
                    d,
                ) by {
                    if d < id {
                        assert(placed(before_words, before_costs, entries@, order@, d));
                        assert(builder.words()[d] == before_words[d]);
                        assert(builder.costs()[d] == before_costs[d]);
                    }
                }
            }
            id = id + 1;
        }
        let ghost built_words = builder.words();
        let ghost built_costs = builder.costs();
        proof {
            assert forall|d: int| 0 <= d < n implies built_words[d] == entries@[order@[d] as int].word@
                && built_costs[d] == entries@[order@[d] as int].cost by {
                assert(placed(builder.words(), builder.costs(), entries@, order@, d));
            }
        }
        let lm = builder.build();
        proof {
            lm.lemma_wf();
            assert forall|a: int, b: int| 0 <= a < b < n implies (#[trigger] entries@[a]).word@ != (
            #[trigger] entries@[b]).word@ by {
                let da = entries@[a].id as int;
                let db = entries@[b].id as int;
                assert(order@[da] == a && order@[db] == b);
                assert(lm.words()[da] == entries@[a].word@);
                assert(lm.words()[db] == entries@[b].word@);
                assert(da != db);
            }
            assert forall|a: int| 0 <= a < n implies cost_in_range((#[trigger] entries@[a]).cost as int) by {
                let da = entries@[a].id as int;
                assert(order@[da] == a);
                assert(lm.costs()[da] == entries@[a].cost);
            }
            assert forall|a: int| 0 <= a < n implies lm.words()[(#[trigger] entries@[a]).id as int]
                == entries@[a].word@ && lm.costs()[entries@[a].id as int] == entries@[a].cost by {
                assert(order@[entries@[a].id as int] == a);
            }
        }
        Ok(lm)
    }

    /// The word with the id `id`, and its cost.
    pub fn word_at(&self, id: u32) -> (r: Option<(&String, i64)>)
        requires
            self.wf(),
        ensures
            r is Some <==> id < self.words().len(),
            r matches Some(found) ==> found.0@ == self.words()[id as int] && found.1
                == self.costs()[id as int],
    {
        if (id as usize) < self.words.len() {
            Some((&self.words[id as usize], self.costs[id as usize]))
        } else {
            None
        }
    }
}

} // verus!
