//! The bigram model: the cost of one word following another.
use std::collections::HashMap;
use vstd::prelude::*;
use crate::cost::{cost_in_range, COST_MAX};

verus! {

/// One more than the largest word id that a pair can hold.
pub const ID_LIMIT: u32 = 0x100_0000;

/// Why a pair was not added to the model.
#[derive(Clone, Copy, Debug, PartialEq, Eq, Structural)]
pub enum BigramError {
    /// One of the ids does not fit in three bytes.
    IdOutOfRange,
    /// The cost is larger in size than `COST_MAX`.
    CostOutOfRange,
}

/// The key under which the pair of `id1` and `id2` is kept.
pub open spec fn pair_key(id1: int, id2: int) -> int {
    id1 * 0x100_0000 + id2
}

/// The costs of the word pairs that the model knows.
pub struct SystemBigramLM {
    costs: HashMap<u64, i64>,
}

impl SystemBigramLM {
    /// The pairs of the model with their costs, each under its `pair_key`.
    pub closed spec fn costs(&self) -> Map<u64, i64> {
        self.costs@
    }

    /// The invariant of the model: every cost is in range.
    pub closed spec fn wf(&self) -> bool {
        forall|k: u64| self.costs@.contains_key(k) ==> cost_in_range(#[trigger] self.costs@[k] as int)
    }

    /// The cost of the pair, seen from outside.
    pub open spec fn cost_of(&self, id1: u32, id2: u32) -> Option<i64> {
        if id1 < ID_LIMIT && id2 < ID_LIMIT && self.costs().contains_key(
            pair_key(id1 as int, id2 as int) as u64,
        ) {
            Some(self.costs()[pair_key(id1 as int, id2 as int) as u64])
        } else {
            None
        }
    }

    /// Every cost of a well-formed model is in range.
    pub proof fn lemma_wf(&self, id1: u32, id2: u32)
        requires
            self.wf(),
        ensures
            self.cost_of(id1, id2) is Some ==> cost_in_range(self.cost_of(id1, id2)->0 as int),
    {
    }

    /// The cost of `id2` following `id1`, if the model knows the pair.
    pub fn find(&self, id1: u32, id2: u32) -> (r: Option<i64>)
        requires
            self.wf(),
        ensures
            r == self.cost_of(id1, id2),
            r is Some ==> cost_in_range(r->0 as int),
    {
        if id1 >= ID_LIMIT || id2 >= ID_LIMIT {
            return None;
        }
        let key: u64 = id1 as u64 * 0x100_0000 + id2 as u64;
        match self.costs.get(&key) {
            Some(c) => Some(*c),
            None => None,
        }
    }
}

/// Collects the pairs of a bigram model.
pub struct SystemBigramLMBuilder {
    costs: HashMap<u64, i64>,
}

impl SystemBigramLMBuilder {
    /// The pairs added so far, each under its `pair_key`.
    pub closed spec fn costs(&self) -> Map<u64, i64> {
        self.costs@
    }

    /// The invariant of the builder: every cost is in range.
    pub closed spec fn wf(&self) -> bool {
        forall|k: u64| self.costs@.contains_key(k) ==> cost_in_range(#[trigger] self.costs@[k] as int)
    }

    /// A builder without pairs.
    pub fn new() -> (b: SystemBigramLMBuilder)
        ensures
            b.wf(),
            b.costs() == Map::<u64, i64>::empty(),
    {
        SystemBigramLMBuilder { costs: HashMap::new() }
    }

    /// Sets the cost of `id2` following `id1`. A pair that was added before
    /// gets the new cost. An id of more than three bytes and a cost out of
    /// range are refused, in this order, and leave the builder as it was.
    pub fn add(&mut self, id1: u32, id2: u32, cost: i64) -> (r: Result<(), BigramError>)
        requires
            old(self).wf(),
        ensures
            final(self).wf(),
            match r {
                Ok(_) => {
                    &&& id1 < ID_LIMIT && id2 < ID_LIMIT && cost_in_range(cost as int)
                    &&& final(self).costs() == old(self).costs().insert(
                        pair_key(id1 as int, id2 as int) as u64,
                        cost,
                    )
                },
                Err(e) => {
                    &&& final(self).costs() == old(self).costs()
                    &&& e == BigramError::IdOutOfRange <==> id1 >= ID_LIMIT || id2 >= ID_LIMIT
                    &&& e == BigramError::CostOutOfRange <==> id1 < ID_LIMIT && id2 < ID_LIMIT
                        && !cost_in_range(cost as int)
                },
            },
    {
        if id1 >= ID_LIMIT || id2 >= ID_LIMIT {
            return Err(BigramError::IdOutOfRange);
        }
        if cost < -COST_MAX || cost > COST_MAX {
            return Err(BigramError::CostOutOfRange);
        }
        let key: u64 = id1 as u64 * 0x100_0000 + id2 as u64;
        self.costs.insert(key, cost);
        Ok(())
    }

    /// The model of the pairs added so far.
    pub fn build(self) -> (lm: SystemBigramLM)
        requires
            self.wf(),
        ensures
            lm.wf(),
            lm.costs() == self.costs(),
    {
        SystemBigramLM { costs: self.costs }
    }
}

impl Default for SystemBigramLMBuilder {
    fn default() -> (b: SystemBigramLMBuilder)
        ensures
            b.wf(),
            b.costs() == Map::<u64, i64>::empty(),
    {
        SystemBigramLMBuilder::new()
    }
}

} // verus!
