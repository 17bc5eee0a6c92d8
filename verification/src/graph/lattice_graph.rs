//! The lattice: for each position of the reading, the words that end there.
//!
//! Positions are byte offsets into the reading. List 0 holds the node that
//! stands before the reading, list `k` for `1 <= k <= len` the words that
//! end at byte `k`, and list `len + 1` the node that stands after the
//! reading. The predecessors of a node are the nodes of the list at its
//! `start_pos`.
use std::rc::Rc;
use vstd::prelude::*;
use crate::cost::{back_off, spec_back_off};
use crate::graph::word_node::{bos_surface, costs_in_range, eos_surface, word_key, NodeView, WordNode};
use crate::lm::system_bigram::SystemBigramLM;
use crate::text::{byte_len, byte_offset};
use crate::user_side_data::user_data::{lemma_bonus_at_max, UserData};

verus! {

/// The largest size of the cost of one step along a path, the edge and the
/// node together: 2^18.
pub const STEP_LIMIT: i64 = 0x4_0000_0000_0000;

/// The views of the nodes of one list.
pub open spec fn node_views(nodes: Seq<WordNode>) -> Seq<NodeView> {
    Seq::new(nodes.len(), |i: int| nodes[i]@)
}

/// The cost of going from `p` to `n`: the cost of the pair in the bigram
/// model, or where the model does not know the pair, half the unigram cost
/// of `n`; and the user's bonus for the pair.
pub open spec fn edge_cost_of(bigram: SystemBigramLM, user: UserData, p: NodeView, n: NodeView) -> int {
    (if p.word_id is Some && n.word_id is Some && bigram.cost_of(p.word_id->0, n.word_id->0) is Some {
        bigram.cost_of(p.word_id->0, n.word_id->0)->0 as int
    } else {
        spec_back_off(n.unigram_cost)
    }) + user.bigram_bonus(word_key(p.kanji, p.yomi), word_key(n.kanji, n.yomi))
}

/// Whether the word `n` that ends at byte `k` reads the stretch of the
/// reading from its start to `k`.
pub open spec fn reads_stretch(yomi: Seq<char>, k: int, n: NodeView) -> bool {
    exists|from: int, to: int|
        {
            &&& 0 <= from <= to <= yomi.len()
            &&& byte_offset(yomi, from) == n.start_pos
            &&& byte_offset(yomi, to) == k
            &&& n.yomi == #[trigger] yomi.subrange(from, to)
        }
}

/// The lattice over one reading.
pub struct LatticeGraph {
    yomi: String,
    size: usize,
    nodes: Vec<Vec<WordNode>>,
    user_data: Rc<UserData>,
    bigram: Rc<SystemBigramLM>,
}

impl LatticeGraph {
    /// The reading.
    pub closed spec fn yomi(&self) -> Seq<char> {
        self.yomi@
    }

    /// The length of the reading in bytes.
    pub closed spec fn len(&self) -> nat {
        self.size as nat
    }

    /// The position of the node that stands after the reading.
    pub open spec fn last(&self) -> int {
        self.len() as int + 1
    }

    /// The lists of nodes, by the position at which the nodes end.
    pub closed spec fn nodes(&self) -> Seq<Seq<NodeView>> {
        Seq::new(self.nodes@.len(), |k: int| node_views(self.nodes@[k]@))
    }

    /// The user's history that the costs take their bonus from.
    pub closed spec fn user(&self) -> UserData {
        *self.user_data
    }

    /// The bigram model that the edges take their cost from.
    pub closed spec fn bigram(&self) -> SystemBigramLM {
        *self.bigram
    }

    /// The cost of going from `p` to `n` in this lattice.
    pub open spec fn edge_cost(&self, p: NodeView, n: NodeView) -> int {
        edge_cost_of(self.bigram(), self.user(), p, n)
    }

    /// Whether every node carries its name and has its costs within limits.
    pub closed spec fn nodes_wf(&self) -> bool {
        forall|k: int, j: int|
            0 <= k < self.nodes@.len() && 0 <= j < self.nodes@[k]@.len() ==> (
            #[trigger] self.nodes@[k]@[j]).wf()
    }

    /// The invariant of the lattice.
    pub open spec fn wf(&self) -> bool {
        &&& self.nodes_wf()
        &&& self.user().wf()
        &&& self.bigram().wf()
        &&& self.len() == byte_len(self.yomi())
        &&& self.nodes().len() == self.len() + 2
        &&& self.nodes()[0].len() == 1
        &&& self.nodes()[0][0].start_pos == 0
        &&& self.nodes()[0][0].yomi.len() == 0
        &&& self.nodes()[0][0].kanji == bos_surface()
        &&& self.nodes()[self.last()].len() == 1
        &&& self.nodes()[self.last()][0].start_pos == self.len()
        &&& self.nodes()[self.last()][0].yomi.len() == 0
        &&& self.nodes()[self.last()][0].kanji == eos_surface()
        &&& forall|k: int, j: int|
            1 <= k <= self.len() && 0 <= j < self.nodes()[k].len() ==> self.word_ok(
                k,
                #[trigger] self.nodes()[k][j],
            )
        &&& forall|k: int, j: int|
            0 <= k < self.nodes().len() && 0 <= j < self.nodes()[k].len() ==> costs_in_range(
                #[trigger] self.nodes()[k][j],
            )
    }

    /// Whether `n` can be a word that ends at byte `k`: it starts before
    /// `k`, its reading is as long as the stretch from its start to `k`, and
    /// its surface is not empty.
    pub open spec fn word_ok(&self, k: int, n: NodeView) -> bool {
        &&& n.start_pos < k
        &&& k - n.start_pos == byte_len(n.yomi)
        &&& n.kanji.len() > 0
    }

    /// Whether every word of the lattice reads the stretch of the reading
    /// that it covers.
    pub open spec fn words_read_reading(&self) -> bool {
        forall|k: int, j: int|
            1 <= k <= self.len() && 0 <= j < self.nodes()[k].len() ==> reads_stretch(
                self.yomi(),
                k,
                #[trigger] self.nodes()[k][j],
            )
    }

    /// Whether every node but the first has a predecessor.
    pub open spec fn complete(&self) -> bool {
        forall|k: int, j: int|
            1 <= k < self.nodes().len() && 0 <= j < self.nodes()[k].len() ==> self.nodes()[(
            #[trigger] self.nodes()[k][j]).start_pos as int].len() > 0
    }

    /// A lattice of the given parts.
    pub(crate) fn assemble(
        yomi: String,
        size: usize,
        nodes: Vec<Vec<WordNode>>,
        user_data: Rc<UserData>,
        bigram: Rc<SystemBigramLM>,
    ) -> (l: LatticeGraph)
        requires
            forall|k: int, j: int|
                0 <= k < nodes@.len() && 0 <= j < nodes@[k]@.len() ==> (#[trigger] nodes@[k]@[j]).wf(),
        ensures
            l.nodes_wf(),
            l.yomi() == yomi@,
            l.len() == size,
            l.user() == *user_data,
            l.bigram() == *bigram,
            l.nodes().len() == nodes@.len(),
            forall|k: int| 0 <= k < nodes@.len() ==> #[trigger] l.nodes()[k] == node_views(nodes@[k]@),
    {
        LatticeGraph { yomi, size, nodes, user_data, bigram }
    }

    /// The length of the reading in bytes.
    pub fn size(&self) -> (n: usize)
        ensures
            n == self.len(),
    {
        self.size
    }

    /// The reading.
    pub fn reading(&self) -> (s: &String)
        ensures
            s@ == self.yomi(),
    {
        &self.yomi
    }

    /// The number of lists: two more than the reading has bytes.
    pub fn list_count(&self) -> (n: usize)
        ensures
            n == self.nodes().len(),
    {
        self.nodes.len()
    }

    /// The nodes that end at position `k`.
    pub fn node_list(&self, k: usize) -> (list: &Vec<WordNode>)
        requires
            k < self.nodes().len(),
        ensures
            node_views(list@) == self.nodes()[k as int],
            self.nodes_wf() ==> forall|j: int| 0 <= j < list@.len() ==> (#[trigger] list@[j]).wf(),
    {
        &self.nodes[k]
    }

    /// The predecessors of `node`: the nodes that end where it starts.
    pub fn get_prev_nodes(&self, node: &WordNode) -> (list: &Vec<WordNode>)
        requires
            node.start_pos < self.nodes().len(),
        ensures
            node_views(list@) == self.nodes()[node.start_pos as int],
            self.nodes_wf() ==> forall|j: int| 0 <= j < list@.len() ==> (#[trigger] list@[j]).wf(),
    {
        self.node_list(node.start_pos)
    }

    /// The cost of `node`.
    pub fn get_node_cost(&self, node: &WordNode) -> (c: i64)
        ensures
            c == node@.cost,
    {
        node.cost
    }

    /// The cost of going from `prev` to `node`.
    pub fn get_edge_cost(&self, prev: &WordNode, node: &WordNode) -> (c: i64)
        requires
            self.user().wf(),
            self.bigram().wf(),
            prev.wf(),
            node.wf(),
        ensures
            c == self.edge_cost(prev@, node@),
            -STEP_LIMIT <= c + node@.cost <= STEP_LIMIT,
    {
        let base: i64 = match (prev.word_id, node.word_id) {
            (Some(a), Some(b)) => match self.bigram.find(a, b) {
                Some(c) => c,
                None => back_off(node.unigram_cost),
            },
            _ => back_off(node.unigram_cost),
        };
        proof {
            lemma_bonus_at_max(
                self.user().bigram(),
                prev.key@,
                node.key@,
                self.user().now(),
                self.user().half_life(),
            );
        }
        let bonus = self.user_data.get_bigram_cost(prev.key.as_str(), node.key.as_str());
        base + bonus
    }
}

/// Where the nodes of a lattice lie.
///
/// A node starts no later than it is listed, and it is listed no later
/// than one position behind the reading. A word covers the bytes from the
/// one after its start to the one at which it is listed, and its reading
/// has as many bytes as that. In a complete lattice every node but the
/// first has a predecessor.
pub proof fn lemma_node_positions(l: LatticeGraph, k: int, j: int)
    requires
        l.wf(),
        0 <= k <= l.last(),
        0 <= j < l.nodes()[k].len(),
    ensures
        0 <= l.nodes()[k][j].start_pos <= k <= l.len() + 1,
        1 <= k <= l.len() ==> l.nodes()[k][j].start_pos + 1 <= k && k - (l.nodes()[k][j].start_pos
            + 1) + 1 == byte_len(l.nodes()[k][j].yomi),
        k >= 1 && l.complete() ==> l.nodes()[l.nodes()[k][j].start_pos as int].len() > 0,
{
    if 1 <= k <= l.len() {
        assert(l.word_ok(k, l.nodes()[k][j]));
    }
}

/// The cost of a step between two nodes with costs in range is within
/// `STEP_LIMIT`.
pub proof fn lemma_step_limit(bigram: SystemBigramLM, user: UserData, p: NodeView, n: NodeView)
    requires
        bigram.wf(),
        user.wf(),
        costs_in_range(n),
    ensures
        -STEP_LIMIT <= edge_cost_of(bigram, user, p, n) + n.cost <= STEP_LIMIT,
{
    lemma_bonus_at_max(
        user.bigram(),
        word_key(p.kanji, p.yomi),
        word_key(n.kanji, n.yomi),
        user.now(),
        user.half_life(),
    );
    if p.word_id is Some && n.word_id is Some {
        bigram.lemma_wf(p.word_id->0, n.word_id->0);
    }
}

} // verus!
