//! One candidate word of the lattice.
use vstd::prelude::*;
use vstd::string::StringExecFns;
use crate::cost::{BONUS_MAX, PENALTY_UNKNOWN};
use crate::lm::system_unigram_lm::{position_of, SystemUnigramLM};
use crate::user_side_data::user_data::UserData;

verus! {

/// The largest size of the cost of a word in the unigram model, known or
/// not: 65536.0.
pub const UNIGRAM_LIMIT: i64 = 0x1_0000_0000_0000;

/// The surface of the node that stands before the reading.
pub open spec fn bos_surface() -> Seq<char> {
    "__BOS__"@
}

/// The surface of the node that stands after the reading.
pub open spec fn eos_surface() -> Seq<char> {
    "__EOS__"@
}

/// The name of a word in the language models and in the user's history:
/// its surface, a slash, its reading.
pub open spec fn word_key(kanji: Seq<char>, yomi: Seq<char>) -> Seq<char> {
    kanji.push('/') + yomi
}

/// What a node holds.
pub struct NodeView {
    /// The byte offset at which the word starts; for the node after the
    /// reading, the length of the reading.
    pub start_pos: nat,
    /// The reading that the word covers.
    pub yomi: Seq<char>,
    /// The surface form of the word.
    pub kanji: Seq<char>,
    /// The name of the word: its surface, a slash, its reading.
    pub key: Seq<char>,
    /// The id of the word in the unigram model, if the model holds it.
    pub word_id: Option<u32>,
    /// The cost of the word in the unigram model.
    pub unigram_cost: int,
    /// The cost of the node: the unigram cost and the user's bonus.
    pub cost: int,
}

/// The cost of the word `key` in the model: its own, or for a word that the
/// model does not hold, the default cost less the penalty.
pub open spec fn unigram_cost_of(lm: SystemUnigramLM, key: Seq<char>) -> int {
    match position_of(lm.words(), key) {
        Some(i) => lm.costs()[i] as int,
        None => lm.default_cost() - PENALTY_UNKNOWN,
    }
}

/// The id of the word `key` in the model.
pub open spec fn word_id_of(lm: SystemUnigramLM, key: Seq<char>) -> Option<u32> {
    match position_of(lm.words(), key) {
        Some(i) => Some(i as u32),
        None => None,
    }
}

/// The node of the word with the given place, reading and surface.
pub open spec fn node_view(
    lm: SystemUnigramLM,
    user: UserData,
    start_pos: nat,
    yomi: Seq<char>,
    kanji: Seq<char>,
) -> NodeView {
    NodeView {
        start_pos,
        yomi,
        kanji,
        key: word_key(kanji, yomi),
        word_id: word_id_of(lm, word_key(kanji, yomi)),
        unigram_cost: unigram_cost_of(lm, word_key(kanji, yomi)),
        cost: unigram_cost_of(lm, word_key(kanji, yomi)) + user.unigram_bonus(
            word_key(kanji, yomi),
        ),
    }
}

/// Whether the costs of a node are within their limits.
pub open spec fn costs_in_range(n: NodeView) -> bool {
    &&& -UNIGRAM_LIMIT <= n.unigram_cost <= UNIGRAM_LIMIT
    &&& n.unigram_cost <= n.cost <= n.unigram_cost + BONUS_MAX
}

/// The costs of a node made from well-formed sources are within their
/// limits.
pub proof fn lemma_node_view_costs(
    lm: SystemUnigramLM,
    user: UserData,
    start_pos: nat,
    yomi: Seq<char>,
    kanji: Seq<char>,
)
    requires
        lm.wf(),
        user.wf(),
    ensures
        costs_in_range(node_view(lm, user, start_pos, yomi, kanji)),
{
    lm.lemma_wf();
    let key = word_key(kanji, yomi);
    if position_of(lm.words(), key) is Some {
        let i = lm.words().index_of(key);
        assert(0 <= i < lm.costs().len());
    }
    crate::user_side_data::user_data::lemma_bonus_at_max(
        user.unigram(),
        key,
        Seq::empty(),
        user.now(),
        user.half_life(),
    );
}

/// A candidate word: a stretch of the reading with one way of writing it.
#[derive(Debug)]
pub struct WordNode {
    /// The byte offset at which the word starts.
    pub start_pos: usize,
    /// The reading that the word covers.
    pub yomi: String,
    /// The surface form of the word.
    pub kanji: String,
    /// The name of the word: `kanji/yomi`.
    pub key: String,
    /// The id of the word in the unigram model, if the model holds it.
    pub word_id: Option<u32>,
    /// The cost of the word in the unigram model.
    pub unigram_cost: i64,
    /// The cost of the node.
    pub cost: i64,
}

impl View for WordNode {
    type V = NodeView;

    open spec fn view(&self) -> NodeView {
        NodeView {
            start_pos: self.start_pos as nat,
            yomi: self.yomi@,
            kanji: self.kanji@,
            key: self.key@,
            word_id: self.word_id,
            unigram_cost: self.unigram_cost as int,
            cost: self.cost as int,
        }
    }
}

impl WordNode {
    /// The invariant of a node: it carries its own name, and its costs are
    /// within their limits.
    pub open spec fn wf(&self) -> bool {
        &&& self@.key == word_key(self@.kanji, self@.yomi)
        &&& costs_in_range(self@)
    }

    /// The node of the word with the given place, reading and surface, with
    /// its id and cost from `lm` and its bonus from `user`.
    pub fn new(lm: &SystemUnigramLM, user: &UserData, start_pos: usize, yomi: &str, kanji: &str) -> (n:
        WordNode)
        requires
            lm.wf(),
            user.wf(),
        ensures
            n.wf(),
            n@ == node_view(*lm, *user, start_pos as nat, yomi@, kanji@),
    {
        let mut key = String::from_str(kanji);
        key.append("/");
        key.append(yomi);
        proof {
            reveal_strlit("/");
            assert("/"@ =~= seq!['/']);
            assert(key@ =~= word_key(kanji@, yomi@));
            lm.lemma_wf();
            lemma_node_view_costs(*lm, *user, start_pos as nat, yomi@, kanji@);
        }
        let (word_id, unigram_cost) = match lm.find(key.as_str()) {
            Some((id, cost)) => (Some(id), cost),
            None => (None, lm.get_default_cost() - PENALTY_UNKNOWN),
        };
        let bonus = user.get_unigram_cost(key.as_str());
        WordNode {
            start_pos,
            yomi: String::from_str(yomi),
            kanji: String::from_str(kanji),
            key,
            word_id,
            unigram_cost,
            cost: unigram_cost + bonus,
        }
    }

    /// The node that stands before the reading.
    pub fn create_bos(lm: &SystemUnigramLM, user: &UserData) -> (n: WordNode)
        requires
            lm.wf(),
            user.wf(),
        ensures
            n.wf(),
            n@ == node_view(*lm, *user, 0, Seq::empty(), bos_surface()),
    {
        proof {
            reveal_strlit("");
            assert(""@ =~= Seq::<char>::empty());
        }
        WordNode::new(lm, user, 0, "", "__BOS__")
    }

    /// The node that stands after a reading of `len` bytes.
    pub fn create_eos(lm: &SystemUnigramLM, user: &UserData, len: usize) -> (n: WordNode)
        requires
            lm.wf(),
            user.wf(),
        ensures
            n.wf(),
            n@ == node_view(*lm, *user, len as nat, Seq::empty(), eos_surface()),
    {
        proof {
            reveal_strlit("");
            assert(""@ =~= Seq::<char>::empty());
        }
        WordNode::new(lm, user, len, "", "__EOS__")
    }

    /// A copy of the node.
    pub fn duplicate(&self) -> (n: WordNode)
        ensures
            n@ == self@,
    {
        WordNode {
            start_pos: self.start_pos,
            yomi: self.yomi.clone(),
            kanji: self.kanji.clone(),
            key: self.key.clone(),
            word_id: self.word_id,
            unigram_cost: self.unigram_cost,
            cost: self.cost,
        }
    }
}

} // verus!
