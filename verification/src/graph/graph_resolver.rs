//! Finds the best path through a lattice.
//!
//! The score of a path is the sum of the costs of its steps, where a step
//! costs the edge between two nodes and the node that it leads to. A larger
//! score is better. The best score of a node is the largest score of a path
//! from the first node to it; among predecessors that give the same score,
//! the one that stands first in its list is taken.
use vstd::prelude::*;
use vstd::string::StringExecFns;
use crate::graph::lattice_graph::{
    edge_cost_of,
    lemma_step_limit,
    node_views,
    reads_stretch,
    LatticeGraph,
    STEP_LIMIT,
};
use crate::graph::word_node::NodeView;
use crate::text::{byte_offset, lemma_byte_offset_monotone};

verus! {

/// Why a lattice has no path from its first node to its last.
#[derive(Clone, Copy, Debug, PartialEq, Eq, Structural)]
pub enum ViterbiError {
    /// A word starts where no word ends: the segmentation is incomplete.
    IncompleteSegmentation,
    /// Every word joins up, but no word ends where the reading ends.
    UnreachableEos,
}

/// The position at which node `j` of list `k` starts.
pub open spec fn start_of(l: LatticeGraph, k: int, j: int) -> int {
    l.nodes()[k][j].start_pos as int
}

/// The number of predecessors of node `j` of list `k`.
pub open spec fn pred_count(l: LatticeGraph, k: int, j: int) -> nat {
    l.nodes()[start_of(l, k, j)].len()
}

/// The cost of the step from node `i` of list `s` to node `j` of list `k`.
pub open spec fn step_cost(l: LatticeGraph, s: int, i: int, k: int, j: int) -> int {
    l.edge_cost(l.nodes()[s][i], l.nodes()[k][j]) + l.nodes()[k][j].cost
}

/// The best score with which node `j` of list `k` is reached through one
/// of its first `m` predecessors. The first node has the score 0.
pub open spec fn best_upto(l: LatticeGraph, k: int, j: int, m: nat) -> int
    decreases k, m,
{
    let s = start_of(l, k, j);
    if k <= 0 || m == 0 || s < 0 || s >= k {
        0
    } else {
        let through = best_upto(l, s, m - 1, pred_count(l, s, m - 1)) + step_cost(l, s, m - 1, k, j);
        if m == 1 {
            through
        } else {
            let before = best_upto(l, k, j, (m - 1) as nat);
            if through > before {
                through
            } else {
                before
            }
        }
    }
}

/// The best score with which node `j` of list `k` is reached.
pub open spec fn best_score(l: LatticeGraph, k: int, j: int) -> int {
    best_upto(l, k, j, pred_count(l, k, j))
}

/// The score with which node `j` of list `k` is reached through its
/// predecessor `i`.
pub open spec fn score_through(l: LatticeGraph, k: int, j: int, i: int) -> int {
    best_score(l, start_of(l, k, j), i) + step_cost(l, start_of(l, k, j), i, k, j)
}

/// Which of the first `m` predecessors of node `j` of list `k` gives the
/// best score: the first of those that do.
pub open spec fn best_prev_upto(l: LatticeGraph, k: int, j: int, m: nat) -> int
    decreases m,
{
    if m <= 1 {
        0
    } else if score_through(l, k, j, m - 1) > best_upto(l, k, j, (m - 1) as nat) {
        m - 1
    } else {
        best_prev_upto(l, k, j, (m - 1) as nat)
    }
}

/// The predecessor through which node `j` of list `k` is reached best.
pub open spec fn best_prev(l: LatticeGraph, k: int, j: int) -> int {
    best_prev_upto(l, k, j, pred_count(l, k, j))
}

/// The best path from the first node to node `j` of list `k`: each node
/// as its list and its place in the list.
pub open spec fn best_path(l: LatticeGraph, k: int, j: int) -> Seq<(int, int)>
    decreases k,
{
    let s = start_of(l, k, j);
    if k <= 0 || s < 0 || s >= k {
        seq![(k, j)]
    } else {
        best_path(l, s, best_prev(l, k, j)).push((k, j))
    }
}

/// The score of a path: the sum of the costs of its steps.
pub open spec fn path_score(l: LatticeGraph, path: Seq<(int, int)>) -> int
    decreases path.len(),
{
    if path.len() <= 1 {
        0
    } else {
        path_score(l, path.drop_last()) + step_cost(
            l,
            path[path.len() - 2].0,
            path[path.len() - 2].1,
            path.last().0,
            path.last().1,
        )
    }
}

/// Whether `path` leads from the first node of the lattice along its edges:
/// every node of it is a node of the lattice, and each but the first is
/// another node than the first and starts where the one before it ends.
pub open spec fn is_path(l: LatticeGraph, path: Seq<(int, int)>) -> bool {
    &&& path.len() >= 1
    &&& path[0] == (0int, 0int)
    &&& forall|t: int|
        0 <= t < path.len() ==> 0 <= (#[trigger] path[t]).0 < l.nodes().len() && 0 <= path[t].1
            < l.nodes()[path[t].0].len()
    &&& forall|t: int|
        1 <= t < path.len() ==> (#[trigger] path[t]).0 >= 1 && start_of(l, path[t].0, path[t].1)
            == path[t - 1].0
}

/// What node `j` of list `k` adds to the result: its surface, or nothing
/// for the nodes before and after the reading.
pub open spec fn word_surface(l: LatticeGraph, k: int, j: int) -> Seq<char> {
    if 1 <= k <= l.len() {
        l.nodes()[k][j].kanji
    } else {
        Seq::empty()
    }
}

/// The surfaces of the words along a path, one after the other.
pub open spec fn path_surface(l: LatticeGraph, path: Seq<(int, int)>) -> Seq<char>
    decreases path.len(),
{
    if path.len() == 0 {
        Seq::empty()
    } else {
        path_surface(l, path.drop_last()) + word_surface(l, path.last().0, path.last().1)
    }
}

/// Whether every word of the lattice starts where another node ends.
pub open spec fn words_joined(l: LatticeGraph) -> bool {
    forall|k: int, j: int|
        1 <= k <= l.len() && 0 <= j < l.nodes()[k].len() ==> l.nodes()[(
        #[trigger] l.nodes()[k][j]).start_pos as int].len() > 0
}

/// Whether a node ends where the reading ends.
pub open spec fn end_joined(l: LatticeGraph) -> bool {
    l.nodes()[l.len() as int].len() > 0
}

/// A lattice is complete exactly if its words join up and one of them ends
/// where the reading ends.
pub proof fn lemma_complete(l: LatticeGraph)
    requires
        l.wf(),
    ensures
        l.complete() <==> words_joined(l) && end_joined(l),
{
    if words_joined(l) && end_joined(l) {
        assert forall|k: int, j: int|
            1 <= k < l.nodes().len() && 0 <= j < l.nodes()[k].len() implies l.nodes()[(
        #[trigger] l.nodes()[k][j]).start_pos as int].len() > 0 by {
            if k == l.last() {
                assert(j == 0);
            }
        }
    }
    if l.complete() {
        assert(l.nodes()[l.nodes()[l.last()][0].start_pos as int].len() > 0);
    }
}

/// Every node of a well-formed lattice starts before the position at which
/// it is listed.
pub proof fn lemma_starts_before(l: LatticeGraph, k: int, j: int)
    requires
        l.wf(),
        1 <= k <= l.last(),
        0 <= j < l.nodes()[k].len(),
    ensures
        0 <= start_of(l, k, j) < k,
{
    if k <= l.len() {
        assert(l.word_ok(k, l.nodes()[k][j]));
    }
}

/// The best score through the first `m` predecessors is the score through
/// the one that `best_prev_upto` names, and no score through any of them is
/// larger.
pub proof fn lemma_best_upto(l: LatticeGraph, k: int, j: int, m: nat)
    requires
        l.wf(),
        1 <= k <= l.last(),
        0 <= j < l.nodes()[k].len(),
        1 <= m <= pred_count(l, k, j),
    ensures
        0 <= best_prev_upto(l, k, j, m) < m,
        best_upto(l, k, j, m) == score_through(l, k, j, best_prev_upto(l, k, j, m)),
        forall|i: int| 0 <= i < m ==> score_through(l, k, j, i) <= best_upto(l, k, j, m),
    decreases m,
{
    lemma_starts_before(l, k, j);
    if m > 1 {
        lemma_best_upto(l, k, j, (m - 1) as nat);
    }
}

/// The best score of a node that lies `k` positions into the lattice is no
/// larger in size than `k` steps.
pub proof fn lemma_best_score_limit(l: LatticeGraph, k: int, j: int, m: nat)
    requires
        l.wf(),
        0 <= k <= l.last(),
        0 <= j < l.nodes()[k].len(),
        m <= pred_count(l, k, j),
    ensures
        -k * STEP_LIMIT <= best_upto(l, k, j, m) <= k * STEP_LIMIT,
    decreases k, m,
{
    if k > 0 && m > 0 {
        lemma_starts_before(l, k, j);
        let s = start_of(l, k, j);
        lemma_best_score_limit(l, s, m - 1, pred_count(l, s, m - 1));
        lemma_step_limit(l.bigram(), l.user(), l.nodes()[s][m - 1], l.nodes()[k][j]);
        if m > 1 {
            lemma_best_score_limit(l, k, j, (m - 1) as nat);
        }
        assert(s * STEP_LIMIT + STEP_LIMIT <= k * STEP_LIMIT) by (nonlinear_arith)
            requires
                s + 1 <= k,
        ;
    }
}

/// In a complete lattice the best path to a node is a path of the lattice
/// that ends at the node, and its score is the best score of the node.
pub proof fn lemma_best_path(l: LatticeGraph, k: int, j: int)
    requires
        l.wf(),
        l.complete(),
        0 <= k <= l.last(),
        0 <= j < l.nodes()[k].len(),
    ensures
        is_path(l, best_path(l, k, j)),
        best_path(l, k, j).last() == (k, j),
        path_score(l, best_path(l, k, j)) == best_score(l, k, j),
    decreases k,
{
    if k > 0 {
        lemma_starts_before(l, k, j);
        let s = start_of(l, k, j);
        assert(l.nodes()[l.nodes()[k][j].start_pos as int].len() > 0);
        lemma_best_upto(l, k, j, pred_count(l, k, j));
        let i = best_prev(l, k, j);
        lemma_best_path(l, s, i);
        let before = best_path(l, s, i);
        let path = best_path(l, k, j);
        assert(path.drop_last() =~= before);
        assert(path[path.len() - 2] == before.last());
        assert forall|t: int| 1 <= t < path.len() implies (#[trigger] path[t]).0 >= 1 && start_of(
            l,
            path[t].0,
            path[t].1,
        ) == path[t - 1].0 by {
            if t < before.len() {
                assert(path[t] == before[t]);
                assert(path[t - 1] == before[t - 1]);
            }
        }
        assert forall|t: int| 0 <= t < path.len() implies 0 <= (#[trigger] path[t]).0
            < l.nodes().len() && 0 <= path[t].1 < l.nodes()[path[t].0].len() by {
            if t < before.len() {
                assert(path[t] == before[t]);
            }
        }
        assert(path[0] == before[0]);
    } else {
        assert(j == 0);
        assert(best_path(l, k, j) =~= seq![(0int, 0int)]);
    }
}

/// No path of the lattice has a larger score than the best score of the
/// node at which it ends.
pub proof fn lemma_best_score_is_best(l: LatticeGraph, path: Seq<(int, int)>)
    requires
        l.wf(),
        is_path(l, path),
    ensures
        path_score(l, path) <= best_score(l, path.last().0, path.last().1),
    decreases path.len(),
{
    let k = path.last().0;
    let j = path.last().1;
    if path.len() == 1 {
        assert(k == 0);
    } else {
        let before = path.drop_last();
        assert(before[0] == path[0]);
        assert forall|t: int| 0 <= t < before.len() implies 0 <= (#[trigger] before[t]).0
            < l.nodes().len() && 0 <= before[t].1 < l.nodes()[before[t].0].len() by {
            assert(before[t] == path[t]);
        }
        assert forall|t: int| 1 <= t < before.len() implies (#[trigger] before[t]).0 >= 1
            && start_of(l, before[t].0, before[t].1) == before[t - 1].0 by {
            assert(before[t] == path[t]);
            assert(before[t - 1] == path[t - 1]);
        }
        lemma_best_score_is_best(l, before);
        let s = path[path.len() - 2].0;
        let i = path[path.len() - 2].1;
        assert(path[path.len() - 1] == path.last());
        assert(start_of(l, path[path.len() - 1].0, path[path.len() - 1].1) == path[path.len() - 2].0);
        assert(before.last() == path[path.len() - 2]);
        assert(path[path.len() - 1].0 >= 1);
        assert(k <= l.last());
        lemma_starts_before(l, k, j);
        assert(start_of(l, k, j) == s);
        assert(0 <= i < l.nodes()[s].len());
        lemma_best_upto(l, k, j, pred_count(l, k, j));
        assert(score_through(l, k, j, i) <= best_score(l, k, j));
        assert(path_score(l, path) == path_score(l, before) + step_cost(l, s, i, k, j));
        assert(before.last() == (s, i));
    }
}

/// The result for a reading that is not empty is not empty.
pub proof fn lemma_result_not_empty(l: LatticeGraph)
    requires
        l.wf(),
        l.complete(),
        l.len() > 0,
    ensures
        path_surface(l, best_path(l, l.last(), 0)).len() > 0,
{
    let len = l.len() as int;
    lemma_starts_before(l, l.last(), 0);
    assert(l.nodes()[l.nodes()[l.last()][0].start_pos as int].len() > 0);
    lemma_best_upto(l, l.last(), 0, pred_count(l, l.last(), 0));
    let p = best_prev(l, l.last(), 0);
    let whole = best_path(l, l.last(), 0);
    let upto = best_path(l, len, p);
    assert(start_of(l, l.last(), 0) == len);
    assert(whole == upto.push((l.last(), 0int)));
    assert(whole.drop_last() =~= upto);
    assert(whole.last() == (l.last(), 0int));
    assert(path_surface(l, whole) == path_surface(l, upto) + word_surface(l, l.last(), 0));
    lemma_starts_before(l, len, p);
    assert(l.word_ok(len, l.nodes()[len][p]));
    let head = best_path(l, start_of(l, len, p), best_prev(l, len, p));
    assert(upto == head.push((len, p)));
    assert(upto.drop_last() =~= head);
    assert(upto.last() == (len, p));
    assert(path_surface(l, upto) == path_surface(l, head) + word_surface(l, len, p));
    assert(word_surface(l, len, p).len() > 0);
}

/// What node `j` of list `k` reads: its reading, or nothing for the nodes
/// before and after the reading.
pub open spec fn word_reading(l: LatticeGraph, k: int, j: int) -> Seq<char> {
    if 1 <= k <= l.len() {
        l.nodes()[k][j].yomi
    } else {
        Seq::empty()
    }
}

/// The readings of the words along a path, one after the other.
pub open spec fn path_reading(l: LatticeGraph, path: Seq<(int, int)>) -> Seq<char>
    decreases path.len(),
{
    if path.len() == 0 {
        Seq::empty()
    } else {
        path_reading(l, path.drop_last()) + word_reading(l, path.last().0, path.last().1)
    }
}

/// Two places of the reading with the same byte offset are one place.
pub proof fn lemma_same_offset(yomi: Seq<char>, a: int, b: int)
    requires
        0 <= a <= yomi.len(),
        0 <= b <= yomi.len(),
        byte_offset(yomi, a) == byte_offset(yomi, b),
    ensures
        a == b,
{
    if a < b {
        lemma_byte_offset_monotone(yomi, a, b);
    } else if b < a {
        lemma_byte_offset_monotone(yomi, b, a);
    }
}

/// A path of a lattice whose words read the stretches that they cover
/// reads the reading up to where its last word ends.
pub proof fn lemma_path_reads_prefix(l: LatticeGraph, path: Seq<(int, int)>)
    requires
        l.wf(),
        l.words_read_reading(),
        is_path(l, path),
        path.last().0 <= l.len(),
    ensures
        exists|to: int|
            0 <= to <= l.yomi().len() && #[trigger] byte_offset(l.yomi(), to) == path.last().0
                && path_reading(l, path) == l.yomi().take(to),
    decreases path.len(),
{
    let yomi = l.yomi();
    let k = path.last().0;
    let j = path.last().1;
    if path.len() == 1 {
        assert(yomi.take(0) =~= Seq::<char>::empty());
        assert(path.drop_last() =~= Seq::<(int, int)>::empty());
        assert(path_reading(l, path.drop_last()) =~= Seq::<char>::empty());
        assert(path_reading(l, path) =~= yomi.take(0));
        assert(byte_offset(yomi, 0) == 0);
    } else {
        let before = path.drop_last();
        assert(before[0] == path[0]);
        assert forall|t: int| 0 <= t < before.len() implies 0 <= (#[trigger] before[t]).0
            < l.nodes().len() && 0 <= before[t].1 < l.nodes()[before[t].0].len() by {
            assert(before[t] == path[t]);
        }
        assert forall|t: int| 1 <= t < before.len() implies (#[trigger] before[t]).0 >= 1
            && start_of(l, before[t].0, before[t].1) == before[t - 1].0 by {
            assert(before[t] == path[t]);
            assert(before[t - 1] == path[t - 1]);
        }
        assert(path[path.len() - 1] == path.last());
        assert(path[path.len() - 1].0 >= 1);
        assert(start_of(l, path[path.len() - 1].0, path[path.len() - 1].1) == path[path.len()
            - 2].0);
        assert(before.last() == path[path.len() - 2]);
        lemma_starts_before(l, k, j);
        lemma_path_reads_prefix(l, before);
        let upto = choose|to: int|
            0 <= to <= yomi.len() && #[trigger] byte_offset(yomi, to) == before.last().0
                && path_reading(l, before) == yomi.take(to);
        let n = l.nodes()[k][j];
        assert(reads_stretch(yomi, k, n));
        let (from, to) = choose|from: int, to: int|
            {
                &&& 0 <= from <= to <= yomi.len()
                &&& byte_offset(yomi, from) == n.start_pos
                &&& byte_offset(yomi, to) == k
                &&& n.yomi == #[trigger] yomi.subrange(from, to)
            };
        lemma_same_offset(yomi, from, upto);
        assert(yomi.take(from) + yomi.subrange(from, to) =~= yomi.take(to));
        assert(byte_offset(yomi, to) == path.last().0);
    }
}

/// A path from the first node to the last of a lattice whose words read
/// the stretches that they cover reads the whole reading: the readings of
/// its words, one after the other, are the reading.
pub proof fn lemma_path_reads_reading(l: LatticeGraph, path: Seq<(int, int)>)
    requires
        l.wf(),
        l.words_read_reading(),
        is_path(l, path),
        path.last() == (l.last(), 0int),
    ensures
        path_reading(l, path) == l.yomi(),
{
    let yomi = l.yomi();
    let before = path.drop_last();
    assert(path.len() >= 2) by {
        if path.len() == 1 {
            assert(path[0] == path.last());
        }
    }
    assert(before[0] == path[0]);
    assert forall|t: int| 0 <= t < before.len() implies 0 <= (#[trigger] before[t]).0
        < l.nodes().len() && 0 <= before[t].1 < l.nodes()[before[t].0].len() by {
        assert(before[t] == path[t]);
    }
    assert forall|t: int| 1 <= t < before.len() implies (#[trigger] before[t]).0 >= 1 && start_of(
        l,
        before[t].0,
        before[t].1,
    ) == before[t - 1].0 by {
        assert(before[t] == path[t]);
        assert(before[t - 1] == path[t - 1]);
    }
    assert(path[path.len() - 1] == path.last());
    assert(start_of(l, path[path.len() - 1].0, path[path.len() - 1].1) == path[path.len() - 2].0);
    assert(before.last() == path[path.len() - 2]);
    assert(before.last().0 == l.len());
    lemma_path_reads_prefix(l, before);
    let upto = choose|to: int|
        0 <= to <= yomi.len() && #[trigger] byte_offset(yomi, to) == before.last().0
            && path_reading(l, before) == yomi.take(to);
    assert(yomi.take(yomi.len() as int) =~= yomi);
    lemma_same_offset(yomi, upto, yomi.len() as int);
    assert(path_reading(l, path) =~= path_reading(l, before));
}

/// Whether `b` is `a` with its cost raised by `gain` if it is the word
/// `key`, and with the cost of `a` if it is another word.
pub open spec fn node_raised(a: NodeView, b: NodeView, key: Seq<char>, gain: int) -> bool {
    &&& b.start_pos == a.start_pos
    &&& b.yomi == a.yomi
    &&& b.kanji == a.kanji
    &&& b.key == a.key
    &&& b.word_id == a.word_id
    &&& b.unigram_cost == a.unigram_cost
    &&& b.cost == a.cost + if a.key == key {
        gain
    } else {
        0
    }
}

/// Whether `b` is the lattice `a` with the cost of every node of the word
/// `key` raised by `gain`, and all else as in `a`.
pub open spec fn lattice_raised(a: LatticeGraph, b: LatticeGraph, key: Seq<char>, gain: int) -> bool {
    &&& b.bigram() == a.bigram()
    &&& b.user().bigram() == a.user().bigram()
    &&& b.user().now() == a.user().now()
    &&& b.user().half_life() == a.user().half_life()
    &&& b.nodes().len() == a.nodes().len()
    &&& forall|k: int| 0 <= k < a.nodes().len() ==> (#[trigger] b.nodes()[k]).len() == a.nodes()[k].len()
    &&& forall|k: int, j: int|
        0 <= k < a.nodes().len() && 0 <= j < a.nodes()[k].len() ==> node_raised(
            a.nodes()[k][j],
            #[trigger] b.nodes()[k][j],
            key,
            gain,
        )
}

/// How many steps of the path lead to a node of the word `key`.
pub open spec fn times_on_path(l: LatticeGraph, path: Seq<(int, int)>, key: Seq<char>) -> nat
    decreases path.len(),
{
    if path.len() <= 1 {
        0
    } else {
        times_on_path(l, path.drop_last(), key) + if l.nodes()[path.last().0][path.last().1].key
            == key {
            1nat
        } else {
            0nat
        }
    }
}

/// Raising the cost of a word raises the score of a path by the gain for
/// each step of the path that leads to the word: a path that does not
/// pass the word keeps its score, and with a gain above zero a path that
/// passes it scores strictly more.
pub proof fn lemma_raised_path_score(
    a: LatticeGraph,
    b: LatticeGraph,
    key: Seq<char>,
    gain: int,
    path: Seq<(int, int)>,
)
    requires
        lattice_raised(a, b, key, gain),
        is_path(a, path),
    ensures
        is_path(b, path),
        path_score(b, path) == path_score(a, path) + gain * times_on_path(a, path, key),
        times_on_path(a, path, key) == 0 ==> path_score(b, path) == path_score(a, path),
        times_on_path(a, path, key) > 0 && gain > 0 ==> path_score(b, path) > path_score(a, path),
    decreases path.len(),
{
    assert forall|t: int| 0 <= t < path.len() implies 0 <= (#[trigger] path[t]).0 < b.nodes().len()
        && 0 <= path[t].1 < b.nodes()[path[t].0].len() by {
        assert(b.nodes()[path[t].0].len() == a.nodes()[path[t].0].len());
    }
    assert forall|t: int| 1 <= t < path.len() implies (#[trigger] path[t]).0 >= 1 && start_of(
        b,
        path[t].0,
        path[t].1,
    ) == path[t - 1].0 by {
        assert(node_raised(a.nodes()[path[t].0][path[t].1], b.nodes()[path[t].0][path[t].1], key, gain));
    }
    if path.len() > 1 {
        let before = path.drop_last();
        assert(before[0] == path[0]);
        assert forall|t: int| 0 <= t < before.len() implies 0 <= (#[trigger] before[t]).0
            < a.nodes().len() && 0 <= before[t].1 < a.nodes()[before[t].0].len() by {
            assert(before[t] == path[t]);
        }
        assert forall|t: int| 1 <= t < before.len() implies (#[trigger] before[t]).0 >= 1
            && start_of(a, before[t].0, before[t].1) == before[t - 1].0 by {
            assert(before[t] == path[t]);
            assert(before[t - 1] == path[t - 1]);
        }
        lemma_raised_path_score(a, b, key, gain, before);
        let s = path[path.len() - 2].0;
        let i = path[path.len() - 2].1;
        let k = path.last().0;
        let j = path.last().1;
        assert(path[path.len() - 1] == path.last());
        assert(path[path.len() - 2] == (s, i));
        let pa = a.nodes()[s][i];
        let pb = b.nodes()[s][i];
        let na = a.nodes()[k][j];
        let nb = b.nodes()[k][j];
        assert(node_raised(pa, pb, key, gain));
        assert(node_raised(na, nb, key, gain));
        assert(edge_cost_of(b.bigram(), b.user(), pb, nb) == edge_cost_of(
            a.bigram(),
            a.user(),
            pa,
            na,
        ));
        let before_times = times_on_path(a, before, key);
        assert(gain * (before_times + 1) == gain * before_times + gain) by (nonlinear_arith);
    }
    let times = times_on_path(a, path, key);
    if times > 0 && gain > 0 {
        assert(gain * times > 0) by (nonlinear_arith)
            requires
                gain > 0,
                times > 0,
        ;
    }
    if times == 0 {
        assert(gain * times == 0) by (nonlinear_arith)
            requires
                times == 0,
        ;
    }
}

/// The nodes of a path as pairs of integers.
pub open spec fn path_view(path: Seq<(usize, usize)>) -> Seq<(int, int)> {
    Seq::new(path.len(), |t: int| (path[t].0 as int, path[t].1 as int))
}

/// Whether the tables hold, for each node of the first `upto` lists, its
/// best score and the predecessor that gives it.
pub open spec fn tables_ok(l: LatticeGraph, scores: Seq<Vec<i128>>, prevs: Seq<Vec<usize>>, upto: int) -> bool {
    &&& scores.len() == upto
    &&& prevs.len() == upto
    &&& forall|a: int| 0 <= a < upto ==> (#[trigger] scores[a])@.len() == l.nodes()[a].len()
    &&& forall|a: int| 0 <= a < upto ==> (#[trigger] prevs[a])@.len() == l.nodes()[a].len()
    &&& forall|a: int, b: int|
        0 <= a < upto && 0 <= b < l.nodes()[a].len() ==> #[trigger] scores[a]@[b] == best_score(l, a, b)
    &&& forall|a: int, b: int|
        1 <= a < upto && 0 <= b < l.nodes()[a].len() ==> #[trigger] prevs[a]@[b] == best_prev(l, a, b)
            && pred_count(l, a, b) > 0
}

/// The best path through a lattice.
#[derive(Debug)]
pub struct BestPath {
    /// The nodes of the path from the first node of the lattice to its
    /// last, each as its list and its place in the list.
    pub nodes: Vec<(usize, usize)>,
    /// The score of the path.
    pub score: i128,
}

/// Resolves lattices.
#[derive(Debug)]
pub struct GraphResolver {}

impl GraphResolver {
    /// A resolver.
    pub fn new() -> GraphResolver {
        GraphResolver {  }
    }

    /// The best score of every node of the lattice, and the predecessor
    /// that gives it.
    fn fill(lattice: &LatticeGraph) -> (r: Result<(Vec<Vec<i128>>, Vec<Vec<usize>>), ViterbiError>)
        requires
            lattice.wf(),
        ensures
            match r {
                Ok(tables) => lattice.complete() && tables_ok(
                    *lattice,
                    tables.0@,
                    tables.1@,
                    lattice.last() + 1,
                ),
                Err(e) => {
                    &&& !lattice.complete()
                    &&& e == ViterbiError::IncompleteSegmentation <==> !words_joined(*lattice)
                    &&& e == ViterbiError::UnreachableEos <==> words_joined(*lattice) && !end_joined(
                        *lattice,
                    )
                },
            },
    {
        let ghost l = *lattice;
        proof {
            lemma_complete(l);
        }
        let n = lattice.list_count();
        let mut scores: Vec<Vec<i128>> = Vec::new();
        let mut prevs: Vec<Vec<usize>> = Vec::new();
        assert(l.nodes()[0].len() == 1);
        let mut first_scores: Vec<i128> = Vec::new();
        first_scores.push(0);
        let mut first_prevs: Vec<usize> = Vec::new();
        first_prevs.push(0);
        scores.push(first_scores);
        prevs.push(first_prevs);
        let mut k: usize = 1;
        while k < n
            invariant
                l == *lattice,
                l.wf(),
                n == l.last() + 1,
                1 <= k <= n,
                tables_ok(l, scores@, prevs@, k as int),
            decreases n - k,
        {
            let list = lattice.node_list(k);
            let mut row_scores: Vec<i128> = Vec::new();
            let mut row_prevs: Vec<usize> = Vec::new();
            let mut j: usize = 0;
            while j < list.len()
                invariant
                    l == *lattice,
                    l.wf(),
                    n == l.last() + 1,
                    1 <= k < n,
                    tables_ok(l, scores@, prevs@, k as int),
                    node_views(list@) == l.nodes()[k as int],
                    forall|b: int| 0 <= b < list@.len() ==> (#[trigger] list@[b]).wf(),
                    j <= list.len(),
                    row_scores.len() == j,
                    row_prevs.len() == j,
                    forall|b: int| 0 <= b < j ==> #[trigger] row_scores@[b] == best_score(l, k as int, b),
                    forall|b: int|
                        0 <= b < j ==> #[trigger] row_prevs@[b] == best_prev(l, k as int, b)
                            && pred_count(l, k as int, b) > 0,
                decreases list.len() - j,
            {
                let node = &list[j];
                assert(node@ == l.nodes()[k as int][j as int]);
                proof {
                    lemma_starts_before(l, k as int, j as int);
                }
                let s = node.start_pos;
                let preds = lattice.node_list(s);
                let m = preds.len();
                if m == 0 {
                    proof {
                        if k <= l.len() {
                            assert(l.nodes()[l.nodes()[k as int][j as int].start_pos as int].len()
                                == 0);
                        } else {
                            assert(k == l.last());
                            assert(j == 0);
                            assert forall|a: int, b: int|
                                1 <= a <= l.len() && 0 <= b < l.nodes()[a].len() implies l.nodes()[(
                            #[trigger] l.nodes()[a][b]).start_pos as int].len() > 0 by {
                                assert(prevs@[a]@[b] == best_prev(l, a, b));
                                assert(pred_count(l, a, b) > 0);
                            }
                        }
                    }
                    if k + 1 < n {
                        return Err(ViterbiError::IncompleteSegmentation);
                    } else {
                        return Err(ViterbiError::UnreachableEos);
                    }
                }
                let mut best: i128 = 0;
                let mut best_i: usize = 0;
                let mut i: usize = 0;
                while i < m
                    invariant
                        l == *lattice,
                        l.wf(),
                        1 <= k <= l.last(),
                        0 <= j < l.nodes()[k as int].len(),
                        tables_ok(l, scores@, prevs@, k as int),
                        node@ == l.nodes()[k as int][j as int],
                        node.wf(),
                        s == start_of(l, k as int, j as int),
                        0 <= s < k,
                        node_views(preds@) == l.nodes()[s as int],
                        forall|b: int| 0 <= b < preds@.len() ==> (#[trigger] preds@[b]).wf(),
                        m == preds.len(),
                        m == pred_count(l, k as int, j as int),
                        i <= m,
                        best == best_upto(l, k as int, j as int, i as nat),
                        best_i == best_prev_upto(l, k as int, j as int, i as nat),
                    decreases m - i,
                {
                    let prev = &preds[i];
                    assert(prev@ == l.nodes()[s as int][i as int]);
                    let edge = lattice.get_edge_cost(prev, node);
                    proof {
                        lemma_best_score_limit(l, s as int, i as int, pred_count(l, s as int, i as int));
                        assert(scores@[s as int]@[i as int] == best_score(l, s as int, i as int));
                        assert(s * STEP_LIMIT <= 0xffff_ffff_ffff_ffff * STEP_LIMIT) by (nonlinear_arith)
                            requires
                                0 <= s <= 0xffff_ffff_ffff_ffff,
                        ;
                    }
                    let through: i128 = scores[s][i] + (edge as i128 + node.cost as i128);
                    assert(through == score_through(l, k as int, j as int, i as int));
                    if i == 0 || through > best {
                        best = through;
                        best_i = i;
                    }
                    i = i + 1;
                }
                row_scores.push(best);
                row_prevs.push(best_i);
                j = j + 1;
            }
            let ghost scores0 = scores@;
            let ghost prevs0 = prevs@;
            scores.push(row_scores);
            prevs.push(row_prevs);
            proof {
                assert forall|a: int| 0 <= a < k + 1 implies (#[trigger] scores@[a])@.len()
                    == l.nodes()[a].len() by {
                    if a < k {
                        assert(scores@[a] == scores0[a]);
                    }
                }
                assert forall|a: int| 0 <= a < k + 1 implies (#[trigger] prevs@[a])@.len()
                    == l.nodes()[a].len() by {
                    if a < k {
                        assert(prevs@[a] == prevs0[a]);
                    }
                }
                assert forall|a: int, b: int|
                    0 <= a < k + 1 && 0 <= b < l.nodes()[a].len() implies #[trigger] scores@[a]@[b]
                    == best_score(l, a, b) by {
                    if a < k {
                        assert(scores@[a] == scores0[a]);
                        assert(scores0[a]@[b] == best_score(l, a, b));
                    }
                }
                assert forall|a: int, b: int|
                    1 <= a < k + 1 && 0 <= b < l.nodes()[a].len() implies #[trigger] prevs@[a]@[b]
                    == best_prev(l, a, b) && pred_count(l, a, b) > 0 by {
                    if a < k {
                        assert(prevs@[a] == prevs0[a]);
                        assert(prevs0[a]@[b] == best_prev(l, a, b));
                    }
                }
            }
            k = k + 1;
        }
        proof {
            assert forall|a: int, b: int|
                1 <= a < l.nodes().len() && 0 <= b < l.nodes()[a].len() implies l.nodes()[(
            #[trigger] l.nodes()[a][b]).start_pos as int].len() > 0 by {
                assert(prevs@[a]@[b] == best_prev(l, a, b));
                assert(pred_count(l, a, b) > 0);
            }
        }
        Ok((scores, prevs))
    }

    /// The best path from the first node of the lattice to its last, with
    /// its score; or the reason for which there is none.
    pub fn resolve(&self, lattice: &LatticeGraph) -> (r: Result<BestPath, ViterbiError>)
        requires
            lattice.wf(),
        ensures
            match r {
                Ok(best) => {
                    &&& lattice.complete()
                    &&& path_view(best.nodes@) == best_path(*lattice, lattice.last(), 0)
                    &&& best.score == best_score(*lattice, lattice.last(), 0)
                    &&& best.score == path_score(*lattice, path_view(best.nodes@))
                    &&& is_path(*lattice, path_view(best.nodes@))
                    &&& lattice.words_read_reading() ==> path_reading(
                        *lattice,
                        path_view(best.nodes@),
                    ) == lattice.yomi()
                },
                Err(e) => {
                    &&& !lattice.complete()
                    &&& e == ViterbiError::IncompleteSegmentation <==> !words_joined(*lattice)
                    &&& e == ViterbiError::UnreachableEos <==> words_joined(*lattice) && !end_joined(
                        *lattice,
                    )
                },
            },
    {
        let ghost l = *lattice;
        let (scores, prevs) = match Self::fill(lattice) {
            Ok(tables) => tables,
            Err(e) => {
                return Err(e);
            },
        };
        let last: usize = lattice.list_count() - 1;
        let ghost goal = best_path(l, l.last(), 0);
        let mut back: Vec<(usize, usize)> = Vec::new();
        let mut k: usize = last;
        let mut j: usize = 0;
        proof {
            assert(goal =~= best_path(l, k as int, j as int) + path_view(back@).reverse());
        }
        while k > 0
            invariant
                l == *lattice,
                l.wf(),
                last == l.last(),
                tables_ok(l, scores@, prevs@, last + 1),
                0 <= k <= last,
                0 <= j < l.nodes()[k as int].len(),
                goal == best_path(l, k as int, j as int) + path_view(back@).reverse(),
            decreases k,
        {
            let node = &lattice.node_list(k)[j];
            assert(node@ == l.nodes()[k as int][j as int]);
            proof {
                lemma_starts_before(l, k as int, j as int);
                assert(prevs@[k as int]@[j as int] == best_prev(l, k as int, j as int));
                lemma_best_upto(l, k as int, j as int, pred_count(l, k as int, j as int));
            }
            let ghost old_back = path_view(back@);
            back.push((k, j));
            let p = prevs[k][j];
            proof {
                let s = start_of(l, k as int, j as int);
                let now_back = path_view(back@);
                assert(now_back =~= old_back.push((k as int, j as int)));
                assert(now_back.reverse() =~= seq![(k as int, j as int)] + old_back.reverse());
                assert(best_path(l, k as int, j as int) =~= best_path(l, s, p as int) + seq![
                    (k as int, j as int),
                ]);
                assert(goal =~= best_path(l, s, p as int) + now_back.reverse());
            }
            k = node.start_pos;
            j = p;
        }
        assert(j == 0);
        assert(best_path(l, 0, 0) =~= seq![(0int, 0int)]);
        let mut nodes: Vec<(usize, usize)> = Vec::new();
        nodes.push((0, 0));
        let mut t: usize = back.len();
        let ghost rev = path_view(back@).reverse();
        assert(path_view(nodes@) =~= goal.take(1));
        while t > 0
            invariant
                t <= back.len(),
                rev == path_view(back@).reverse(),
                goal == seq![(0int, 0int)] + rev,
                path_view(nodes@) == goal.take(1 + back.len() - t),
            decreases t,
        {
            t = t - 1;
            let ghost before = path_view(nodes@);
            nodes.push(back[t]);
            proof {
                let c = back.len() - t;
                assert(rev[c - 1] == path_view(back@)[t as int]);
                assert(path_view(nodes@) =~= before.push(goal[c]));
                assert(goal.take(1 + c) =~= goal.take(c).push(goal[c]));
            }
        }
        assert(goal.take(1 + back.len()) =~= goal);
        proof {
            lemma_best_path(l, l.last(), 0);
            if l.words_read_reading() {
                lemma_path_reads_reading(l, goal);
            }
        }
        let score = scores[last][0];
        Ok(BestPath { nodes, score })
    }

    /// The surfaces of the words along the best path through the lattice,
    /// one after the other; or the reason for which there is no path.
    pub fn viterbi(&self, lattice: &LatticeGraph) -> (r: Result<String, ViterbiError>)
        requires
            lattice.wf(),
        ensures
            match r {
                Ok(s) => {
                    &&& lattice.complete()
                    &&& s@ == path_surface(*lattice, best_path(*lattice, lattice.last(), 0))
                    &&& lattice.len() > 0 ==> s@.len() > 0
                    &&& lattice.words_read_reading() ==> path_reading(
                        *lattice,
                        best_path(*lattice, lattice.last(), 0),
                    ) == lattice.yomi()
                },
                Err(e) => {
                    &&& !lattice.complete()
                    &&& e == ViterbiError::IncompleteSegmentation <==> !words_joined(*lattice)
                    &&& e == ViterbiError::UnreachableEos <==> words_joined(*lattice) && !end_joined(
                        *lattice,
                    )
                },
            },
    {
        let ghost l = *lattice;
        let best = match self.resolve(lattice) {
            Ok(best) => best,
            Err(e) => {
                return Err(e);
            },
        };
        let ghost path = path_view(best.nodes@);
        let size = lattice.size();
        let mut out = String::new();
        let mut t: usize = 0;
        assert(path.take(0) =~= Seq::<(int, int)>::empty());
        while t < best.nodes.len()
            invariant
                l == *lattice,
                l.wf(),
                size == l.len(),
                is_path(l, path),
                path == path_view(best.nodes@),
                t <= best.nodes.len(),
                out@ == path_surface(l, path.take(t as int)),
            decreases best.nodes.len() - t,
        {
            let (k, j) = best.nodes[t];
            assert(path[t as int] == (k as int, j as int));
            proof {
                assert(path.take(t + 1).drop_last() =~= path.take(t as int));
                assert(path.take(t + 1).last() == path[t as int]);
            }
            if 1 <= k && k <= size {
                let node = &lattice.node_list(k)[j];
                assert(node@ == l.nodes()[k as int][j as int]);
                out.append(node.kanji.as_str());
            } else {
                assert(out@ + Seq::<char>::empty() =~= out@);
            }
            t = t + 1;
        }
        proof {
            assert(path.take(best.nodes.len() as int) =~= path);
            if l.len() > 0 {
                lemma_result_not_empty(l);
            }
        }
        Ok(out)
    }
}

impl Default for GraphResolver {
    fn default() -> GraphResolver {
        GraphResolver::new()
    }
}

/// The score of node `b` of list `k` when it is reached from node `i` of
/// list `s`.
pub open spec fn score_from(l: LatticeGraph, s: int, i: int, k: int, b: int) -> int {
    best_score(l, s, i) + step_cost(l, s, i, k, b)
}

/// Whether node `a` of list `k` ranks before node `b` of the list, both
/// reached from node `i` of list `s`: it has the larger score, or the same
/// score and the earlier place in the list.
pub open spec fn ranks_before(l: LatticeGraph, s: int, i: int, k: int, a: int, b: int) -> bool {
    score_from(l, s, i, k, a) > score_from(l, s, i, k, b) || (score_from(l, s, i, k, a)
        == score_from(l, s, i, k, b) && a < b)
}

/// Whether `order` lists nodes of list `k` that start at `s`, the best
/// first: each before all that follow it.
pub open spec fn is_ranked(l: LatticeGraph, s: int, i: int, k: int, order: Seq<int>) -> bool {
    &&& forall|q: int|
        0 <= q < order.len() ==> 0 <= #[trigger] order[q] < l.nodes()[k].len() && start_of(
            l,
            k,
            order[q],
        ) == s
    &&& forall|p: int, q: int|
        0 <= p < q < order.len() ==> ranks_before(l, s, i, k, #[trigger] order[p], #[trigger] order[q])
}

/// Whether `order` lists the best `limit` of the nodes of list `k` that
/// start at `s`, or all of them if there are fewer, the best first.
pub open spec fn is_top(l: LatticeGraph, s: int, i: int, k: int, limit: int, order: Seq<int>) -> bool {
    &&& is_ranked(l, s, i, k, order)
    &&& order.len() <= limit
    &&& forall|b: int, q: int|
        0 <= b < l.nodes()[k].len() && start_of(l, k, b) == s && !order.contains(b) && 0 <= q
            < order.len() ==> #[trigger] ranks_before(l, s, i, k, order[q], b)
    &&& order.len() < limit ==> forall|b: int|
        0 <= b < l.nodes()[k].len() && start_of(l, k, b) == s ==> #[trigger] order.contains(b)
}

/// Whether `b` is listed in `order`.
pub open spec fn has_place(order: Seq<usize>, b: int) -> bool {
    exists|q: int| 0 <= q < order.len() && #[trigger] order[q] == b
}

/// One way of writing a clause.
#[derive(Debug)]
pub struct Candidate {
    /// The surface form.
    pub kanji: String,
    /// The reading that it covers.
    pub yomi: String,
    /// The score of the path up to and with this word.
    pub cost: i128,
    /// The position at which the word ends.
    pub end_pos: usize,
    /// The place of the word among the words that end there.
    pub index: usize,
}

impl Candidate {
    /// Whether the candidate is node `b` of list `k`, reached from node
    /// `i` of list `s`.
    pub open spec fn is_node(&self, l: LatticeGraph, s: int, i: int, k: int, b: int) -> bool {
        &&& self.kanji@ == l.nodes()[k][b].kanji
        &&& self.yomi@ == l.nodes()[k][b].yomi
        &&& self.cost == score_from(l, s, i, k, b)
        &&& self.end_pos == k
        &&& self.index == b
    }
}

/// The places of the candidates in their list.
pub open spec fn candidate_places(cands: Seq<Candidate>) -> Seq<int> {
    Seq::new(cands.len(), |q: int| cands[q].index as int)
}

/// Whether `cands` are the best `limit` ways of writing clause `t` of the
/// best path, the best first: the nodes that cover the stretch that the
/// word of the path covers, each with the score that it has when it
/// follows the word before it on the path.
pub open spec fn is_clause(l: LatticeGraph, path: Seq<(int, int)>, t: int, limit: int, cands: Seq<Candidate>) -> bool {
    &&& is_top(l, path[t - 1].0, path[t - 1].1, path[t].0, limit, candidate_places(cands))
    &&& forall|q: int|
        0 <= q < cands.len() ==> (#[trigger] cands[q]).is_node(
            l,
            path[t - 1].0,
            path[t - 1].1,
            path[t].0,
            cands[q].index as int,
        )
}

impl GraphResolver {
    /// The nodes of list `k` that start at `s`, the best first, each with
    /// its score when it is reached from node `i` of list `s`, whose best
    /// score is `base`.
    fn rank(lattice: &LatticeGraph, s: usize, i: usize, k: usize, base: i128) -> (r: (Vec<usize>, Vec<i128>))
        requires
            lattice.wf(),
            1 <= k <= lattice.last(),
            s < lattice.nodes().len(),
            i < lattice.nodes()[s as int].len(),
            s < k,
            base == best_score(*lattice, s as int, i as int),
        ensures
            r.1.len() == r.0.len(),
            is_ranked(*lattice, s as int, i as int, k as int, r.0@.map_values(|b: usize| b as int)),
            forall|b: int|
                0 <= b < lattice.nodes()[k as int].len() && start_of(*lattice, k as int, b) == s
                    ==> #[trigger] has_place(r.0@, b),
            forall|q: int|
                0 <= q < r.0.len() ==> #[trigger] r.1@[q] == score_from(
                    *lattice,
                    s as int,
                    i as int,
                    k as int,
                    r.0@[q] as int,
                ),
    {
        let ghost l = *lattice;
        let list = lattice.node_list(k);
        let from = &lattice.node_list(s)[i];
        assert(from@ == l.nodes()[s as int][i as int]);
        let mut order: Vec<usize> = Vec::new();
        let mut costs: Vec<i128> = Vec::new();
        let mut b: usize = 0;
        while b < list.len()
            invariant
                l == *lattice,
                l.wf(),
                1 <= k <= l.last(),
                s < k,
                i < l.nodes()[s as int].len(),
                base == best_score(l, s as int, i as int),
                from@ == l.nodes()[s as int][i as int],
                from.wf(),
                node_views(list@) == l.nodes()[k as int],
                forall|c: int| 0 <= c < list@.len() ==> (#[trigger] list@[c]).wf(),
                b <= list.len(),
                order.len() == costs.len(),
                forall|q: int|
                    0 <= q < order.len() ==> 0 <= #[trigger] order@[q] < b && start_of(
                        l,
                        k as int,
                        order@[q] as int,
                    ) == s,
                forall|p: int, q: int|
                    0 <= p < q < order.len() ==> ranks_before(
                        l,
                        s as int,
                        i as int,
                        k as int,
                        #[trigger] order@[p] as int,
                        #[trigger] order@[q] as int,
                    ),
                forall|c: int|
                    0 <= c < b && start_of(l, k as int, c) == s ==> #[trigger] has_place(order@, c),
                forall|q: int|
                    0 <= q < order.len() ==> #[trigger] costs@[q] == score_from(
                        l,
                        s as int,
                        i as int,
                        k as int,
                        order@[q] as int,
                    ),
            decreases list.len() - b,
        {
            let node = &list[b];
            assert(node@ == l.nodes()[k as int][b as int]);
            if node.start_pos != s {
                b = b + 1;
                continue ;
            }
            let edge = lattice.get_edge_cost(from, node);
            proof {
                lemma_best_score_limit(l, s as int, i as int, pred_count(l, s as int, i as int));
                assert(s * STEP_LIMIT <= 0xffff_ffff_ffff_ffff * STEP_LIMIT) by (nonlinear_arith)
                    requires
                        0 <= s <= 0xffff_ffff_ffff_ffff,
                ;
            }
            let score: i128 = base + (edge as i128 + node.cost as i128);
            assert(score == score_from(l, s as int, i as int, k as int, b as int));
            let mut at: usize = order.len();
            while at > 0 && costs[at - 1] < score
                invariant
                    at <= order.len(),
                    order.len() == costs.len(),
                    forall|q: int| at <= q < order.len() ==> #[trigger] costs@[q] < score,
                decreases at,
            {
                at = at - 1;
            }
            let ghost order0 = order@;
            let ghost costs0 = costs@;
            order.insert(at, b);
            costs.insert(at, score);
            proof {
                assert forall|q: int| 0 <= q < order.len() implies 0 <= #[trigger] order@[q] < b + 1
                    && start_of(l, k as int, order@[q] as int) == s by {
                    if q < at {
                        assert(order@[q] == order0[q]);
                    } else if q > at {
                        assert(order@[q] == order0[q - 1]);
                    }
                }
                assert forall|q: int| 0 <= q < order.len() implies #[trigger] costs@[q] == score_from(
                    l,
                    s as int,
                    i as int,
                    k as int,
                    order@[q] as int,
                ) by {
                    if q < at {
                        assert(order@[q] == order0[q]);
                        assert(costs@[q] == costs0[q]);
                    } else if q > at {
                        assert(order@[q] == order0[q - 1]);
                        assert(costs@[q] == costs0[q - 1]);
                    }
                }
                assert forall|p: int, q: int| 0 <= p < q < order.len() implies ranks_before(
                    l,
                    s as int,
                    i as int,
                    k as int,
                    #[trigger] order@[p] as int,
                    #[trigger] order@[q] as int,
                ) by {
                    assert(costs@[p] == score_from(l, s as int, i as int, k as int, order@[p] as int));
                    assert(costs@[q] == score_from(l, s as int, i as int, k as int, order@[q] as int));
                    if q < at {
                        assert(order@[p] == order0[p] && order@[q] == order0[q]);
                    } else if p > at {
                        assert(order@[p] == order0[p - 1] && order@[q] == order0[q - 1]);
                    } else if p < at && q > at {
                        assert(order@[p] == order0[p] && order@[q] == order0[q - 1]);
                    } else if p == at {
                        assert(costs@[q] == costs0[q - 1]);
                        assert(costs0[q - 1] < score);
                    } else {
                        assert(q == at);
                        assert(order@[p] == order0[p]);
                        assert(costs@[p] == costs0[p]);
                        if at > 0 {
                            assert(costs0[at - 1] >= score);
                            if p < at - 1 {
                                assert(ranks_before(
                                    l,
                                    s as int,
                                    i as int,
                                    k as int,
                                    order0[p] as int,
                                    order0[at - 1] as int,
                                ));
                            }
                        }
                        assert(order0[p] < b);
                    }
                }
                assert forall|c: int| 0 <= c < b + 1 && start_of(l, k as int, c) == s implies #[trigger] has_place(
                    order@,
                    c,
                ) by {
                    if c == b {
                        assert(order@[at as int] == c);
                    } else {
                        assert(has_place(order0, c));
                        let q0 = choose|q: int| 0 <= q < order0.len() && #[trigger] order0[q] == c;
                        if q0 < at {
                            assert(order@[q0] == c);
                        } else {
                            assert(order@[q0 + 1] == c);
                        }
                    }
                }
            }
            b = b + 1;
        }
        (order, costs)
    }

    /// The clauses of the best path, each with its best `limit` ways of
    /// writing it, the best first; or the reason for which there is no
    /// path. With a `limit` of 0 every clause has all its ways.
    pub fn viterbi_nbest(&self, lattice: &LatticeGraph, limit: usize) -> (r: Result<
        Vec<Vec<Candidate>>,
        ViterbiError,
    >)
        requires
            lattice.wf(),
        ensures
            match r {
                Ok(clauses) => {
                    &&& lattice.complete()
                    &&& clauses.len() + 2 == best_path(*lattice, lattice.last(), 0).len()
                    &&& forall|c: int|
                        0 <= c < clauses.len() ==> is_clause(
                            *lattice,
                            best_path(*lattice, lattice.last(), 0),
                            c + 1,
                            if limit == 0 {
                                usize::MAX as int
                            } else {
                                limit as int
                            },
                            (#[trigger] clauses[c])@,
                        )
                    &&& forall|c: int| 0 <= c < clauses.len() ==> (#[trigger] clauses[c])@.len() > 0
                },
                Err(e) => {
                    &&& !lattice.complete()
                    &&& e == ViterbiError::IncompleteSegmentation <==> !words_joined(*lattice)
                    &&& e == ViterbiError::UnreachableEos <==> words_joined(*lattice) && !end_joined(
                        *lattice,
                    )
                },
            },
    {
        let ghost l = *lattice;
        let best = match self.resolve(lattice) {
            Ok(best) => best,
            Err(e) => {
                return Err(e);
            },
        };
        let ghost path = path_view(best.nodes@);
        let cap: usize = if limit == 0 {
            usize::MAX
        } else {
            limit
        };
        let (scores, prevs) = match Self::fill(lattice) {
            Ok(tables) => tables,
            Err(e) => {
                return Err(e);
            },
        };
        proof {
            lemma_best_path(l, l.last(), 0);
            assert(path.len() >= 2) by {
                assert(path.last() == (l.last(), 0int));
                assert(path[0] == (0int, 0int));
            }
        }
        let mut clauses: Vec<Vec<Candidate>> = Vec::new();
        let mut t: usize = 1;
        while t + 1 < best.nodes.len()
            invariant
                l == *lattice,
                l.wf(),
                l.complete(),
                is_path(l, path),
                path == path_view(best.nodes@),
                path == best_path(l, l.last(), 0),
                path.last() == (l.last(), 0int),
                path.len() >= 2,
                tables_ok(l, scores@, prevs@, l.last() + 1),
                cap == (if limit == 0 {
                    usize::MAX as int
                } else {
                    limit as int
                }),
                cap >= 1,
                1 <= t < best.nodes.len(),
                clauses.len() == t - 1,
                forall|c: int|
                    0 <= c < clauses.len() ==> is_clause(l, path, c + 1, cap as int, (#[trigger] clauses[c])@),
                forall|c: int| 0 <= c < clauses.len() ==> (#[trigger] clauses[c])@.len() > 0,
            decreases best.nodes.len() - t,
        {
            let (s, i) = best.nodes[t - 1];
            let (k, j) = best.nodes[t];
            assert(path[t as int] == (k as int, j as int));
            assert(path[t - 1] == (s as int, i as int));
            assert(start_of(l, k as int, j as int) == s);
            proof {
                lemma_starts_before(l, k as int, j as int);
                assert(scores@[s as int]@[i as int] == best_score(l, s as int, i as int));
            }
            let base = scores[s][i];
            let (order, costs) = Self::rank(lattice, s, i, k, base);
            let list = lattice.node_list(k);
            let ghost whole = order@.map_values(|b: usize| b as int);
            let count: usize = if cap < order.len() {
                cap
            } else {
                order.len()
            };
            let mut cands: Vec<Candidate> = Vec::new();
            let mut q: usize = 0;
            while q < count
                invariant
                    l == *lattice,
                    count <= order.len(),
                    order.len() == costs.len(),
                    node_views(list@) == l.nodes()[k as int],
                    whole == order@.map_values(|b: usize| b as int),
                    is_ranked(l, s as int, i as int, k as int, whole),
                    forall|p: int|
                        0 <= p < order.len() ==> #[trigger] costs@[p] == score_from(
                            l,
                            s as int,
                            i as int,
                            k as int,
                            order@[p] as int,
                        ),
                    q <= count,
                    cands.len() == q,
                    forall|p: int|
                        0 <= p < q ==> (#[trigger] cands@[p]).is_node(
                            l,
                            s as int,
                            i as int,
                            k as int,
                            order@[p] as int,
                        ),
                decreases count - q,
            {
                let b = order[q];
                assert(whole[q as int] == b);
                let node = &list[b];
                assert(node@ == l.nodes()[k as int][b as int]);
                cands.push(
                    Candidate {
                        kanji: node.kanji.clone(),
                        yomi: node.yomi.clone(),
                        cost: costs[q],
                        end_pos: k,
                        index: b,
                    },
                );
                q = q + 1;
            }
            proof {
                let places = candidate_places(cands@);
                assert(places =~= whole.take(count as int));
                assert forall|b: int, p: int|
                    0 <= b < l.nodes()[k as int].len() && start_of(l, k as int, b) == s
                        && !places.contains(b) && 0 <= p < places.len() implies #[trigger] ranks_before(
                    l,
                    s as int,
                    i as int,
                    k as int,
                    places[p],
                    b,
                ) by {
                    assert(has_place(order@, b));
                    let w = choose|w: int| 0 <= w < order.len() && #[trigger] order@[w] == b;
                    assert(whole[w] == b);
                    if w < count {
                        assert(places[w] == b);
                    }
                    assert(ranks_before(l, s as int, i as int, k as int, whole[p], whole[w]));
                }
                if places.len() < cap {
                    assert forall|b: int|
                        0 <= b < l.nodes()[k as int].len() && start_of(l, k as int, b) == s implies #[trigger] places.contains(
                        b,
                    ) by {
                        assert(has_place(order@, b));
                        let w = choose|w: int| 0 <= w < order.len() && #[trigger] order@[w] == b;
                        assert(places[w] == b);
                    }
                }
                assert(has_place(order@, j as int));
            }
            clauses.push(cands);
            t = t + 1;
        }
        Ok(clauses)
    }
}

} // verus!
