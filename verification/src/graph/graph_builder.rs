//! Builds the lattice of a reading from its segmentation.
//!
//! Every segment becomes one node for each way of writing it that the
//! dictionary lists, or where the dictionary lists none, one node that
//! leaves the segment as it is read.
use std::rc::Rc;
use vstd::prelude::*;
use crate::graph::graph_resolver::{lattice_raised, node_raised};
use crate::graph::lattice_graph::{node_views, reads_stretch, LatticeGraph};
use crate::graph::segmenter::{
    has_end,
    lemma_segment_is_stretch,
    lemma_segmentation_joined,
    seg_fits,
    seg_joined,
    segmentation,
    SegmentationResult,
};
use crate::graph::word_node::{bos_surface, eos_surface, node_view, word_key, NodeView, WordNode};
use crate::kana_kanji::marisa_kana_kanji_dict::{lookup, MarisaKanaKanjiDict};
use crate::lm::system_bigram::SystemBigramLM;
use crate::lm::system_unigram_lm::SystemUnigramLM;
use crate::text::{
    byte_len,
    byte_offset,
    lemma_byte_len_bounds,
    lemma_byte_offset_monotone,
    str_byte_len,
    strings_view,
};
use crate::user_side_data::user_data::UserData;

verus! {

/// Why no lattice was built.
#[derive(Clone, Copy, Debug, PartialEq, Eq, Structural)]
pub enum GraphError {
    /// The reading is so long that its positions do not fit in `usize`.
    ReadingTooLong,
    /// A segment is empty, or longer than the stretch that ends where the
    /// segment ends, or ends behind the reading.
    SegmentOutOfRange,
}

/// The surface forms among `s` that are not empty, in their order.
pub open spec fn written_forms(s: Seq<Seq<char>>) -> Seq<Seq<char>>
    decreases s.len(),
{
    if s.len() == 0 {
        Seq::empty()
    } else if s.last().len() > 0 {
        written_forms(s.drop_last()).push(s.last())
    } else {
        written_forms(s.drop_last())
    }
}

/// The ways of writing `word`: the surface forms that the dictionary lists
/// for it, without the empty ones; or where there is none, the word itself.
pub open spec fn surfaces_for(dict_keys: Seq<Seq<char>>, word: Seq<char>) -> Seq<Seq<char>> {
    let listed = match lookup(dict_keys, word) {
        Some(s) => written_forms(s),
        None => Seq::empty(),
    };
    if listed.len() == 0 {
        seq![word]
    } else {
        listed
    }
}

/// No written form is empty.
pub proof fn lemma_written_forms(s: Seq<Seq<char>>)
    ensures
        forall|i: int| 0 <= i < written_forms(s).len() ==> (#[trigger] written_forms(s)[i]).len() > 0,
    decreases s.len(),
{
    if s.len() > 0 {
        lemma_written_forms(s.drop_last());
        let before = written_forms(s.drop_last());
        assert forall|i: int| 0 <= i < written_forms(s).len() implies (#[trigger] written_forms(
            s,
        )[i]).len() > 0 by {
            if i < before.len() {
                assert(written_forms(s)[i] == before[i]);
            }
        }
    }
}

/// A word that is not empty has at least one way of writing it, and none
/// of them is empty.
pub proof fn lemma_surfaces_for(dict_keys: Seq<Seq<char>>, word: Seq<char>)
    requires
        word.len() > 0,
    ensures
        surfaces_for(dict_keys, word).len() > 0,
        forall|i: int|
            0 <= i < surfaces_for(dict_keys, word).len() ==> (#[trigger] surfaces_for(
                dict_keys,
                word,
            )[i]).len() > 0,
{
    if lookup(dict_keys, word) is Some {
        lemma_written_forms(lookup(dict_keys, word)->0);
    }
}

/// Builds lattices from a dictionary, the language models and the user's
/// history.
pub struct GraphBuilder {
    dict: MarisaKanaKanjiDict,
    user_data: Rc<UserData>,
    unigram: Rc<SystemUnigramLM>,
    bigram: Rc<SystemBigramLM>,
}

impl GraphBuilder {
    /// The keys of the dictionary.
    pub closed spec fn dict_keys(&self) -> Seq<Seq<char>> {
        self.dict.keys()
    }

    /// The user's history.
    pub closed spec fn user(&self) -> UserData {
        *self.user_data
    }

    /// The unigram model.
    pub closed spec fn unigram(&self) -> SystemUnigramLM {
        *self.unigram
    }

    /// The bigram model.
    pub closed spec fn bigram(&self) -> SystemBigramLM {
        *self.bigram
    }

    /// The invariant of the builder: its sources are well-formed.
    pub open spec fn wf(&self) -> bool {
        &&& self.user().wf()
        &&& self.unigram().wf()
        &&& self.bigram().wf()
    }

    /// The nodes of the segment `word` that ends at byte `end`, one for
    /// each way of writing it.
    pub open spec fn word_nodes(&self, end: nat, word: Seq<char>) -> Seq<NodeView> {
        surfaces_for(self.dict_keys(), word).map_values(
            |kanji: Seq<char>|
                node_view(
                    self.unigram(),
                    self.user(),
                    (end - byte_len(word)) as nat,
                    word,
                    kanji,
                ),
        )
    }

    /// The nodes of the first `w` of the segments `words` that end at byte
    /// `end`.
    pub open spec fn entry_nodes(&self, end: nat, words: Seq<Seq<char>>, w: nat) -> Seq<NodeView>
        decreases w,
    {
        if w == 0 {
            Seq::empty()
        } else {
            self.entry_nodes(end, words, (w - 1) as nat) + self.word_nodes(end, words[w - 1])
        }
    }

    /// The nodes that end at byte `k`, made of the first `m` entries of the
    /// segmentation.
    pub open spec fn lattice_nodes(&self, seg: Seq<(nat, Seq<Seq<char>>)>, m: nat, k: int) -> Seq<
        NodeView,
    >
        decreases m,
    {
        if m == 0 {
            Seq::empty()
        } else if seg[m - 1].0 == k {
            self.lattice_nodes(seg, (m - 1) as nat, k) + self.entry_nodes(
                seg[m - 1].0,
                seg[m - 1].1,
                seg[m - 1].1.len(),
            )
        } else {
            self.lattice_nodes(seg, (m - 1) as nat, k)
        }
    }

    /// The node that stands before the reading.
    pub open spec fn bos(&self) -> NodeView {
        node_view(self.unigram(), self.user(), 0, Seq::empty(), bos_surface())
    }

    /// The node that stands after a reading of `len` bytes.
    pub open spec fn eos(&self, len: nat) -> NodeView {
        node_view(self.unigram(), self.user(), len, Seq::empty(), eos_surface())
    }

    /// Whether `l` is the lattice of `yomi` and `seg` from these sources.
    pub open spec fn is_lattice_of(
        &self,
        l: LatticeGraph,
        yomi: Seq<char>,
        seg: Seq<(nat, Seq<Seq<char>>)>,
    ) -> bool {
        &&& l.wf()
        &&& l.yomi() == yomi
        &&& l.user() == self.user()
        &&& l.bigram() == self.bigram()
        &&& l.nodes()[0] == seq![self.bos()]
        &&& l.nodes()[l.last()] == seq![self.eos(l.len())]
        &&& forall|k: int|
            1 <= k <= l.len() ==> #[trigger] l.nodes()[k] == self.lattice_nodes(seg, seg.len(), k)
    }

    /// A builder with the given sources.
    pub fn new(
        dict: MarisaKanaKanjiDict,
        user_data: Rc<UserData>,
        unigram: Rc<SystemUnigramLM>,
        bigram: Rc<SystemBigramLM>,
    ) -> (b: GraphBuilder)
        ensures
            b.dict_keys() == dict.keys(),
            b.user() == *user_data,
            b.unigram() == *unigram,
            b.bigram() == *bigram,
    {
        GraphBuilder { dict, user_data, unigram, bigram }
    }

    /// The user's history.
    pub fn user_data(&self) -> (u: &UserData)
        ensures
            *u == self.user(),
    {
        &self.user_data
    }

    /// Puts `user_data` in the place of the user's history.
    pub fn replace_user_data(&mut self, user_data: Rc<UserData>)
        ensures
            final(self).user() == *user_data,
            final(self).dict_keys() == old(self).dict_keys(),
            final(self).unigram() == old(self).unigram(),
            final(self).bigram() == old(self).bigram(),
    {
        self.user_data = user_data;
    }

    /// The ways of writing `word`.
    pub fn surfaces(&self, word: &str) -> (r: Vec<String>)
        ensures
            strings_view(r@) == surfaces_for(self.dict_keys(), word@),
    {
        let mut r: Vec<String> = Vec::new();
        match self.dict.get(word) {
            Some(listed) => {
                let ghost all = strings_view(listed@);
                let mut i: usize = 0;
                while i < listed.len()
                    invariant
                        i <= listed.len(),
                        all == strings_view(listed@),
                        strings_view(r@) == written_forms(all.take(i as int)),
                    decreases listed.len() - i,
                {
                    proof {
                        assert(all.take(i + 1).drop_last() =~= all.take(i as int));
                        assert(all.take(i + 1).last() == listed[i as int]@);
                    }
                    let ghost before = strings_view(r@);
                    if listed[i].as_str().unicode_len() > 0 {
                        r.push(listed[i].clone());
                        assert(strings_view(r@) =~= before.push(listed[i as int]@));
                    }
                    i = i + 1;
                }
                assert(all.take(listed.len() as int) =~= all);
            },
            None => {
                assert(strings_view(r@) =~= Seq::<Seq<char>>::empty());
            },
        }
        if r.len() == 0 {
            r.push(String::from_str(word));
            assert(strings_view(r@) =~= seq![word@]);
        }
        r
    }

    /// The nodes of the segment `word` that ends at byte `end`.
    fn make_word_nodes(&self, end: usize, word: &str) -> (r: Vec<WordNode>)
        requires
            self.wf(),
            1 <= byte_len(word@) <= end,
        ensures
            node_views(r@) == self.word_nodes(end as nat, word@),
            forall|j: int| 0 <= j < r@.len() ==> (#[trigger] r@[j]).wf(),
    {
        let width = str_byte_len(word);
        let surfaces = self.surfaces(word);
        let ghost forms = strings_view(surfaces@);
        let mut r: Vec<WordNode> = Vec::new();
        let mut i: usize = 0;
        while i < surfaces.len()
            invariant
                self.wf(),
                i <= surfaces.len(),
                r.len() == i,
                width == byte_len(word@),
                1 <= width <= end,
                forms == strings_view(surfaces@),
                forms == surfaces_for(self.dict_keys(), word@),
                forall|j: int| 0 <= j < i ==> (#[trigger] r@[j])@ == self.word_nodes(end as nat, word@)[j],
                forall|j: int| 0 <= j < i ==> (#[trigger] r@[j]).wf(),
            decreases surfaces.len() - i,
        {
            assert(forms[i as int] == surfaces[i as int]@);
            let node = WordNode::new(
                &self.unigram,
                &self.user_data,
                end - width,
                word,
                surfaces[i].as_str(),
            );
            r.push(node);
            i = i + 1;
        }
        assert(node_views(r@) =~= self.word_nodes(end as nat, word@));
        r
    }

    /// Whether every segment of `seg` lies within a reading of `len` bytes.
    fn fits(seg: &SegmentationResult, len: usize) -> (b: bool)
        ensures
            b == seg_fits(seg@, len as nat),
    {
        let mut i: usize = 0;
        while i < seg.len()
            invariant
                i <= seg@.len(),
                forall|a: int, w: int|
                    0 <= a < i && 0 <= w < seg@[a].1.len() ==> 1 <= byte_len(#[trigger] seg@[a].1[w])
                        <= seg@[a].0 <= len,
            decreases seg@.len() - i,
        {
            let end = seg.end_of(i);
            let words = seg.words_of(i);
            let mut w: usize = 0;
            while w < words.len()
                invariant
                    i < seg@.len(),
                    w <= words.len(),
                    end == seg@[i as int].0,
                    strings_view(words@) == seg@[i as int].1,
                    forall|v: int|
                        0 <= v < w ==> 1 <= byte_len(#[trigger] seg@[i as int].1[v]) <= end <= len,
                decreases words.len() - w,
            {
                let width = str_byte_len(words[w].as_str());
                assert(strings_view(words@)[w as int] == words[w as int]@);
                if width < 1 || width > end || end > len {
                    assert(!(1 <= byte_len(seg@[i as int].1[w as int]) <= seg@[i as int].0 <= len));
                    return false;
                }
                w = w + 1;
            }
            i = i + 1;
        }
        true
    }

    /// The lattice of `yomi` with the segments of `seg`.
    ///
    /// The segments are taken as they are given: a caller may force a
    /// segmentation of its own. They must lie within the reading; whether
    /// they join up from its start to its end shows when the lattice is
    /// resolved.
    pub fn construct(&self, yomi: &str, seg: SegmentationResult) -> (r: Result<
        LatticeGraph,
        GraphError,
    >)
        requires
            self.wf(),
        ensures
            match r {
                Ok(l) => {
                    &&& byte_len(yomi@) + 2 <= usize::MAX
                    &&& seg_fits(seg@, byte_len(yomi@))
                    &&& self.is_lattice_of(l, yomi@, seg@)
                },
                Err(e) => {
                    &&& e == GraphError::ReadingTooLong <==> byte_len(yomi@) + 2 > usize::MAX
                    &&& e == GraphError::SegmentOutOfRange <==> byte_len(yomi@) + 2 <= usize::MAX
                        && !seg_fits(seg@, byte_len(yomi@))
                },
            },
    {
        let len = str_byte_len(yomi);
        if len > usize::MAX - 2 {
            return Err(GraphError::ReadingTooLong);
        }
        if !Self::fits(&seg, len) {
            return Err(GraphError::SegmentOutOfRange);
        }
        let ghost sv = seg@;
        let mut nodes: Vec<Vec<WordNode>> = Vec::new();
        let bos = WordNode::create_bos(&self.unigram, &self.user_data);
        let mut first: Vec<WordNode> = Vec::new();
        first.push(bos);
        nodes.push(first);
        let mut k: usize = 1;
        while k <= len
            invariant
                1 <= k <= len + 1,
                len + 2 <= usize::MAX,
                nodes.len() == k,
                node_views(nodes@[0]@) == seq![self.bos()],
                nodes@[0]@.len() == 1,
                nodes@[0]@[0].wf(),
                forall|a: int| 1 <= a < k ==> (#[trigger] nodes@[a])@.len() == 0,
            decreases len + 1 - k,
        {
            nodes.push(Vec::new());
            k = k + 1;
        }
        let eos = WordNode::create_eos(&self.unigram, &self.user_data, len);
        let mut last: Vec<WordNode> = Vec::new();
        last.push(eos);
        nodes.push(last);
        proof {
            assert(node_views(nodes@[0]@) =~= seq![self.bos()]);
            assert(node_views(nodes@[len + 1]@) =~= seq![self.eos(len as nat)]);
            assert forall|a: int| 1 <= a <= len implies node_views((#[trigger] nodes@[a])@)
                =~= self.lattice_nodes(sv, 0, a) by {}
        }
        let mut i: usize = 0;
        while i < seg.len()
            invariant
                self.wf(),
                sv == seg@,
                seg_fits(sv, len as nat),
                i <= seg@.len(),
                nodes.len() == len + 2,
                node_views(nodes@[0]@) == seq![self.bos()],
                node_views(nodes@[len + 1]@) == seq![self.eos(len as nat)],
                forall|a: int, j: int|
                    0 <= a < nodes@.len() && 0 <= j < nodes@[a]@.len() ==> (#[trigger] nodes@[a]@[j]).wf(),
                forall|a: int|
                    1 <= a <= len ==> node_views((#[trigger] nodes@[a])@) == self.lattice_nodes(
                        sv,
                        i as nat,
                        a,
                    ),
            decreases seg@.len() - i,
        {
            let end = seg.end_of(i);
            let words = seg.words_of(i);
            let ghost ws = sv[i as int].1;
            if words.len() == 0 {
                assert(self.entry_nodes(end as nat, ws, 0) =~= Seq::<NodeView>::empty());
                assert forall|a: int| 1 <= a <= len implies node_views((#[trigger] nodes@[a])@)
                    == self.lattice_nodes(sv, (i + 1) as nat, a) by {
                    assert(self.lattice_nodes(sv, i as nat, a) + Seq::<NodeView>::empty()
                        =~= self.lattice_nodes(sv, i as nat, a));
                }
            } else {
                assert(1 <= byte_len(ws[0]) <= end <= len);
                let mut w: usize = 0;
                while w < words.len()
                    invariant
                        self.wf(),
                        sv == seg@,
                        seg_fits(sv, len as nat),
                        i < seg@.len(),
                        w <= words.len(),
                        1 <= end <= len,
                        end == sv[i as int].0,
                        ws == sv[i as int].1,
                        ws == strings_view(words@),
                        nodes.len() == len + 2,
                        node_views(nodes@[0]@) == seq![self.bos()],
                        node_views(nodes@[len + 1]@) == seq![self.eos(len as nat)],
                        forall|a: int, j: int|
                            0 <= a < nodes@.len() && 0 <= j < nodes@[a]@.len() ==> (
                            #[trigger] nodes@[a]@[j]).wf(),
                        forall|a: int|
                            1 <= a <= len && a != end ==> node_views((#[trigger] nodes@[a])@)
                                == self.lattice_nodes(sv, i as nat, a),
                        node_views(nodes@[end as int]@) == self.lattice_nodes(sv, i as nat, end as int)
                            + self.entry_nodes(end as nat, ws, w as nat),
                    decreases words.len() - w,
                {
                    assert(ws[w as int] == words[w as int]@);
                    assert(1 <= byte_len(sv[i as int].1[w as int]) <= end);
                    let mut made = self.make_word_nodes(end, words[w].as_str());
                    let ghost before = nodes@;
                    let ghost added = made@;
                    nodes[end].append(&mut made);
                    proof {
                        assert(nodes@[end as int]@ =~= before[end as int]@ + added);
                        assert(node_views(nodes@[end as int]@) =~= node_views(before[end as int]@)
                            + node_views(added));
                        assert(self.entry_nodes(end as nat, ws, (w + 1) as nat) == self.entry_nodes(
                            end as nat,
                            ws,
                            w as nat,
                        ) + self.word_nodes(end as nat, ws[w as int]));
                        assert((self.lattice_nodes(sv, i as nat, end as int) + self.entry_nodes(
                            end as nat,
                            ws,
                            w as nat,
                        )) + node_views(added) =~= self.lattice_nodes(sv, i as nat, end as int)
                            + self.entry_nodes(end as nat, ws, (w + 1) as nat));
                        assert forall|a: int, j: int|
                            0 <= a < nodes@.len() && 0 <= j < nodes@[a]@.len() implies (
                        #[trigger] nodes@[a]@[j]).wf() by {
                            if a == end {
                                if j < before[a]@.len() {
                                    assert(nodes@[a]@[j] == before[a]@[j]);
                                } else {
                                    assert(nodes@[a]@[j] == added[j - before[a]@.len()]);
                                }
                            } else {
                                assert(nodes@[a] == before[a]);
                            }
                        }
                        assert forall|a: int| 1 <= a <= len && a != end implies node_views(
                            (#[trigger] nodes@[a])@,
                        ) == self.lattice_nodes(sv, i as nat, a) by {
                            assert(nodes@[a] == before[a]);
                        }
                        assert(node_views(nodes@[0]@) == seq![self.bos()]) by {
                            assert(nodes@[0] == before[0]);
                        }
                        assert(node_views(nodes@[len + 1]@) == seq![self.eos(len as nat)]) by {
                            assert(nodes@[len + 1] == before[len + 1]);
                        }
                    }
                    w = w + 1;
                }
            }
            i = i + 1;
        }
        let ghost made = nodes@;
        let l = LatticeGraph::assemble(
            String::from_str(yomi),
            len,
            nodes,
            self.user_data.clone(),
            self.bigram.clone(),
        );
        proof {
            self.lemma_lattice_nodes_ok(sv, sv.len(), len as nat);
            assert(l.nodes()[0] == node_views(made[0]@));
            assert(l.nodes()[l.last()] == node_views(made[len + 1]@));
            assert forall|a: int| 1 <= a <= l.len() implies #[trigger] l.nodes()[a]
                == self.lattice_nodes(sv, sv.len(), a) by {
                assert(l.nodes()[a] == node_views(made[a]@));
            }
            crate::graph::word_node::lemma_node_view_costs(
                self.unigram(),
                self.user(),
                0,
                Seq::empty(),
                bos_surface(),
            );
            crate::graph::word_node::lemma_node_view_costs(
                self.unigram(),
                self.user(),
                len as nat,
                Seq::empty(),
                eos_surface(),
            );
            assert forall|a: int, j: int|
                0 <= a < l.nodes().len() && 0 <= j < l.nodes()[a].len() implies crate::graph::word_node::costs_in_range(
                #[trigger] l.nodes()[a][j],
            ) by {
                assert(l.nodes()[a] == node_views(made[a]@));
                assert(made[a]@[j].wf());
                assert(l.nodes()[a][j] == made[a]@[j]@);
            }
        }
        Ok(l)
    }

    /// The nodes made of segments that lie within the reading are words
    /// that end where they are listed.
    pub proof fn lemma_lattice_nodes_ok(&self, seg: Seq<(nat, Seq<Seq<char>>)>, m: nat, len: nat)
        requires
            seg_fits(seg, len),
            m <= seg.len(),
        ensures
            forall|k: int, j: int|
                1 <= k <= len && 0 <= j < self.lattice_nodes(seg, m, k).len() ==> {
                    let n = #[trigger] self.lattice_nodes(seg, m, k)[j];
                    &&& n.start_pos < k
                    &&& k - n.start_pos == byte_len(n.yomi)
                    &&& n.kanji.len() > 0
                },
        decreases m,
    {
        if m > 0 {
            self.lemma_lattice_nodes_ok(seg, (m - 1) as nat, len);
            let end = seg[m - 1].0;
            let words = seg[m - 1].1;
            assert forall|v: int| 0 <= v < words.len() implies 1 <= byte_len(
                #[trigger] seg[m - 1].1[v],
            ) <= end by {}
            self.lemma_entry_nodes_ok(seg, m - 1, words.len());
            let before = self.lattice_nodes(seg, (m - 1) as nat, end as int);
            let entry = self.entry_nodes(end, words, words.len());
            assert forall|k: int, j: int|
                1 <= k <= len && 0 <= j < self.lattice_nodes(seg, m, k).len() implies {
                let n = #[trigger] self.lattice_nodes(seg, m, k)[j];
                &&& n.start_pos < k
                &&& k - n.start_pos == byte_len(n.yomi)
                &&& n.kanji.len() > 0
            } by {
                if k == end {
                    if j < before.len() {
                        assert(self.lattice_nodes(seg, m, k)[j] == before[j]);
                    } else {
                        assert(self.lattice_nodes(seg, m, k)[j] == entry[j - before.len()]);
                    }
                } else {
                    assert(self.lattice_nodes(seg, m, k) == self.lattice_nodes(
                        seg,
                        (m - 1) as nat,
                        k,
                    ));
                }
            }
        }
    }

    /// Where a segment with words that are not empty ends at byte `k`, a
    /// node ends at byte `k`.
    pub proof fn lemma_end_has_nodes(&self, seg: Seq<(nat, Seq<Seq<char>>)>, m: nat, j: int, k: int)
        requires
            0 <= j < m <= seg.len(),
            seg[j].0 == k,
            seg[j].1.len() > 0,
            forall|v: int| 0 <= v < seg[j].1.len() ==> 1 <= byte_len(#[trigger] seg[j].1[v]),
        ensures
            self.lattice_nodes(seg, m, k).len() > 0,
        decreases m,
    {
        if j < m - 1 {
            self.lemma_end_has_nodes(seg, (m - 1) as nat, j, k);
        } else {
            let words = seg[j].1;
            let word = words[words.len() - 1];
            assert(1 <= byte_len(word));
            lemma_byte_len_bounds(word);
            lemma_surfaces_for(self.dict_keys(), word);
            assert(self.word_nodes(seg[j].0, word).len() > 0);
            assert(self.entry_nodes(seg[j].0, words, words.len()).len() > 0);
        }
    }

    /// Every node of an entry is made of one of the segments of the entry.
    pub proof fn lemma_entry_node_origin(&self, end: nat, words: Seq<Seq<char>>, w: nat, j: int)
        requires
            w <= words.len(),
            0 <= j < self.entry_nodes(end, words, w).len(),
        ensures
            exists|v: int|
                0 <= v < w && self.entry_nodes(end, words, w)[j].yomi == #[trigger] words[v]
                    && self.entry_nodes(end, words, w)[j].start_pos == (end - byte_len(
                    words[v],
                )) as nat,
        decreases w,
    {
        if w > 0 {
            let before = self.entry_nodes(end, words, (w - 1) as nat);
            if j < before.len() {
                self.lemma_entry_node_origin(end, words, (w - 1) as nat, j);
                let v = choose|v: int|
                    0 <= v < w - 1 && before[j].yomi == #[trigger] words[v] && before[j].start_pos
                        == (end - byte_len(words[v])) as nat;
                assert(self.entry_nodes(end, words, w)[j] == before[j]);
                assert(0 <= v < w && self.entry_nodes(end, words, w)[j].yomi == words[v]);
            } else {
                let added = self.word_nodes(end, words[w - 1]);
                assert(self.entry_nodes(end, words, w)[j] == added[j - before.len()]);
                assert(self.entry_nodes(end, words, w)[j].yomi == words[w - 1]);
            }
        }
    }

    /// Every node that ends at byte `k` is made of a segment that ends at
    /// byte `k`.
    pub proof fn lemma_node_origin(&self, seg: Seq<(nat, Seq<Seq<char>>)>, m: nat, k: int, j: int)
        requires
            m <= seg.len(),
            0 <= j < self.lattice_nodes(seg, m, k).len(),
        ensures
            exists|i: int, v: int|
                0 <= i < m && 0 <= v < seg[i].1.len() && seg[i].0 == k && self.lattice_nodes(
                    seg,
                    m,
                    k,
                )[j].yomi == #[trigger] seg[i].1[v] && self.lattice_nodes(seg, m, k)[j].start_pos
                    == (k - byte_len(seg[i].1[v])) as nat,
        decreases m,
    {
        if m > 0 {
            let before = self.lattice_nodes(seg, (m - 1) as nat, k);
            if j < before.len() {
                self.lemma_node_origin(seg, (m - 1) as nat, k, j);
                let (i, v) = choose|i: int, v: int|
                    0 <= i < m - 1 && 0 <= v < seg[i].1.len() && seg[i].0 == k && before[j].yomi
                        == #[trigger] seg[i].1[v] && before[j].start_pos == (k - byte_len(
                        seg[i].1[v],
                    )) as nat;
                assert(self.lattice_nodes(seg, m, k)[j] == before[j]);
                assert(0 <= i < m && self.lattice_nodes(seg, m, k)[j].yomi == seg[i].1[v]);
            } else {
                let words = seg[m - 1].1;
                let entry = self.entry_nodes(seg[m - 1].0, words, words.len());
                assert(seg[m - 1].0 == k);
                assert(self.lattice_nodes(seg, m, k)[j] == entry[j - before.len()]);
                self.lemma_entry_node_origin(seg[m - 1].0, words, words.len(), j - before.len());
                let v = choose|v: int|
                    0 <= v < words.len() && entry[j - before.len()].yomi == #[trigger] words[v]
                        && entry[j - before.len()].start_pos == (seg[m - 1].0 - byte_len(
                        words[v],
                    )) as nat;
                assert(self.lattice_nodes(seg, m, k)[j].yomi == seg[m - 1].1[v]);
            }
        }
    }

    /// The lattice of segments that join up is complete: every node but the
    /// first has a predecessor.
    pub proof fn lemma_joined_lattice_is_complete(
        &self,
        l: LatticeGraph,
        yomi: Seq<char>,
        seg: Seq<(nat, Seq<Seq<char>>)>,
    )
        requires
            self.is_lattice_of(l, yomi, seg),
            seg_fits(seg, l.len()),
            seg_joined(seg, l.len()),
        ensures
            l.complete(),
    {
        assert forall|k: int, j: int|
            1 <= k < l.nodes().len() && 0 <= j < l.nodes()[k].len() implies l.nodes()[(
        #[trigger] l.nodes()[k][j]).start_pos as int].len() > 0 by {
            let start = l.nodes()[k][j].start_pos as int;
            if k == l.last() {
                assert(j == 0);
                assert(start == l.len());
                if l.len() > 0 {
                    self.lemma_has_end_has_nodes(l, seg, start);
                }
            } else {
                assert(l.nodes()[k] == self.lattice_nodes(seg, seg.len(), k));
                self.lemma_node_origin(seg, seg.len(), k, j);
                let (i, v) = choose|i: int, v: int|
                    0 <= i < seg.len() && 0 <= v < seg[i].1.len() && seg[i].0 == k
                        && self.lattice_nodes(seg, seg.len(), k)[j].yomi == #[trigger] seg[i].1[v]
                        && self.lattice_nodes(seg, seg.len(), k)[j].start_pos == (k - byte_len(
                        seg[i].1[v],
                    )) as nat;
                assert(1 <= byte_len(seg[i].1[v]) <= seg[i].0);
                assert(byte_len(seg[i].1[v]) == seg[i].0 || has_end(
                    seg,
                    seg[i].0 - byte_len(seg[i].1[v]),
                ));
                if start > 0 {
                    self.lemma_has_end_has_nodes(l, seg, start);
                }
            }
        }
    }

    /// In the lattice of the segments that the kana tries find, every
    /// word reads the stretch of the reading that it covers.
    pub proof fn lemma_found_words_read_reading(
        &self,
        l: LatticeGraph,
        keys: Set<Seq<char>>,
        yomi: Seq<char>,
    )
        requires
            self.is_lattice_of(l, yomi, segmentation(keys, yomi)),
        ensures
            l.words_read_reading(),
    {
        let seg = segmentation(keys, yomi);
        lemma_segmentation_joined(keys, yomi);
        assert forall|k: int, j: int| 1 <= k <= l.len() && 0 <= j < l.nodes()[k].len() implies reads_stretch(
            l.yomi(),
            k,
            #[trigger] l.nodes()[k][j],
        ) by {
            assert(l.nodes()[k] == self.lattice_nodes(seg, seg.len(), k));
            self.lemma_node_origin(seg, seg.len(), k, j);
            let (i, v) = choose|i: int, v: int|
                0 <= i < seg.len() && 0 <= v < seg[i].1.len() && seg[i].0 == k
                    && self.lattice_nodes(seg, seg.len(), k)[j].yomi == #[trigger] seg[i].1[v]
                    && self.lattice_nodes(seg, seg.len(), k)[j].start_pos == (k - byte_len(
                    seg[i].1[v],
                )) as nat;
            lemma_segment_is_stretch(keys, yomi, i, v);
            let (s, e) = choose|s: int, e: int|
                {
                    &&& 0 <= s < e <= yomi.len()
                    &&& seg[i].0 == byte_offset(yomi, e)
                    &&& seg[i].1[v] == #[trigger] yomi.subrange(s, e)
                };
            lemma_byte_offset_monotone(yomi, s, e);
            assert(l.nodes()[k][j].yomi == yomi.subrange(s, e));
            assert(byte_offset(yomi, s) == l.nodes()[k][j].start_pos);
        }
    }

    /// Whether `other` has the dictionary and the models of this builder,
    /// and a history that differs from this one's only in that the bonus
    /// of the word `key` is larger by `gain`.
    pub open spec fn raised_by(&self, other: GraphBuilder, key: Seq<char>, gain: int) -> bool {
        &&& other.dict_keys() == self.dict_keys()
        &&& other.unigram() == self.unigram()
        &&& other.bigram() == self.bigram()
        &&& other.user().bigram() == self.user().bigram()
        &&& other.user().now() == self.user().now()
        &&& other.user().half_life() == self.user().half_life()
        &&& other.user().unigram_bonus(key) == self.user().unigram_bonus(key) + gain
        &&& forall|k: Seq<char>|
            k != key ==> #[trigger] other.user().unigram_bonus(k) == self.user().unigram_bonus(k)
    }

    /// The nodes of a segment differ between the two builders only in the
    /// cost of the word `key`.
    pub proof fn lemma_word_nodes_raised(
        &self,
        other: GraphBuilder,
        key: Seq<char>,
        gain: int,
        end: nat,
        word: Seq<char>,
    )
        requires
            self.raised_by(other, key, gain),
        ensures
            other.word_nodes(end, word).len() == self.word_nodes(end, word).len(),
            forall|j: int|
                0 <= j < self.word_nodes(end, word).len() ==> node_raised(
                    self.word_nodes(end, word)[j],
                    #[trigger] other.word_nodes(end, word)[j],
                    key,
                    gain,
                ),
    {
        assert forall|j: int| 0 <= j < self.word_nodes(end, word).len() implies node_raised(
            self.word_nodes(end, word)[j],
            #[trigger] other.word_nodes(end, word)[j],
            key,
            gain,
        ) by {
            let kanji = surfaces_for(self.dict_keys(), word)[j];
            let name = word_key(kanji, word);
            if name != key {
                assert(other.user().unigram_bonus(name) == self.user().unigram_bonus(name));
            }
        }
    }

    /// The nodes of an entry differ between the two builders only in the
    /// cost of the word `key`.
    pub proof fn lemma_entry_nodes_raised(
        &self,
        other: GraphBuilder,
        key: Seq<char>,
        gain: int,
        end: nat,
        words: Seq<Seq<char>>,
        w: nat,
    )
        requires
            self.raised_by(other, key, gain),
        ensures
            other.entry_nodes(end, words, w).len() == self.entry_nodes(end, words, w).len(),
            forall|j: int|
                0 <= j < self.entry_nodes(end, words, w).len() ==> node_raised(
                    self.entry_nodes(end, words, w)[j],
                    #[trigger] other.entry_nodes(end, words, w)[j],
                    key,
                    gain,
                ),
        decreases w,
    {
        if w > 0 {
            self.lemma_entry_nodes_raised(other, key, gain, end, words, (w - 1) as nat);
            self.lemma_word_nodes_raised(other, key, gain, end, words[w - 1]);
            let before = self.entry_nodes(end, words, (w - 1) as nat);
            let other_before = other.entry_nodes(end, words, (w - 1) as nat);
            let added = self.word_nodes(end, words[w - 1]);
            let other_added = other.word_nodes(end, words[w - 1]);
            assert forall|j: int| 0 <= j < self.entry_nodes(end, words, w).len() implies node_raised(
                self.entry_nodes(end, words, w)[j],
                #[trigger] other.entry_nodes(end, words, w)[j],
                key,
                gain,
            ) by {
                if j < before.len() {
                    assert(self.entry_nodes(end, words, w)[j] == before[j]);
                    assert(other.entry_nodes(end, words, w)[j] == other_before[j]);
                } else {
                    assert(self.entry_nodes(end, words, w)[j] == added[j - before.len()]);
                    assert(other.entry_nodes(end, words, w)[j] == other_added[j - before.len()]);
                }
            }
        }
    }

    /// The nodes that end at a position differ between the two builders
    /// only in the cost of the word `key`.
    pub proof fn lemma_lattice_nodes_raised(
        &self,
        other: GraphBuilder,
        key: Seq<char>,
        gain: int,
        seg: Seq<(nat, Seq<Seq<char>>)>,
        m: nat,
        k: int,
    )
        requires
            self.raised_by(other, key, gain),
        ensures
            other.lattice_nodes(seg, m, k).len() == self.lattice_nodes(seg, m, k).len(),
            forall|j: int|
                0 <= j < self.lattice_nodes(seg, m, k).len() ==> node_raised(
                    self.lattice_nodes(seg, m, k)[j],
                    #[trigger] other.lattice_nodes(seg, m, k)[j],
                    key,
                    gain,
                ),
        decreases m,
    {
        if m > 0 {
            self.lemma_lattice_nodes_raised(other, key, gain, seg, (m - 1) as nat, k);
            let before = self.lattice_nodes(seg, (m - 1) as nat, k);
            let other_before = other.lattice_nodes(seg, (m - 1) as nat, k);
            if seg[m - 1].0 == k {
                let words = seg[m - 1].1;
                self.lemma_entry_nodes_raised(other, key, gain, seg[m - 1].0, words, words.len());
                let added = self.entry_nodes(seg[m - 1].0, words, words.len());
                let other_added = other.entry_nodes(seg[m - 1].0, words, words.len());
                assert forall|j: int| 0 <= j < self.lattice_nodes(seg, m, k).len() implies node_raised(
                    self.lattice_nodes(seg, m, k)[j],
                    #[trigger] other.lattice_nodes(seg, m, k)[j],
                    key,
                    gain,
                ) by {
                    if j < before.len() {
                        assert(self.lattice_nodes(seg, m, k)[j] == before[j]);
                        assert(other.lattice_nodes(seg, m, k)[j] == other_before[j]);
                    } else {
                        assert(self.lattice_nodes(seg, m, k)[j] == added[j - before.len()]);
                        assert(other.lattice_nodes(seg, m, k)[j] == other_added[j - before.len()]);
                    }
                }
            }
        }
    }

    /// The lattices that the two builders make of the same reading and
    /// the same segments differ only in the cost of the word `key`.
    pub proof fn lemma_lattice_raised(
        &self,
        other: GraphBuilder,
        key: Seq<char>,
        gain: int,
        la: LatticeGraph,
        lb: LatticeGraph,
        yomi: Seq<char>,
        seg: Seq<(nat, Seq<Seq<char>>)>,
    )
        requires
            self.raised_by(other, key, gain),
            self.is_lattice_of(la, yomi, seg),
            other.is_lattice_of(lb, yomi, seg),
        ensures
            lattice_raised(la, lb, key, gain),
    {
        assert(la.len() == lb.len());
        assert forall|k: int, j: int|
            0 <= k < la.nodes().len() && 0 <= j < la.nodes()[k].len() implies lb.nodes()[k].len()
            == la.nodes()[k].len() && node_raised(
            la.nodes()[k][j],
            #[trigger] lb.nodes()[k][j],
            key,
            gain,
        ) by {
            if k == 0 {
                let name = word_key(bos_surface(), Seq::empty());
                if name != key {
                    assert(other.user().unigram_bonus(name) == self.user().unigram_bonus(name));
                }
            } else if k == la.last() {
                let name = word_key(eos_surface(), Seq::empty());
                if name != key {
                    assert(other.user().unigram_bonus(name) == self.user().unigram_bonus(name));
                }
            } else {
                self.lemma_lattice_nodes_raised(other, key, gain, seg, seg.len(), k);
                assert(la.nodes()[k] == self.lattice_nodes(seg, seg.len(), k));
                assert(lb.nodes()[k] == other.lattice_nodes(seg, seg.len(), k));
            }
        }
        assert forall|k: int| 0 <= k < la.nodes().len() implies (#[trigger] lb.nodes()[k]).len()
            == la.nodes()[k].len() by {
            if k == 0 || k == la.last() {
            } else {
                self.lemma_lattice_nodes_raised(other, key, gain, seg, seg.len(), k);
                assert(la.nodes()[k] == self.lattice_nodes(seg, seg.len(), k));
                assert(lb.nodes()[k] == other.lattice_nodes(seg, seg.len(), k));
            }
        }
    }

    /// Where a segment ends within the reading, the lattice has a node.
    pub proof fn lemma_has_end_has_nodes(&self, l: LatticeGraph, seg: Seq<(nat, Seq<Seq<char>>)>, k: int)
        requires
            1 <= k <= l.len(),
            seg_fits(seg, l.len()),
            has_end(seg, k),
            l.nodes()[k] == self.lattice_nodes(seg, seg.len(), k),
        ensures
            l.nodes()[k].len() > 0,
    {
        let j = choose|j: int| 0 <= j < seg.len() && (#[trigger] seg[j]).0 == k && seg[j].1.len() > 0;
        assert forall|v: int| 0 <= v < seg[j].1.len() implies 1 <= byte_len(#[trigger] seg[j].1[v]) by {}
        self.lemma_end_has_nodes(seg, seg.len(), j, k);
    }

    /// The nodes of the segments of one entry are words that end where the
    /// entry says.
    pub proof fn lemma_entry_nodes_ok(&self, seg: Seq<(nat, Seq<Seq<char>>)>, i: int, w: nat)
        requires
            0 <= i < seg.len(),
            w <= seg[i].1.len(),
            forall|v: int| 0 <= v < seg[i].1.len() ==> 1 <= byte_len(#[trigger] seg[i].1[v]) <= seg[i].0,
        ensures
            forall|j: int|
                0 <= j < self.entry_nodes(seg[i].0, seg[i].1, w).len() ==> {
                    let n = #[trigger] self.entry_nodes(seg[i].0, seg[i].1, w)[j];
                    &&& n.start_pos < seg[i].0
                    &&& seg[i].0 - n.start_pos == byte_len(n.yomi)
                    &&& n.kanji.len() > 0
                },
        decreases w,
    {
        if w > 0 {
            self.lemma_entry_nodes_ok(seg, i, (w - 1) as nat);
            let word = seg[i].1[w - 1];
            assert(1 <= byte_len(word) <= seg[i].0);
            lemma_byte_len_bounds(word);
            lemma_surfaces_for(self.dict_keys(), word);
            let before = self.entry_nodes(seg[i].0, seg[i].1, (w - 1) as nat);
            let added = self.word_nodes(seg[i].0, word);
            assert forall|j: int| 0 <= j < self.entry_nodes(seg[i].0, seg[i].1, w).len() implies {
                let n = #[trigger] self.entry_nodes(seg[i].0, seg[i].1, w)[j];
                &&& n.start_pos < seg[i].0
                &&& seg[i].0 - n.start_pos == byte_len(n.yomi)
                &&& n.kanji.len() > 0
            } by {
                if j < before.len() {
                    assert(self.entry_nodes(seg[i].0, seg[i].1, w)[j] == before[j]);
                } else {
                    assert(self.entry_nodes(seg[i].0, seg[i].1, w)[j] == added[j - before.len()]);
                }
            }
        }
    }
}

} // verus!
