//! The engine: from a reading to its best rendering.
use std::rc::Rc;
use vstd::prelude::*;
use crate::graph::graph_builder::{GraphBuilder, GraphError};
use crate::graph::graph_resolver::{
    best_path,
    is_path,
    lemma_raised_path_score,
    path_score,
    times_on_path,
    end_joined,
    is_clause,
    path_reading,
    path_surface,
    words_joined,
    Candidate,
    GraphResolver,
    ViterbiError,
};
use crate::graph::lattice_graph::LatticeGraph;
use crate::graph::segmenter::{lemma_segmentation_joined, seg_fits, segmentation, union_keys, SegmentationResult, Segmenter};
use crate::kana_kanji::marisa_kana_kanji_dict::MarisaKanaKanjiDict;
use crate::kana_trie::crawdad_kana_trie::CrawdadKanaTrie;
use crate::lm::system_bigram::{SystemBigramLM, SystemBigramLMBuilder};
use crate::lm::system_unigram_lm::{SystemUnigramLM, SystemUnigramLMBuilder};
use crate::text::{byte_len, strings_view};
use crate::user_side_data::user_data::{
    count_at,
    lemma_choice_raises_bonus,
    lemma_chosen,
    pair_count,
    pairs_chosen,
    words_chosen,
    UserData,
    COUNT_MAX,
};

verus! {

/// Why a reading was not converted.
#[derive(Clone, Copy, Debug, PartialEq, Eq, Structural)]
pub enum AkazaError {
    /// The reading is so long that its positions do not fit in `usize`.
    ReadingTooLong,
    /// A segment of the forced segmentation does not lie within the
    /// reading.
    SegmentOutOfRange,
    /// A word of the forced segmentation starts where no word ends.
    IncompleteSegmentation,
    /// No word of the forced segmentation ends where the reading ends.
    UnreachableEos,
}

/// The conversion engine.
pub struct Akaza {
    segmenter: Segmenter,
    graph_builder: GraphBuilder,
    resolver: GraphResolver,
}

impl Akaza {
    /// The readings that the kana tries know.
    pub closed spec fn keys(&self) -> Set<Seq<char>> {
        self.segmenter.keys()
    }

    /// The builder of the lattices.
    pub closed spec fn graph_builder(&self) -> GraphBuilder {
        self.graph_builder
    }

    /// The invariant of the engine: its sources are well-formed.
    pub open spec fn wf(&self) -> bool {
        self.graph_builder().wf()
    }

    /// The segmentation that a conversion goes by: the forced one, or that
    /// of the kana tries.
    pub open spec fn segments(&self, yomi: Seq<char>, forced: Option<SegmentationResult>) -> Seq<
        (nat, Seq<Seq<char>>),
    > {
        match forced {
            Some(seg) => seg@,
            None => segmentation(self.keys(), yomi),
        }
    }

    /// Whether `l` is the lattice over which `yomi` is converted.
    pub open spec fn is_lattice(
        &self,
        l: LatticeGraph,
        yomi: Seq<char>,
        forced: Option<SegmentationResult>,
    ) -> bool {
        self.graph_builder().is_lattice_of(l, yomi, self.segments(yomi, forced))
    }

    /// The error with which the conversion of `yomi` ends before its
    /// lattice is built, if it does.
    pub open spec fn lattice_error(&self, yomi: Seq<char>, forced: Option<SegmentationResult>) -> Option<
        AkazaError,
    > {
        if byte_len(yomi) + 2 > usize::MAX {
            Some(AkazaError::ReadingTooLong)
        } else if !seg_fits(self.segments(yomi, forced), byte_len(yomi)) {
            Some(AkazaError::SegmentOutOfRange)
        } else {
            None
        }
    }

    /// The error with which the search through the lattice `l` ends, if it
    /// does.
    pub open spec fn search_error(l: LatticeGraph) -> Option<AkazaError> {
        if !words_joined(l) {
            Some(AkazaError::IncompleteSegmentation)
        } else if !end_joined(l) {
            Some(AkazaError::UnreachableEos)
        } else {
            None
        }
    }

    /// An engine of the given parts.
    pub fn new(segmenter: Segmenter, graph_builder: GraphBuilder) -> (a: Akaza)
        ensures
            a.keys() == segmenter.keys(),
            a.graph_builder() == graph_builder,
    {
        Akaza { segmenter, graph_builder, resolver: GraphResolver::new() }
    }

    /// The lattice of `yomi`, over the forced segmentation if there is one.
    pub fn lattice(&self, yomi: &str, forced: Option<SegmentationResult>) -> (r: Result<
        LatticeGraph,
        AkazaError,
    >)
        requires
            self.wf(),
        ensures
            match r {
                Ok(l) => self.lattice_error(yomi@, forced) is None && self.is_lattice(l, yomi@, forced),
                Err(e) => self.lattice_error(yomi@, forced) == Some(e),
            },
            forced is None ==> (r is Err <==> byte_len(yomi@) + 2 > usize::MAX),
            forced is None && r is Ok ==> r->Ok_0.complete(),
    {
        proof {
            lemma_segmentation_joined(self.keys(), yomi@);
        }
        let ghost segs = self.segments(yomi@, forced);
        let seg = match forced {
            Some(seg) => seg,
            None => self.segmenter.build(yomi),
        };
        match self.graph_builder.construct(yomi, seg) {
            Ok(l) => {
                proof {
                    if forced is None {
                        self.graph_builder.lemma_joined_lattice_is_complete(l, yomi@, segs);
                    }
                }
                Ok(l)
            },
            Err(GraphError::ReadingTooLong) => Err(AkazaError::ReadingTooLong),
            Err(GraphError::SegmentOutOfRange) => Err(AkazaError::SegmentOutOfRange),
        }
    }

    /// The clauses of the best rendering of `yomi`, each with all the ways
    /// of writing it, the best first. The empty reading has no clauses.
    pub fn convert(&self, yomi: &str, forced: Option<SegmentationResult>) -> (r: Result<
        Vec<Vec<Candidate>>,
        AkazaError,
    >)
        requires
            self.wf(),
        ensures
            match r {
                Ok(clauses) => exists|l: LatticeGraph|
                    {
                        &&& #[trigger] self.is_lattice(l, yomi@, forced)
                        &&& l.complete()
                        &&& clauses.len() + 2 == best_path(l, l.last(), 0).len()
                        &&& forall|c: int|
                            0 <= c < clauses.len() ==> is_clause(
                                l,
                                best_path(l, l.last(), 0),
                                c + 1,
                                usize::MAX as int,
                                (#[trigger] clauses[c])@,
                            )
                        &&& forall|c: int| 0 <= c < clauses.len() ==> (#[trigger] clauses[c])@.len() > 0
                    },
                Err(e) => match self.lattice_error(yomi@, forced) {
                    Some(early) => e == early,
                    None => exists|l: LatticeGraph| #[trigger]
                        self.is_lattice(l, yomi@, forced) && Self::search_error(l) == Some(e),
                },
            },
            forced is None ==> (r is Err <==> byte_len(yomi@) + 2 > usize::MAX),
            forced is None ==> (r matches Err(e) ==> e == AkazaError::ReadingTooLong),
    {
        let l = match self.lattice(yomi, forced) {
            Ok(l) => l,
            Err(e) => {
                return Err(e);
            },
        };
        match self.resolver.viterbi_nbest(&l, 0) {
            Ok(clauses) => {
                assert(self.is_lattice(l, yomi@, forced));
                Ok(clauses)
            },
            Err(ViterbiError::IncompleteSegmentation) => {
                assert(self.is_lattice(l, yomi@, forced));
                Err(AkazaError::IncompleteSegmentation)
            },
            Err(ViterbiError::UnreachableEos) => {
                assert(self.is_lattice(l, yomi@, forced));
                Err(AkazaError::UnreachableEos)
            },
        }
    }

    /// The best rendering of `yomi`: the surfaces of the words along the
    /// best path through its lattice, whose readings, one after the other,
    /// are `yomi`. The empty reading gives the empty string; any other
    /// reading gives a string that is not empty. The
    /// conversion fails only for a reading whose positions do not fit in
    /// `usize`.
    pub fn convert_to_string(&self, yomi: &str) -> (r: Result<String, AkazaError>)
        requires
            self.wf(),
        ensures
            match r {
                Ok(s) => {
                    &&& exists|l: LatticeGraph|
                        {
                            &&& #[trigger] self.is_lattice(l, yomi@, None)
                            &&& l.complete()
                            &&& s@ == path_surface(l, best_path(l, l.last(), 0))
                            &&& path_reading(l, best_path(l, l.last(), 0)) == yomi@
                        }
                    &&& yomi@.len() > 0 ==> s@.len() > 0
                },
                Err(e) => e == AkazaError::ReadingTooLong,
            },
            r is Err <==> byte_len(yomi@) + 2 > usize::MAX,
    {
        let l = match self.lattice(yomi, None) {
            Ok(l) => l,
            Err(e) => {
                return Err(e);
            },
        };
        proof {
            crate::text::lemma_byte_len_bounds(yomi@);
        }
        proof {
            self.graph_builder.lemma_found_words_read_reading(l, self.keys(), yomi@);
        }
        match self.resolver.viterbi(&l) {
            Ok(s) => {
                assert(self.is_lattice(l, yomi@, None));
                Ok(s)
            },
            Err(ViterbiError::IncompleteSegmentation) => {
                assert(self.is_lattice(l, yomi@, None));
                Err(AkazaError::IncompleteSegmentation)
            },
            Err(ViterbiError::UnreachableEos) => {
                assert(self.is_lattice(l, yomi@, None));
                Err(AkazaError::UnreachableEos)
            },
        }
    }

    /// Records that the user chose `clauses`, each a word written
    /// `surface/reading`: every word and every pair of neighbours counts
    /// once more from now on.
    pub fn learn(&mut self, clauses: Vec<String>)
        requires
            old(self).wf(),
        ensures
            final(self).wf(),
            final(self).keys() == old(self).keys(),
            final(self).graph_builder().dict_keys() == old(self).graph_builder().dict_keys(),
            final(self).graph_builder().unigram() == old(self).graph_builder().unigram(),
            final(self).graph_builder().bigram() == old(self).graph_builder().bigram(),
            final(self).graph_builder().user().now() == old(self).graph_builder().user().now(),
            final(self).graph_builder().user().half_life() == old(self).graph_builder().user().half_life(),
            final(self).graph_builder().user().unigram() == words_chosen(
                old(self).graph_builder().user().unigram(),
                strings_view(clauses@),
                clauses@.len(),
                old(self).graph_builder().user().now(),
                old(self).graph_builder().user().half_life(),
            ),
            final(self).graph_builder().user().bigram() == pairs_chosen(
                old(self).graph_builder().user().bigram(),
                strings_view(clauses@),
                pair_count(clauses@.len()),
                old(self).graph_builder().user().now(),
                old(self).graph_builder().user().half_life(),
            ),
    {
        let mut data = self.graph_builder.user_data().duplicate();
        data.record_entries(clauses);
        self.graph_builder.replace_user_data(Rc::new(data));
    }

    /// Sets the clock of the user's history to `now`, in seconds.
    pub fn set_now(&mut self, now: u64)
        requires
            old(self).wf(),
        ensures
            final(self).wf(),
            final(self).keys() == old(self).keys(),
            final(self).graph_builder().dict_keys() == old(self).graph_builder().dict_keys(),
            final(self).graph_builder().unigram() == old(self).graph_builder().unigram(),
            final(self).graph_builder().bigram() == old(self).graph_builder().bigram(),
            final(self).graph_builder().user().now() == now,
            final(self).graph_builder().user().half_life() == old(self).graph_builder().user().half_life(),
            final(self).graph_builder().user().unigram() == old(self).graph_builder().user().unigram(),
            final(self).graph_builder().user().bigram() == old(self).graph_builder().user().bigram(),
    {
        let mut data = self.graph_builder.user_data().duplicate();
        data.set_now(now);
        self.graph_builder.replace_user_data(Rc::new(data));
    }
}

/// Learning a word raises the score of every path that passes the word,
/// and leaves the score of every other path as it was.
///
/// `after` is the engine `before` after it learned the one word `word`,
/// whose count had not reached `COUNT_MAX`; `la` and `lb` are the lattices
/// that the two make of the same reading.
pub proof fn lemma_learning_raises_paths(
    before: Akaza,
    after: Akaza,
    word: Seq<char>,
    la: LatticeGraph,
    lb: LatticeGraph,
    yomi: Seq<char>,
    forced: Option<SegmentationResult>,
    path: Seq<(int, int)>,
)
    requires
        before.wf(),
        after.keys() == before.keys(),
        after.graph_builder().dict_keys() == before.graph_builder().dict_keys(),
        after.graph_builder().unigram() == before.graph_builder().unigram(),
        after.graph_builder().bigram() == before.graph_builder().bigram(),
        after.graph_builder().user().now() == before.graph_builder().user().now(),
        after.graph_builder().user().half_life() == before.graph_builder().user().half_life(),
        after.graph_builder().user().unigram() == words_chosen(
            before.graph_builder().user().unigram(),
            seq![word],
            1,
            before.graph_builder().user().now(),
            before.graph_builder().user().half_life(),
        ),
        after.graph_builder().user().bigram() == pairs_chosen(
            before.graph_builder().user().bigram(),
            seq![word],
            pair_count(1),
            before.graph_builder().user().now(),
            before.graph_builder().user().half_life(),
        ),
        count_at(
            before.graph_builder().user().unigram(),
            word,
            Seq::empty(),
            before.graph_builder().user().now(),
            before.graph_builder().user().half_life(),
        ) < COUNT_MAX,
        before.is_lattice(la, yomi, forced),
        after.is_lattice(lb, yomi, forced),
        is_path(la, path),
    ensures
        is_path(lb, path),
        times_on_path(la, path, word) == 0 ==> path_score(lb, path) == path_score(la, path),
        times_on_path(la, path, word) > 0 ==> path_score(lb, path) > path_score(la, path),
{
    let a = before.graph_builder();
    let b = after.graph_builder();
    let ua = a.user();
    let ub = b.user();
    reveal_with_fuel(words_chosen, 2);
    reveal_with_fuel(pairs_chosen, 2);
    lemma_chosen(ua.unigram(), word, Seq::empty(), ua.now(), ua.half_life(), 1);
    lemma_choice_raises_bonus(ua.unigram(), word, Seq::empty(), ua.now(), ua.half_life(), 1);
    let gain = ub.unigram_bonus(word) - ua.unigram_bonus(word);
    assert forall|k: Seq<char>| k != word implies #[trigger] ub.unigram_bonus(k) == ua.unigram_bonus(
        k,
    ) by {
        assert((k, Seq::<char>::empty()) != (word, Seq::<char>::empty()));
        assert(count_at(ub.unigram(), k, Seq::empty(), ua.now(), ua.half_life()) == count_at(
            ua.unigram(),
            k,
            Seq::empty(),
            ua.now(),
            ua.half_life(),
        ));
    }
    assert(a.raised_by(b, word, gain));
    a.lemma_lattice_raised(b, word, gain, la, lb, yomi, before.segments(yomi, forced));
    lemma_raised_path_score(la, lb, word, gain, path);
}

/// Collects the parts of an engine. A part that is not given is empty.
pub struct AkazaBuilder {
    tries: Vec<CrawdadKanaTrie>,
    dict: MarisaKanaKanjiDict,
    unigram: SystemUnigramLM,
    bigram: SystemBigramLM,
    user_data: UserData,
}

impl AkazaBuilder {
    /// The kana tries given so far.
    pub closed spec fn tries(&self) -> Seq<CrawdadKanaTrie> {
        self.tries@
    }

    /// The keys of the kana-kanji dictionary.
    pub closed spec fn dict_keys(&self) -> Seq<Seq<char>> {
        self.dict.keys()
    }

    /// The unigram model.
    pub closed spec fn unigram_lm(&self) -> SystemUnigramLM {
        self.unigram
    }

    /// The bigram model.
    pub closed spec fn bigram_lm(&self) -> SystemBigramLM {
        self.bigram
    }

    /// The user's history.
    pub closed spec fn user(&self) -> UserData {
        self.user_data
    }

    /// The invariant of the builder: its parts are well-formed.
    pub open spec fn wf(&self) -> bool {
        &&& self.unigram_lm().wf()
        &&& self.bigram_lm().wf()
        &&& self.user().wf()
    }

    /// Whether `other` has the parts of this builder, but for those that
    /// the flags name.
    pub open spec fn same_but(&self, other: AkazaBuilder, tries: bool, dict: bool, unigram: bool, bigram: bool, user: bool) -> bool {
        &&& tries || other.tries() == self.tries()
        &&& dict || other.dict_keys() == self.dict_keys()
        &&& unigram || other.unigram_lm() == self.unigram_lm()
        &&& bigram || other.bigram_lm() == self.bigram_lm()
        &&& user || other.user() == self.user()
    }

    /// A builder with empty parts.
    pub fn new() -> (b: AkazaBuilder)
        ensures
            b.wf(),
            b.tries().len() == 0,
            b.dict_keys().len() == 0,
            b.unigram_lm().words().len() == 0,
            b.bigram_lm().costs() == Map::<u64, i64>::empty(),
            b.user().unigram().len() == 0,
            b.user().bigram().len() == 0,
    {
        AkazaBuilder {
            tries: Vec::new(),
            dict: MarisaKanaKanjiDict::empty(),
            unigram: SystemUnigramLMBuilder::new().build(),
            bigram: SystemBigramLMBuilder::new().build(),
            user_data: UserData::new(),
        }
    }

    /// Adds a kana trie.
    pub fn kana_trie(self, trie: CrawdadKanaTrie) -> (b: AkazaBuilder)
        ensures
            b.tries() == self.tries().push(trie),
            self.same_but(b, true, false, false, false, false),
    {
        let mut b = self;
        b.tries.push(trie);
        b
    }

    /// Sets the kana-kanji dictionary.
    pub fn dict(self, dict: MarisaKanaKanjiDict) -> (b: AkazaBuilder)
        ensures
            b.dict_keys() == dict.keys(),
            self.same_but(b, false, true, false, false, false),
    {
        let mut b = self;
        b.dict = dict;
        b
    }

    /// Sets the unigram model.
    pub fn unigram(self, unigram: SystemUnigramLM) -> (b: AkazaBuilder)
        ensures
            b.unigram_lm() == unigram,
            self.same_but(b, false, false, true, false, false),
    {
        let mut b = self;
        b.unigram = unigram;
        b
    }

    /// Sets the bigram model.
    pub fn bigram(self, bigram: SystemBigramLM) -> (b: AkazaBuilder)
        ensures
            b.bigram_lm() == bigram,
            self.same_but(b, false, false, false, true, false),
    {
        let mut b = self;
        b.bigram = bigram;
        b
    }

    /// Sets the user's history.
    pub fn user_data(self, user_data: UserData) -> (b: AkazaBuilder)
        ensures
            b.user() == user_data,
            self.same_but(b, false, false, false, false, true),
    {
        let mut b = self;
        b.user_data = user_data;
        b
    }

    /// The engine of the parts.
    pub fn build(self) -> (a: Akaza)
        ensures
            a.keys() == union_keys(self.tries()),
            a.graph_builder().dict_keys() == self.dict_keys(),
            a.graph_builder().unigram() == self.unigram_lm(),
            a.graph_builder().bigram() == self.bigram_lm(),
            a.graph_builder().user() == self.user(),
            self.wf() ==> a.wf(),
    {
        let segmenter = Segmenter::new(self.tries);
        let graph_builder = GraphBuilder::new(
            self.dict,
            Rc::new(self.user_data),
            Rc::new(self.unigram),
            Rc::new(self.bigram),
        );
        Akaza::new(segmenter, graph_builder)
    }
}

impl Default for AkazaBuilder {
    fn default() -> (b: AkazaBuilder)
        ensures
            b.wf(),
            b.tries().len() == 0,
            b.dict_keys().len() == 0,
            b.unigram_lm().words().len() == 0,
    {
        AkazaBuilder::new()
    }
}

} // verus!
