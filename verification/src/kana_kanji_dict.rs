//! Collects the entries of a kana-kanji dictionary.
use vstd::prelude::*;
use crate::kana_kanji::marisa_kana_kanji_dict::{entry_key, MarisaKanaKanjiDict, SEPARATOR};
use crate::text::to_chars;

verus! {

/// Collects readings with their surface forms and builds the dictionary of
/// them.
pub struct KanaKanjiDictBuilder {
    keys: Vec<Vec<char>>,
}

impl KanaKanjiDictBuilder {
    /// The keys of the entries added so far, in their order.
    pub closed spec fn keys(&self) -> Seq<Seq<char>> {
        Seq::new(self.keys@.len(), |i: int| self.keys@[i]@)
    }

    /// A builder without entries.
    pub fn new() -> (b: KanaKanjiDictBuilder)
        ensures
            b.wf(),
            b.keys().len() == 0,
    {
        KanaKanjiDictBuilder { keys: Vec::new() }
    }

    /// Adds the entry of `yomi`: `kanjis` holds its surface forms, the most
    /// preferred first, with a slash between them.
    pub fn add(&mut self, yomi: &str, kanjis: &str)
        requires
            old(self).wf(),
        ensures
            final(self).wf(),
            final(self).keys() == old(self).keys().push(entry_key(yomi@, kanjis@)),
    {
        let mut key = to_chars(yomi);
        key.push(SEPARATOR);
        let mut payload = to_chars(kanjis);
        key.append(&mut payload);
        let ghost before = self.keys();
        self.keys.push(key);
        assert(self.keys() =~= before.push(entry_key(yomi@, kanjis@)));
        assert(entry_key(yomi@, kanjis@)[yomi@.len() as int] == SEPARATOR);
    }

    /// The dictionary of the entries added so far.
    pub fn build(self) -> (d: MarisaKanaKanjiDict)
        requires
            self.wf(),
        ensures
            d.wf(),
            d.keys() == self.keys(),
    {
        proof {
            assert forall|i: int| 0 <= i < self.keys@.len() implies (#[trigger] self.keys@[i])@.contains(
                SEPARATOR,
            ) by {
                assert(self.keys()[i].contains(SEPARATOR));
            }
        }
        MarisaKanaKanjiDict::with_keys(self.keys)
    }

    /// The invariant of the builder: every key holds a tab.
    pub open spec fn wf(&self) -> bool {
        forall|i: int| 0 <= i < self.keys().len() ==> (#[trigger] self.keys()[i]).contains(SEPARATOR)
    }
}

impl Default for KanaKanjiDictBuilder {
    fn default() -> (b: KanaKanjiDictBuilder)
        ensures
            b.wf(),
            b.keys().len() == 0,
    {
        KanaKanjiDictBuilder::new()
    }
}

} // verus!
