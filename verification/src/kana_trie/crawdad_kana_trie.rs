//! A set of readings held in a double-array trie.
//!
//! The trie itself is `crawdad::Trie`. What this module proves rests on the
//! contracts that it states for that crate's functions; each is marked as
//! trusted in its doc comment.
use vstd::prelude::*;
use vstd::slice::slice_subrange;
use crate::kana_trie::trie_image::{is_sound_image, sound_image};
use crate::lm::word_index::WordIndex;
use crate::text::{str_eq, strings_view, substring, to_chars};

verus! {

/// The character that the trie uses as its terminator. No key may hold it.
pub const END_MARKER: char = '\u{ffff}';

/// The largest number of characters in a key. The trie is built by a
/// recursion that goes one level down for each character of a key, and a
/// thread with a stack of two megabytes bears about a thousand levels.
pub const MAX_KEY_CHARS: usize = 512;

#[verifier::external_type_specification]
#[verifier::external_body]
pub struct ExTrie(crawdad::Trie);

/// The keys that a trie holds.
pub uninterp spec fn trie_keys(t: crawdad::Trie) -> Set<Seq<char>>;

/// The bytes that a trie is serialized to.
pub uninterp spec fn trie_bytes(t: crawdad::Trie) -> Seq<u8>;

/// Whether `crawdad` builds a trie of the keys, given that they are valid:
/// whether the trie stays within the 31 bits of its indices.
pub uninterp spec fn trie_fits(keys: Seq<Seq<char>>) -> bool;

/// Why `crawdad` refused to build a trie.
#[derive(Clone, Copy, Debug, PartialEq, Eq, Structural)]
pub enum CrawdadFault {
    /// The keys are unfit: none at all, an empty one, a repeated one, or one
    /// that holds the end marker.
    Input,
    /// The builder was set up for another kind of trie.
    Setup,
    /// The keys or the trie grew beyond what the trie's 31-bit indices hold.
    Scale,
}

/// Why a kana trie could not be built.
#[derive(Clone, Copy, Debug, PartialEq, Eq, Structural)]
pub enum KanaTrieError {
    /// One of the keys is the empty string.
    EmptyKey,
    /// One of the keys holds the end marker U+FFFF.
    EndMarker,
    /// Two of the keys are equal.
    DuplicateKey,
    /// The keys, or one of them, or the trie made of them, are too large
    /// for the trie.
    TooLarge,
    /// The bytes are not those of a stored trie in which every search
    /// stays within the nodes.
    Corrupt,
}

/// Number of characters in all of `keys` together.
pub open spec fn total_chars(keys: Seq<Seq<char>>) -> nat
    decreases keys.len(),
{
    if keys.len() == 0 {
        0
    } else {
        total_chars(keys.drop_last()) + keys.last().len()
    }
}

/// Whether `crawdad` accepts `keys` as the keys of a trie: there is at least
/// one, none is empty, none holds the end marker, and no two are equal.
pub open spec fn keys_valid(keys: Seq<Seq<char>>) -> bool {
    &&& keys.len() > 0
    &&& forall|i: int| 0 <= i < keys.len() ==> (#[trigger] keys[i]).len() > 0
    &&& forall|i: int| 0 <= i < keys.len() ==> !(#[trigger] keys[i]).contains(END_MARKER)
    &&& keys.no_duplicates()
}

/// The lengths `l` in `1..=n` for which the first `l` characters of `h` are
/// one of `keys`, in ascending order.
pub open spec fn lengths_upto(keys: Set<Seq<char>>, h: Seq<char>, n: nat) -> Seq<int>
    decreases n,
{
    if n == 0 {
        Seq::empty()
    } else {
        let rest = lengths_upto(keys, h, (n - 1) as nat);
        if keys.contains(h.take(n as int)) {
            rest.push(n as int)
        } else {
            rest
        }
    }
}

/// The lengths of all prefixes of `h` that are one of `keys`, ascending.
pub open spec fn match_lengths(keys: Set<Seq<char>>, h: Seq<char>) -> Seq<int> {
    lengths_upto(keys, h, h.len())
}

/// All prefixes of `query` that are one of `keys`, shortest first.
pub open spec fn common_prefixes(keys: Set<Seq<char>>, query: Seq<char>) -> Seq<Seq<char>> {
    match_lengths(keys, query).map_values(|l: int| query.take(l))
}

/// Each length in the list lies in `1..=n`, and the list ascends strictly.
pub proof fn lemma_lengths_upto_bounds(keys: Set<Seq<char>>, h: Seq<char>, n: nat)
    ensures
        lengths_upto(keys, h, n).len() <= n,
        forall|i: int|
            0 <= i < lengths_upto(keys, h, n).len() ==> 1 <= #[trigger] lengths_upto(keys, h, n)[i]
                <= n,
        forall|i: int, j: int|
            0 <= i < j < lengths_upto(keys, h, n).len() ==> lengths_upto(keys, h, n)[i]
                < lengths_upto(keys, h, n)[j],
    decreases n,
{
    if n > 0 {
        lemma_lengths_upto_bounds(keys, h, (n - 1) as nat);
    }
}

/// A length is in the list exactly if it is in range and the prefix of that
/// length is a key.
pub proof fn lemma_lengths_upto_contains(keys: Set<Seq<char>>, h: Seq<char>, n: nat, l: int)
    ensures
        lengths_upto(keys, h, n).contains(l) <==> (1 <= l <= n && keys.contains(h.take(l))),
    decreases n,
{
    if n > 0 {
        let rest = lengths_upto(keys, h, (n - 1) as nat);
        lemma_lengths_upto_contains(keys, h, (n - 1) as nat, l);
        if keys.contains(h.take(n as int)) {
            let all = rest.push(n as int);
            if rest.contains(l) {
                let i = choose|i: int| 0 <= i < rest.len() && rest[i] == l;
                assert(all[i] == l);
            }
            if l == n {
                assert(all[rest.len() as int] == l);
            }
        }
    }
}

/// Two searches that agree on every prefix up to `n` give the same list.
proof fn lemma_lengths_upto_agree(
    keys1: Set<Seq<char>>,
    h1: Seq<char>,
    keys2: Set<Seq<char>>,
    h2: Seq<char>,
    n: nat,
)
    requires
        forall|m: int|
            1 <= m <= n ==> (keys1.contains(#[trigger] h1.take(m)) <==> keys2.contains(h2.take(m))),
    ensures
        lengths_upto(keys1, h1, n) == lengths_upto(keys2, h2, n),
    decreases n,
{
    if n > 0 {
        lemma_lengths_upto_agree(keys1, h1, keys2, h2, (n - 1) as nat);
        assert(keys1.contains(h1.take(n as int)) <==> keys2.contains(h2.take(n as int)));
    }
}

/// Where no prefix longer than `k` is a key, the list stops growing at `k`.
proof fn lemma_lengths_upto_stops(keys: Set<Seq<char>>, h: Seq<char>, k: nat, n: nat)
    requires
        k <= n,
        forall|m: int| k < m <= n ==> !keys.contains(#[trigger] h.take(m)),
    ensures
        lengths_upto(keys, h, n) == lengths_upto(keys, h, k),
    decreases n,
{
    if n > k {
        lemma_lengths_upto_stops(keys, h, k, (n - 1) as nat);
        assert(!keys.contains(h.take(n as int)));
    }
}

/// Builds a trie of `keys`.
///
/// Trusted: stands for `crawdad::Trie::from_keys`. That function sorts the
/// keys itself. It fails with an input error on keys that are not
/// [`keys_valid`], and with a scale error on valid keys of which the trie
/// outgrows its 31-bit indices; whether it does depends on the keys alone
/// and is named [`trie_fits`]. When it succeeds the trie holds exactly the
/// given keys, and its serialized form is sound: the builder puts the
/// children of a node into the block of the node's base, grows the nodes by
/// whole blocks, and marks the end of a key at a node by a leaf at the
/// node's base. The `requires` keeps the key numbers within 31 bits and the
/// character counts within 32 bits, where the builder's own arithmetic would
/// otherwise fail, and keeps the keys short, as the builder recurses once
/// for each character of a key.
#[verifier::external_body]
fn trie_from_keys(keys: &Vec<String>) -> (r: Result<crawdad::Trie, CrawdadFault>)
    requires
        keys.len() <= 0x8000_0000,
        total_chars(strings_view(keys@)) < u32::MAX,
        forall|i: int|
            0 <= i < keys.len() ==> (#[trigger] strings_view(keys@)[i]).len() <= MAX_KEY_CHARS,
    ensures
        (r is Ok) == (keys_valid(strings_view(keys@)) && trie_fits(strings_view(keys@))),
        r is Ok ==> trie_keys(r->Ok_0) == strings_view(keys@).to_set(),
        r is Ok ==> is_sound_image(trie_bytes(r->Ok_0)),
        r is Err ==> (r->Err_0 == CrawdadFault::Input <==> !keys_valid(strings_view(keys@))),
        r is Err ==> (r->Err_0 == CrawdadFault::Scale <==> keys_valid(strings_view(keys@))),
{
    match crawdad::Trie::from_keys(keys) {
        Ok(t) => Ok(t),
        Err(crawdad::errors::CrawdadError::Input(_)) => Err(CrawdadFault::Input),
        Err(crawdad::errors::CrawdadError::Setup(_)) => Err(CrawdadFault::Setup),
        Err(crawdad::errors::CrawdadError::Scale(_)) => Err(CrawdadFault::Scale),
    }
}

/// The lengths of the prefixes of `haystack` that are keys of `t`.
///
/// Trusted: stands for `crawdad::Trie::common_prefix_search`, of which it
/// keeps each match's end position. The search walks the haystack character
/// by character and reports every position at which a key ends, so the
/// positions come in ascending order. It reads the node at a base combined
/// with a code, and the leaf at the base of a node at which a key ends; in
/// a trie with a sound serialized form both lie within the nodes, hence the
/// first `requires`. A haystack that holds the end marker is left out: the
/// search would take the marker for the end of a key.
#[verifier::external_body]
fn trie_prefix_lengths(t: &crawdad::Trie, haystack: &[char]) -> (r: Vec<usize>)
    requires
        is_sound_image(trie_bytes(*t)),
        !haystack@.contains(END_MARKER),
    ensures
        r@.map_values(|l: usize| l as int) == match_lengths(trie_keys(*t), haystack@),
{
    t.common_prefix_search(haystack.iter().copied()).map(|m| m.1).collect()
}

/// The serialized form of `t`.
///
/// Trusted: stands for `crawdad::Trie::serialize_to_vec`.
#[verifier::external_body]
fn trie_to_bytes(t: &crawdad::Trie) -> (r: Vec<u8>)
    ensures
        r@ == trie_bytes(*t),
{
    t.serialize_to_vec()
}

/// The trie that `source` is the serialized form of.
///
/// Trusted: stands for `crawdad::Trie::deserialize_from_slice`, which reads
/// the table of codes and the nodes as `serialize_to_vec` writes them and
/// checks nothing. A sound image has exactly the bytes that its table and
/// its nodes take, so every byte of it is read: the trie that comes back
/// serializes to the same bytes and holds the keys of every trie that
/// does. On bytes that end early it panics, hence the `requires`.
#[verifier::external_body]
fn trie_from_bytes(source: &[u8]) -> (r: crawdad::Trie)
    requires
        is_sound_image(source@),
    ensures
        trie_bytes(r) == source@,
        forall|t: crawdad::Trie| trie_bytes(t) == source@ ==> trie_keys(t) == trie_keys(r),
{
    crawdad::Trie::deserialize_from_slice(source).0
}

/// A set of readings that answers common-prefix searches.
pub struct CrawdadKanaTrie {
    /// `None` stands for the empty set, of which `crawdad` builds no trie.
    trie: Option<crawdad::Trie>,
}

impl CrawdadKanaTrie {
    /// The invariant of the type: the trie has a sound serialized form, so
    /// that no search in it leaves its nodes.
    #[verifier::type_invariant]
    closed spec fn sound(self) -> bool {
        match self.trie {
            None => true,
            Some(t) => is_sound_image(trie_bytes(t)),
        }
    }

    /// The readings in the set. A reading is never empty and never holds the
    /// end marker.
    pub closed spec fn keys(&self) -> Set<Seq<char>> {
        match self.trie {
            None => Set::empty(),
            Some(t) => trie_keys(t).filter(|k: Seq<char>| k.len() > 0 && !k.contains(END_MARKER)),
        }
    }

    /// The bytes that [`save`](Self::save) writes for this trie: a tag byte,
    /// `0` for the empty set and `1` otherwise, then the trie's own
    /// serialized form.
    pub closed spec fn image(&self) -> Seq<u8> {
        match self.trie {
            None => seq![0u8],
            Some(t) => seq![1u8] + trie_bytes(t),
        }
    }

    /// Whether `bytes` are what [`save`](Self::save) writes: the tag byte
    /// `0` alone, or the tag byte `1` and a sound image of a trie.
    pub open spec fn is_saved_form(bytes: Seq<u8>) -> bool {
        &&& bytes.len() >= 1
        &&& if bytes[0] == 0 {
            bytes.len() == 1
        } else {
            bytes[0] == 1 && is_sound_image(bytes.skip(1))
        }
    }

    /// The error that keys without repeats call for, if any: more keys
    /// than a trie holds; else an empty key; else a key with the end
    /// marker; else more characters than the trie counts, or a key that is
    /// too long. Where there is none, building fails only if the trie does
    /// not fit.
    pub open spec fn input_error(keys: Seq<Seq<char>>) -> Option<KanaTrieError> {
        if keys.len() > 0x8000_0000 {
            Some(KanaTrieError::TooLarge)
        } else if exists|i: int| 0 <= i < keys.len() && (#[trigger] keys[i]).len() == 0 {
            Some(KanaTrieError::EmptyKey)
        } else if exists|i: int| 0 <= i < keys.len() && (#[trigger] keys[i]).contains(END_MARKER) {
            Some(KanaTrieError::EndMarker)
        } else if total_chars(keys) >= u32::MAX || exists|i: int|
            0 <= i < keys.len() && (#[trigger] keys[i]).len() > MAX_KEY_CHARS {
            Some(KanaTrieError::TooLarge)
        } else {
            None
        }
    }

    /// What [`build`](Self::build) answers for `keys`. Repeated keys count
    /// once. The answer is the error that the keys call for; else the trie
    /// of the keys, if there are none or their trie fits, and `TooLarge` if
    /// it does not.
    pub open spec fn build_post(keys: Seq<Seq<char>>, r: Result<CrawdadKanaTrie, KanaTrieError>) -> bool {
        &&& match Self::input_error(distinct(keys)) {
            Some(e) => r is Err && r->Err_0 == e,
            None => {
                &&& r is Ok <==> keys.len() == 0 || trie_fits(distinct(keys))
                &&& r matches Err(e) ==> e == KanaTrieError::TooLarge
            },
        }
        &&& r matches Ok(t) ==> t.keys() == keys.to_set()
    }

    /// The empty set of readings.
    pub fn empty() -> (t: CrawdadKanaTrie)
        ensures
            t.keys() == Set::<Seq<char>>::empty(),
    {
        CrawdadKanaTrie { trie: None }
    }

    /// Turns the outcome of building a `crawdad` trie into a kana trie or
    /// an error. A trie is taken if its serialized form is sound, and
    /// refused as corrupt if it is not. Of keys that are not empty and hold
    /// no end marker, an input fault can only mean a repeated key; any other
    /// fault means that the trie grew too large.
    pub fn from_outcome(outcome: Result<crawdad::Trie, CrawdadFault>) -> (r: Result<
        CrawdadKanaTrie,
        KanaTrieError,
    >)
        ensures
            match outcome {
                Ok(t) => if is_sound_image(trie_bytes(t)) {
                    r is Ok && r->Ok_0.keys() == trie_keys(t).filter(
                        |k: Seq<char>| k.len() > 0 && !k.contains(END_MARKER),
                    ) && r->Ok_0.image() == seq![1u8] + trie_bytes(t)
                } else {
                    r is Err && r->Err_0 == KanaTrieError::Corrupt
                },
                Err(CrawdadFault::Input) => r is Err && r->Err_0 == KanaTrieError::DuplicateKey,
                Err(_) => r is Err && r->Err_0 == KanaTrieError::TooLarge,
            },
    {
        match outcome {
            Ok(t) => {
                let bytes = trie_to_bytes(&t);
                if sound_image(bytes.as_slice()) {
                    Ok(CrawdadKanaTrie { trie: Some(t) })
                } else {
                    Err(KanaTrieError::Corrupt)
                }
            },
            Err(CrawdadFault::Input) => Err(KanaTrieError::DuplicateKey),
            Err(_) => Err(KanaTrieError::TooLarge),
        }
    }

    /// Builds the trie of `keys`, in whatever order they come. A key that
    /// comes more than once counts once.
    ///
    /// No keys at all give the empty set. An empty key, a key with the end
    /// marker U+FFFF and a key of more than `MAX_KEY_CHARS` characters are
    /// errors.
    pub fn build(keys: Vec<String>) -> (r: Result<CrawdadKanaTrie, KanaTrieError>)
        ensures
            Self::build_post(strings_view(keys@), r),
    {
        let ghost ks = strings_view(keys@);
        let mut unique: Vec<String> = Vec::new();
        let mut index = WordIndex::new();
        let mut i: usize = 0;
        assert(strings_view(unique@) =~= distinct(ks.take(0)));
        while i < keys.len()
            invariant
                i <= keys.len(),
                ks == strings_view(keys@),
                strings_view(unique@) == distinct(ks.take(i as int)),
                unique@.len() <= 0x8000_0000,
                index.wf(strings_view(unique@)),
            decreases keys.len() - i,
        {
            let ghost seen = strings_view(unique@);
            proof {
                assert(ks.take(i + 1).drop_last() =~= ks.take(i as int));
                assert(ks.take(i + 1).last() == keys[i as int]@);
            }
            if !listed(&unique, &index, keys[i].as_str()) {
                if unique.len() >= 0x8000_0000 {
                    proof {
                        lemma_distinct_grows(ks, i + 1);
                    }
                    return Err(KanaTrieError::TooLarge);
                }
                index.add(Ghost(seen), keys[i].as_str(), unique.len() as u32);
                unique.push(keys[i].clone());
                assert(strings_view(unique@) =~= seen.push(keys[i as int]@));
            }
            i = i + 1;
        }
        proof {
            assert(ks.take(keys.len() as int) =~= ks);
            lemma_distinct(ks);
        }
        let r = Self::build_distinct(unique);
        proof {
            if ks.len() > 0 {
                assert(ks.to_set().contains(ks[0]));
                assert(distinct(ks).len() > 0) by {
                    if distinct(ks).len() == 0 {
                        assert(distinct(ks).to_set() =~= Set::<Seq<char>>::empty());
                    }
                }
            }
        }
        r
    }

    /// Builds the trie of keys of which none comes twice.
    fn build_distinct(keys: Vec<String>) -> (r: Result<CrawdadKanaTrie, KanaTrieError>)
        requires
            strings_view(keys@).no_duplicates(),
        ensures
            match Self::input_error(strings_view(keys@)) {
                Some(e) => r is Err && r->Err_0 == e,
                None => {
                    &&& r is Ok <==> keys@.len() == 0 || trie_fits(strings_view(keys@))
                    &&& r matches Err(e) ==> e == KanaTrieError::TooLarge
                },
            },
            r matches Ok(t) ==> t.keys() == strings_view(keys@).to_set(),
    {
        let ghost ks = strings_view(keys@);
        if keys.len() > 0x8000_0000 {
            return Err(KanaTrieError::TooLarge);
        }
        let mut any_empty = false;
        let mut any_marker = false;
        let mut any_long = false;
        let mut total: u64 = 0;
        let mut too_large = false;
        let mut i: usize = 0;
        while i < keys.len()
            invariant
                i <= keys.len(),
                ks == strings_view(keys@),
                any_empty <==> exists|j: int| 0 <= j < i && (#[trigger] ks[j]).len() == 0,
                any_marker <==> exists|j: int| 0 <= j < i && (#[trigger] ks[j]).contains(END_MARKER),
                any_long <==> exists|j: int| 0 <= j < i && (#[trigger] ks[j]).len() > MAX_KEY_CHARS,
                too_large <==> total_chars(ks.take(i as int)) >= u32::MAX,
                !too_large ==> total == total_chars(ks.take(i as int)),
            decreases keys.len() - i,
        {
            let chars = to_chars(keys[i].as_str());
            assert(chars@ == ks[i as int]);
            proof {
                assert(ks.take(i + 1).drop_last() =~= ks.take(i as int));
                assert(ks.take(i + 1).last() == ks[i as int]);
            }
            if chars.len() == 0 {
                any_empty = true;
            }
            if has_marker(&chars) {
                any_marker = true;
            }
            if chars.len() > MAX_KEY_CHARS {
                any_long = true;
            }
            if !too_large {
                if chars.len() as u64 >= 0xffff_ffff - total {
                    too_large = true;
                } else {
                    total = total + chars.len() as u64;
                }
            }
            i = i + 1;
        }
        assert(ks.take(keys.len() as int) =~= ks);
        if any_empty {
            return Err(KanaTrieError::EmptyKey);
        }
        if any_marker {
            return Err(KanaTrieError::EndMarker);
        }
        if too_large || any_long {
            return Err(KanaTrieError::TooLarge);
        }
        if keys.len() == 0 {
            proof {
                assert(ks.to_set() =~= Set::<Seq<char>>::empty());
            }
            return Ok(CrawdadKanaTrie::empty());
        }
        let outcome = trie_from_keys(&keys);
        let r = Self::from_outcome(outcome);
        proof {
            if outcome is Ok {
                let t = outcome->Ok_0;
                assert(trie_keys(t).filter(|k: Seq<char>| k.len() > 0 && !k.contains(END_MARKER))
                    =~= ks.to_set()) by {
                    assert forall|k: Seq<char>| ks.to_set().contains(k) implies k.len() > 0
                        && !k.contains(END_MARKER) by {
                        let j = choose|j: int| 0 <= j < ks.len() && ks[j] == k;
                        assert(ks[j].len() > 0);
                    }
                }
            }
        }
        r
    }

    /// The lengths, in characters, of the prefixes of `chars[from..]` that
    /// are in the set, shortest first.
    pub fn common_prefix_lengths(&self, chars: &Vec<char>, from: usize) -> (r: Vec<usize>)
        requires
            from <= chars.len(),
        ensures
            r@.map_values(|l: usize| l as int) == match_lengths(
                self.keys(),
                chars@.subrange(from as int, chars.len() as int),
            ),
    {
        let ghost h = chars@.subrange(from as int, chars.len() as int);
        proof {
            use_type_invariant(self);
        }
        match &self.trie {
            None => {
                proof {
                    lemma_lengths_upto_stops(self.keys(), h, 0, h.len());
                }
                let r: Vec<usize> = Vec::new();
                assert(r@.map_values(|l: usize| l as int) =~= Seq::<int>::empty());
                r
            },
            Some(t) => {
                let mut end: usize = from;
                while end < chars.len() && chars[end] != END_MARKER
                    invariant
                        from <= end <= chars.len(),
                        forall|j: int| from <= j < end ==> chars[j] != END_MARKER,
                    decreases chars.len() - end,
                {
                    end = end + 1;
                }
                let cut = slice_subrange(chars.as_slice(), from, end);
                let ghost k = (end - from) as nat;
                assert(cut@ =~= h.take(k as int));
                let r = trie_prefix_lengths(t, cut);
                proof {
                    assert forall|m: int| 1 <= m <= k implies (trie_keys(*t).contains(
                        #[trigger] cut@.take(m),
                    ) <==> self.keys().contains(h.take(m))) by {
                        assert(cut@.take(m) =~= h.take(m));
                        assert(!h.take(m).contains(END_MARKER));
                    }
                    lemma_lengths_upto_agree(trie_keys(*t), cut@, self.keys(), h, k);
                    assert forall|m: int| k < m <= h.len() implies !self.keys().contains(
                        #[trigger] h.take(m),
                    ) by {
                        assert(h.take(m)[k as int] == END_MARKER);
                    }
                    lemma_lengths_upto_stops(self.keys(), h, k, h.len());
                }
                r
            },
        }
    }

    /// Every reading in the set that `query` starts with, shortest first.
    /// An empty query starts with none.
    pub fn common_prefix_search(&self, query: &str) -> (r: Vec<String>)
        ensures
            strings_view(r@) == common_prefixes(self.keys(), query@),
    {
        let chars = to_chars(query);
        let lengths = self.common_prefix_lengths(&chars, 0);
        assert(chars@.subrange(0, chars.len() as int) =~= query@);
        proof {
            lemma_lengths_upto_bounds(self.keys(), query@, query@.len());
        }
        let ghost ls = lengths@.map_values(|l: usize| l as int);
        let mut r: Vec<String> = Vec::new();
        let mut i: usize = 0;
        while i < lengths.len()
            invariant
                i <= lengths.len(),
                chars@ == query@,
                ls == lengths@.map_values(|l: usize| l as int),
                ls == match_lengths(self.keys(), query@),
                forall|j: int| 0 <= j < ls.len() ==> 1 <= #[trigger] ls[j] <= query@.len(),
                r.len() == i,
                forall|j: int| 0 <= j < i ==> (#[trigger] r[j])@ == query@.take(ls[j]),
            decreases lengths.len() - i,
        {
            assert(ls[i as int] == lengths[i as int]);
            let s = substring(&chars, 0, lengths[i]);
            r.push(s);
            i = i + 1;
        }
        assert(strings_view(r@) =~= common_prefixes(self.keys(), query@));
        r
    }

    /// The trie as bytes, for [`load`](Self::load) to read back.
    pub fn save(&self) -> (bytes: Vec<u8>)
        ensures
            bytes@ == self.image(),
            Self::is_saved_form(bytes@),
    {
        proof {
            use_type_invariant(self);
        }
        let bytes = match &self.trie {
            None => {
                let mut bytes: Vec<u8> = Vec::new();
                bytes.push(0u8);
                bytes
            },
            Some(t) => {
                let mut bytes: Vec<u8> = Vec::new();
                bytes.push(1u8);
                let mut body = trie_to_bytes(t);
                bytes.append(&mut body);
                assert(bytes@.skip(1) =~= trie_bytes(*t));
                bytes
            },
        };
        assert(bytes@ =~= self.image());
        bytes
    }

    /// Reads back a trie from its saved form. Bytes that are no saved form
    /// are refused as corrupt. The trie that comes back has the bytes as
    /// its image, and holds the readings of every trie with that image.
    pub fn load(bytes: &[u8]) -> (r: Result<CrawdadKanaTrie, KanaTrieError>)
        ensures
            r is Ok <==> Self::is_saved_form(bytes@),
            r matches Ok(t) ==> t.image() == bytes@ && forall|o: CrawdadKanaTrie|
                o.image() == bytes@ ==> o.keys() == t.keys(),
            r matches Err(e) ==> e == KanaTrieError::Corrupt,
    {
        if bytes.len() < 1 {
            return Err(KanaTrieError::Corrupt);
        }
        if bytes[0] == 0 {
            if bytes.len() != 1 {
                return Err(KanaTrieError::Corrupt);
            }
            let r = CrawdadKanaTrie { trie: None };
            assert(r.image() =~= bytes@);
            assert forall|o: CrawdadKanaTrie| o.image() == bytes@ implies o.keys() == r.keys() by {
                assert(o.trie is None);
            }
            Ok(r)
        } else {
            if bytes[0] != 1 {
                return Err(KanaTrieError::Corrupt);
            }
            let body = slice_subrange(bytes, 1, bytes.len());
            assert(body@ =~= bytes@.skip(1));
            if !sound_image(body) {
                return Err(KanaTrieError::Corrupt);
            }
            let t = trie_from_bytes(body);
            let r = CrawdadKanaTrie { trie: Some(t) };
            assert(r.image() =~= bytes@);
            assert forall|o: CrawdadKanaTrie| o.image() == bytes@ implies o.keys() == r.keys() by {
                assert(o.trie is Some);
                assert(trie_bytes(o.trie->0) =~= body@);
            }
            Ok(r)
        }
    }
}

/// The keys without those that came before: each key at its first place.
pub open spec fn distinct(keys: Seq<Seq<char>>) -> Seq<Seq<char>>
    decreases keys.len(),
{
    if keys.len() == 0 {
        Seq::empty()
    } else if distinct(keys.drop_last()).contains(keys.last()) {
        distinct(keys.drop_last())
    } else {
        distinct(keys.drop_last()).push(keys.last())
    }
}

/// The keys without repeats hold every key once.
pub proof fn lemma_distinct(keys: Seq<Seq<char>>)
    ensures
        distinct(keys).no_duplicates(),
        distinct(keys).to_set() == keys.to_set(),
        distinct(keys).len() <= keys.len(),
        keys.no_duplicates() ==> distinct(keys) == keys,
    decreases keys.len(),
{
    if keys.len() == 0 {
        assert(distinct(keys).to_set() =~= keys.to_set());
        assert(distinct(keys) =~= keys);
    } else {
        let before = keys.drop_last();
        let d = distinct(before);
        lemma_distinct(before);
        assert forall|k: Seq<char>| keys.to_set().contains(k) <==> (before.to_set().contains(k) || k
            == keys.last()) by {
            if keys.to_set().contains(k) {
                let i = choose|i: int| 0 <= i < keys.len() && keys[i] == k;
                if i < before.len() {
                    assert(before[i] == k);
                }
            }
            if before.to_set().contains(k) {
                let i = choose|i: int| 0 <= i < before.len() && before[i] == k;
                assert(keys[i] == k);
            }
            if k == keys.last() {
                assert(keys[keys.len() - 1] == k);
            }
        }
        if d.contains(keys.last()) {
            assert(d.to_set().contains(keys.last()));
            assert(distinct(keys).to_set() =~= keys.to_set());
        } else {
            let all = d.push(keys.last());
            assert forall|k: Seq<char>| all.to_set().contains(k) <==> (d.to_set().contains(k) || k
                == keys.last()) by {
                if all.to_set().contains(k) {
                    let i = choose|i: int| 0 <= i < all.len() && all[i] == k;
                    if i < d.len() {
                        assert(d[i] == k);
                    }
                }
                if d.to_set().contains(k) {
                    let i = choose|i: int| 0 <= i < d.len() && d[i] == k;
                    assert(all[i] == k);
                }
                if k == keys.last() {
                    assert(all[d.len() as int] == k);
                }
            }
            assert(distinct(keys).to_set() =~= keys.to_set());
        }
        if keys.no_duplicates() {
            assert(before.no_duplicates());
            if d.contains(keys.last()) {
                let i = choose|i: int| 0 <= i < before.len() && before[i] == keys.last();
                assert(keys[i] == keys[keys.len() - 1]);
            }
            assert(distinct(keys) =~= keys);
        }
    }
}

/// A longer list of keys has no fewer keys without repeats.
pub proof fn lemma_distinct_grows(keys: Seq<Seq<char>>, i: int)
    requires
        0 <= i <= keys.len(),
    ensures
        distinct(keys.take(i)).len() <= distinct(keys).len(),
    decreases keys.len() - i,
{
    if i < keys.len() {
        lemma_distinct_grows(keys, i + 1);
        assert(keys.take(i + 1).drop_last() =~= keys.take(i));
    } else {
        assert(keys.take(i) =~= keys);
    }
}

/// Whether `word` is one of `words`, of which `index` is the index.
fn listed(words: &Vec<String>, index: &WordIndex, word: &str) -> (b: bool)
    requires
        index.wf(strings_view(words@)),
        words@.len() <= 0x8000_0000,
    ensures
        b == strings_view(words@).contains(word@),
{
    let ghost all = strings_view(words@);
    match index.candidates(Ghost(all), word) {
        None => false,
        Some(ids) => {
            let mut j: usize = 0;
            while j < ids.len()
                invariant
                    all == strings_view(words@),
                    all.len() <= 0x8000_0000,
                    j <= ids.len(),
                    forall|k: int| 0 <= k < ids@.len() ==> (#[trigger] ids@[k]) < all.len(),
                    forall|k: int| 0 <= k < j ==> all[ids@[k] as int] != word@,
                decreases ids.len() - j,
            {
                let id = ids[j];
                if str_eq(words[id as usize].as_str(), word) {
                    assert(all[id as int] == word@);
                    return true;
                }
                j = j + 1;
            }
            proof {
                if all.contains(word@) {
                    let i = choose|i: int| 0 <= i < all.len() && all[i] == word@;
                    assert(ids@.contains(i as u32));
                    let k = choose|k: int| 0 <= k < ids@.len() && ids@[k] == i as u32;
                    assert(all[ids@[k] as int] != word@);
                    assert(false);
                }
            }
            false
        },
    }
}

/// Whether `chars` holds the end marker.
fn has_marker(chars: &Vec<char>) -> (b: bool)
    ensures
        b == chars@.contains(END_MARKER),
{
    let mut i: usize = 0;
    while i < chars.len()
        invariant
            i <= chars.len(),
            forall|j: int| 0 <= j < i ==> chars[j] != END_MARKER,
        decreases chars.len() - i,
    {
        if chars[i] == END_MARKER {
            return true;
        }
        i = i + 1;
    }
    false
}

impl Default for CrawdadKanaTrie {
    fn default() -> (t: CrawdadKanaTrie)
        ensures
            t.keys() == Set::<Seq<char>>::empty(),
    {
        CrawdadKanaTrie::empty()
    }
}

/// A trie read back from its saved image finds the same readings in every
/// query as the trie that was saved.
pub proof fn lemma_saved_trie_searches_alike(
    saved: CrawdadKanaTrie,
    loaded: CrawdadKanaTrie,
    query: Seq<char>,
)
    requires
        loaded.image() == saved.image(),
        forall|t: CrawdadKanaTrie| t.image() == saved.image() ==> t.keys() == loaded.keys(),
    ensures
        common_prefixes(loaded.keys(), query) == common_prefixes(saved.keys(), query),
{
}

} // verus!
