//! The kana-kanji dictionary in the form in which it is stored: one key per
//! reading, made of the reading, a tab, and the surface forms with a slash
//! between them.
use vstd::prelude::*;
use crate::text::{
    find_char,
    first_index,
    lemma_first_index,
    lemma_split_first,
    lemma_split_none,
    split,
    split_from,
    strings_view,
    substring,
    to_chars,
};

verus! {

/// The character between the reading and the surface forms.
pub const SEPARATOR: char = '\t';

/// The character between two surface forms.
pub const SLASH: char = '/';

/// Whether `s` starts with `prefix`.
pub open spec fn starts_with(s: Seq<char>, prefix: Seq<char>) -> bool {
    prefix.len() <= s.len() && s.take(prefix.len() as int) == prefix
}

/// Whether `i` is the first key that starts with `reading` and a tab, or the
/// number of keys if none does.
pub open spec fn is_first_hit(keys: Seq<Seq<char>>, reading: Seq<char>, i: int) -> bool {
    &&& 0 <= i <= keys.len()
    &&& forall|j: int| 0 <= j < i ==> !starts_with(#[trigger] keys[j], reading.push(SEPARATOR))
    &&& i < keys.len() ==> starts_with(keys[i], reading.push(SEPARATOR))
}

/// The surface forms that `key` holds: what follows its first tab, split at
/// each slash.
pub open spec fn surfaces_of(key: Seq<char>) -> Seq<Seq<char>> {
    split(key.skip(first_index(key, SEPARATOR) + 1), SLASH)
}

/// The reading that `key` holds: what stands before its first tab.
pub open spec fn reading_of(key: Seq<char>) -> Seq<char> {
    key.take(first_index(key, SEPARATOR))
}

/// The surface forms under `reading`: those of the first key that starts
/// with the reading and a tab.
pub open spec fn lookup(keys: Seq<Seq<char>>, reading: Seq<char>) -> Option<Seq<Seq<char>>> {
    if exists|i: int| 0 <= i < keys.len() && starts_with(#[trigger] keys[i], reading.push(SEPARATOR)) {
        let i = choose|i: int| is_first_hit(keys, reading, i) && i < keys.len();
        Some(surfaces_of(keys[i]))
    } else {
        None
    }
}

/// The key of one entry: the reading, a tab, the payload.
pub open spec fn entry_key(reading: Seq<char>, payload: Seq<char>) -> Seq<char> {
    reading.push(SEPARATOR) + payload
}

/// The surface forms joined by slashes.
pub open spec fn joined(surfaces: Seq<Seq<char>>) -> Seq<char>
    decreases surfaces.len(),
{
    if surfaces.len() == 0 {
        Seq::empty()
    } else if surfaces.len() == 1 {
        surfaces[0]
    } else {
        joined(surfaces.drop_last()).push(SLASH) + surfaces.last()
    }
}

/// Whether `key` starts with `reading` and a tab.
fn key_matches(key: &Vec<char>, reading: &Vec<char>) -> (b: bool)
    ensures
        b == starts_with(key@, reading@.push(SEPARATOR)),
{
    if key.len() <= reading.len() {
        return false;
    }
    let ghost prefix = reading@.push(SEPARATOR);
    let mut i: usize = 0;
    while i < reading.len()
        invariant
            i <= reading.len() < key.len(),
            prefix == reading@.push(SEPARATOR),
            forall|j: int| 0 <= j < i ==> key[j] == reading[j],
        decreases reading.len() - i,
    {
        if key[i] != reading[i] {
            assert(key@.take(prefix.len() as int)[i as int] != prefix[i as int]);
            return false;
        }
        i = i + 1;
    }
    if key[reading.len()] != SEPARATOR {
        assert(key@.take(prefix.len() as int)[reading.len() as int] != prefix[reading.len() as int]);
        return false;
    }
    assert(key@.take(prefix.len() as int) =~= prefix);
    true
}

/// Why a list of keys is not a dictionary.
#[derive(Clone, Copy, Debug, PartialEq, Eq, Structural)]
pub enum DictError {
    /// A key has no tab, so it holds no reading.
    MissingSeparator,
}

/// The kana-kanji dictionary: readings with their surface forms, the most
/// preferred first.
pub struct MarisaKanaKanjiDict {
    keys: Vec<Vec<char>>,
}

impl MarisaKanaKanjiDict {
    /// The keys of the dictionary, in the order in which they are searched.
    pub closed spec fn keys(&self) -> Seq<Seq<char>> {
        Seq::new(self.keys@.len(), |i: int| self.keys@[i]@)
    }

    /// The invariant of the dictionary: every key holds a tab.
    pub open spec fn wf(&self) -> bool {
        forall|i: int| 0 <= i < self.keys().len() ==> (#[trigger] self.keys()[i]).contains(SEPARATOR)
    }

    /// The dictionary without entries.
    pub fn empty() -> (d: MarisaKanaKanjiDict)
        ensures
            d.wf(),
            d.keys() == Seq::<Seq<char>>::empty(),
    {
        let d = MarisaKanaKanjiDict { keys: Vec::new() };
        assert(d.keys() =~= Seq::<Seq<char>>::empty());
        d
    }

    /// The dictionary with the given keys.
    pub(crate) fn with_keys(keys: Vec<Vec<char>>) -> (d: MarisaKanaKanjiDict)
        requires
            forall|i: int| 0 <= i < keys@.len() ==> (#[trigger] keys@[i])@.contains(SEPARATOR),
        ensures
            d.wf(),
            d.keys() == Seq::new(keys@.len(), |i: int| keys@[i]@),
    {
        let d = MarisaKanaKanjiDict { keys };
        proof {
            assert forall|i: int| 0 <= i < d.keys().len() implies (#[trigger] d.keys()[i]).contains(
                SEPARATOR,
            ) by {
                assert(keys@[i]@.contains(SEPARATOR));
            }
        }
        d
    }

    /// The dictionary with one key for each of `dicts`, in their order: the
    /// reading, a tab, and the surface forms joined by slashes.
    pub fn build(dicts: Vec<(String, Vec<String>)>) -> (d: MarisaKanaKanjiDict)
        ensures
            d.wf(),
            d.keys().len() == dicts.len(),
            forall|i: int|
                0 <= i < dicts.len() ==> #[trigger] d.keys()[i] == entry_key(
                    dicts[i].0@,
                    joined(strings_view(dicts[i].1@)),
                ),
    {
        let mut keys: Vec<Vec<char>> = Vec::new();
        let mut i: usize = 0;
        while i < dicts.len()
            invariant
                i <= dicts.len(),
                keys.len() == i,
                forall|j: int|
                    0 <= j < i ==> (#[trigger] keys[j])@ == entry_key(
                        dicts[j].0@,
                        joined(strings_view(dicts[j].1@)),
                    ),
            decreases dicts.len() - i,
        {
            let mut key = to_chars(dicts[i].0.as_str());
            key.push(SEPARATOR);
            let surfaces = &dicts[i].1;
            let ghost head = key@;
            let mut j: usize = 0;
            while j < surfaces.len()
                invariant
                    j <= surfaces.len(),
                    head == dicts[i as int].0@.push(SEPARATOR),
                    key@ == head + joined(strings_view(surfaces@).take(j as int)),
                decreases surfaces.len() - j,
            {
                let ghost done = strings_view(surfaces@).take(j as int);
                if j > 0 {
                    key.push(SLASH);
                }
                let mut piece = to_chars(surfaces[j].as_str());
                key.append(&mut piece);
                proof {
                    let now = strings_view(surfaces@).take(j + 1);
                    assert(now.drop_last() =~= done);
                    assert(now.last() == surfaces[j as int]@);
                    if j == 0 {
                        assert(joined(now) == now[0]);
                        assert(joined(done) =~= Seq::<char>::empty());
                        assert(key@ =~= head + joined(now));
                    } else {
                        assert(key@ =~= head + joined(now));
                    }
                }
                j = j + 1;
            }
            assert(strings_view(surfaces@).take(surfaces.len() as int) =~= strings_view(surfaces@));
            keys.push(key);
            i = i + 1;
        }
        let d = MarisaKanaKanjiDict { keys };
        proof {
            assert forall|i: int| 0 <= i < d.keys().len() implies (#[trigger] d.keys()[i]).contains(
                SEPARATOR,
            ) by {
                let k = d.keys()[i];
                assert(k == keys[i]@);
                assert(k[dicts[i].0@.len() as int] == SEPARATOR);
            }
        }
        d
    }

    /// The dictionary of `keys` as they were stored, or an error if one of
    /// them has no tab.
    pub fn load(keys: Vec<String>) -> (r: Result<MarisaKanaKanjiDict, DictError>)
        ensures
            match r {
                Ok(d) => d.wf() && d.keys() == strings_view(keys@),
                Err(e) => e == DictError::MissingSeparator && exists|i: int|
                    0 <= i < keys.len() && !(#[trigger] keys[i])@.contains(SEPARATOR),
            },
    {
        let mut out: Vec<Vec<char>> = Vec::new();
        let mut i: usize = 0;
        while i < keys.len()
            invariant
                i <= keys.len(),
                out.len() == i,
                forall|j: int| 0 <= j < i ==> (#[trigger] out[j])@ == keys[j]@,
                forall|j: int| 0 <= j < i ==> (#[trigger] keys[j])@.contains(SEPARATOR),
            decreases keys.len() - i,
        {
            let key = to_chars(keys[i].as_str());
            let at = find_char(&key, 0, SEPARATOR);
            assert(key@.skip(0) =~= key@);
            if at >= key.len() {
                proof {
                    if key@.contains(SEPARATOR) {
                        let k = choose|k: int| 0 <= k < key@.len() && key@[k] == SEPARATOR;
                        assert(false);
                    }
                    assert(!keys[i as int]@.contains(SEPARATOR));
                }
                return Err(DictError::MissingSeparator);
            }
            assert(key@[at as int] == SEPARATOR);
            out.push(key);
            i = i + 1;
        }
        let d = MarisaKanaKanjiDict { keys: out };
        assert(d.keys() =~= strings_view(keys@));
        Ok(d)
    }

    /// The keys of the dictionary as they are stored.
    pub fn stored_keys(&self) -> (r: Vec<String>)
        ensures
            strings_view(r@) == self.keys(),
    {
        let mut r: Vec<String> = Vec::new();
        let mut i: usize = 0;
        while i < self.keys.len()
            invariant
                i <= self.keys.len(),
                r.len() == i,
                forall|j: int| 0 <= j < i ==> (#[trigger] r[j])@ == self.keys()[j],
            decreases self.keys.len() - i,
        {
            let key = &self.keys[i];
            assert(self.keys()[i as int] == key@);
            let s = substring(key, 0, key.len());
            assert(key@.subrange(0, key@.len() as int) =~= key@);
            r.push(s);
            i = i + 1;
        }
        assert(strings_view(r@) =~= self.keys());
        r
    }

    /// The reading of every key, in the order of the keys.
    pub fn yomis(&self) -> (r: Vec<String>)
        requires
            self.wf(),
        ensures
            r.len() == self.keys().len(),
            forall|i: int| 0 <= i < r.len() ==> (#[trigger] r[i])@ == reading_of(self.keys()[i]),
    {
        let mut r: Vec<String> = Vec::new();
        let mut i: usize = 0;
        while i < self.keys.len()
            invariant
                i <= self.keys.len(),
                r.len() == i,
                forall|j: int| 0 <= j < i ==> (#[trigger] r[j])@ == reading_of(self.keys()[j]),
            decreases self.keys.len() - i,
        {
            let key = &self.keys[i];
            let at = find_char(key, 0, SEPARATOR);
            assert(key@.skip(0) =~= key@);
            let s = substring(key, 0, at);
            assert(self.keys()[i as int] == key@);
            r.push(s);
            i = i + 1;
        }
        r
    }

    /// The surface forms under `kana`, or `None` if the dictionary has no
    /// entry for it.
    pub fn get(&self, kana: &str) -> (r: Option<Vec<String>>)
        ensures
            match lookup(self.keys(), kana@) {
                Some(surfaces) => r is Some && strings_view(r->0@) == surfaces,
                None => r is None,
            },
    {
        let reading = to_chars(kana);
        let ghost keys = self.keys();
        let mut i: usize = 0;
        while i < self.keys.len()
            invariant
                i <= self.keys.len(),
                keys == self.keys(),
                reading@ == kana@,
                forall|j: int| 0 <= j < i ==> !starts_with(#[trigger] keys[j], kana@.push(SEPARATOR)),
            decreases self.keys.len() - i,
        {
            let key = &self.keys[i];
            assert(keys[i as int] == key@);
            if key_matches(key, &reading) {
                let at = find_char(key, 0, SEPARATOR);
                assert(key@.skip(0) =~= key@);
                proof {
                    assert(key@[reading@.len() as int] == key@.take(reading@.len() as int + 1)[
                        reading@.len() as int
                    ]);
                    assert(at < key.len());
                    assert(is_first_hit(keys, kana@, i as int));
                    let k = choose|k: int| is_first_hit(keys, kana@, k) && k < keys.len();
                    assert(is_first_hit(keys, kana@, k) && k < keys.len());
                    assert(k == i);
                }
                let surfaces = split_from(key, at + 1, SLASH);
                return Some(surfaces);
            }
            i = i + 1;
        }
        None
    }
}

impl Default for MarisaKanaKanjiDict {
    fn default() -> (d: MarisaKanaKanjiDict)
        ensures
            d.wf(),
            d.keys() == Seq::<Seq<char>>::empty(),
    {
        MarisaKanaKanjiDict::empty()
    }
}

/// The surface forms joined are the first of them, a slash, and the others
/// joined.
pub proof fn lemma_joined_first(first: Seq<char>, others: Seq<Seq<char>>)
    requires
        others.len() >= 1,
    ensures
        joined(seq![first] + others) == first.push(SLASH) + joined(others),
    decreases others.len(),
{
    let all = seq![first] + others;
    assert(all.drop_last() =~= seq![first] + others.drop_last());
    assert(all.last() == others.last());
    if others.len() == 1 {
        assert(all.drop_last() =~= seq![first]);
        assert(joined(seq![first]) == first);
        assert(joined(others) == others[0]);
    } else {
        lemma_joined_first(first, others.drop_last());
        assert((first.push(SLASH) + joined(others.drop_last())).push(SLASH) + others.last()
            =~= first.push(SLASH) + (joined(others.drop_last()).push(SLASH) + others.last()));
    }
}

/// Surface forms without a slash in them come back from their joined
/// form as they went in.
pub proof fn lemma_split_joined(surfaces: Seq<Seq<char>>)
    requires
        surfaces.len() >= 1,
        forall|i: int| 0 <= i < surfaces.len() ==> !(#[trigger] surfaces[i]).contains(SLASH),
    ensures
        split(joined(surfaces), SLASH) == surfaces,
    decreases surfaces.len(),
{
    if surfaces.len() == 1 {
        assert(joined(surfaces) == surfaces[0]);
        lemma_split_none(surfaces[0], SLASH);
        assert(seq![surfaces[0]] =~= surfaces);
    } else {
        let first = surfaces[0];
        let others = surfaces.drop_first();
        assert(seq![first] + others =~= surfaces);
        lemma_joined_first(first, others);
        assert forall|i: int| 0 <= i < others.len() implies !(#[trigger] others[i]).contains(SLASH) by {
            assert(others[i] == surfaces[i + 1]);
        }
        lemma_split_joined(others);
        lemma_split_first(first, joined(others), SLASH);
    }
}

/// A key starts with a reading and a tab exactly if it is the key of that
/// reading, where readings hold no tab.
pub proof fn lemma_key_of_reading(reading: Seq<char>, payload: Seq<char>, other: Seq<char>)
    requires
        !reading.contains(SEPARATOR),
        !other.contains(SEPARATOR),
    ensures
        starts_with(entry_key(reading, payload), other.push(SEPARATOR)) <==> reading == other,
        first_index(entry_key(reading, payload), SEPARATOR) == reading.len(),
        entry_key(reading, payload).skip(reading.len() as int + 1) == payload,
{
    let key = entry_key(reading, payload);
    assert(crate::text::is_first_index(key, SEPARATOR, reading.len() as int)) by {
        assert forall|j: int| 0 <= j < reading.len() implies key[j] != SEPARATOR by {
            assert(key[j] == reading[j]);
            assert(reading.contains(reading[j]));
        }
    }
    lemma_first_index(key, SEPARATOR, reading.len() as int);
    assert(key.skip(reading.len() as int + 1) =~= payload);
    let prefix = other.push(SEPARATOR);
    if reading == other {
        assert(key.take(prefix.len() as int) =~= prefix);
    }
    if starts_with(key, prefix) {
        let taken = key.take(prefix.len() as int);
        if other.len() < reading.len() {
            assert(taken[other.len() as int] == prefix[other.len() as int]);
            assert(key[other.len() as int] == reading[other.len() as int]);
            assert(reading.contains(reading[other.len() as int]));
        } else if other.len() > reading.len() {
            assert(taken[reading.len() as int] == prefix[reading.len() as int]);
            assert(prefix[reading.len() as int] == other[reading.len() as int]);
            assert(other.contains(other[reading.len() as int]));
        } else {
            assert(reading =~= other) by {
                assert forall|j: int| 0 <= j < reading.len() implies reading[j] == other[j] by {
                    assert(taken[j] == prefix[j]);
                }
            }
        }
    }
}

/// A dictionary gives back what it was built of: under a reading, the
/// surface forms of the first entry with that reading.
///
/// This holds for readings without a tab and for surface forms without a
/// slash, of which the entry has at least one.
pub proof fn lemma_built_dict_gives_back(
    entries: Seq<(Seq<char>, Seq<Seq<char>>)>,
    keys: Seq<Seq<char>>,
    i: int,
)
    requires
        keys.len() == entries.len(),
        forall|j: int|
            0 <= j < entries.len() ==> #[trigger] keys[j] == entry_key(
                entries[j].0,
                joined(entries[j].1),
            ),
        forall|j: int| 0 <= j < entries.len() ==> !(#[trigger] entries[j]).0.contains(SEPARATOR),
        0 <= i < entries.len(),
        forall|j: int| 0 <= j < i ==> (#[trigger] entries[j]).0 != entries[i].0,
        entries[i].1.len() >= 1,
        forall|k: int| 0 <= k < entries[i].1.len() ==> !(#[trigger] entries[i].1[k]).contains(SLASH),
    ensures
        lookup(keys, entries[i].0) == Some(entries[i].1),
{
    let reading = entries[i].0;
    assert forall|j: int| 0 <= j <= i implies (starts_with(
        #[trigger] keys[j],
        reading.push(SEPARATOR),
    ) <==> j == i) by {
        assert(!entries[j].0.contains(SEPARATOR));
        lemma_key_of_reading(entries[j].0, joined(entries[j].1), reading);
    }
    assert(is_first_hit(keys, reading, i));
    let found = choose|f: int| is_first_hit(keys, reading, f) && f < keys.len();
    assert(is_first_hit(keys, reading, found) && found < keys.len());
    assert(found == i) by {
        if found < i {
            assert(!starts_with(keys[found], reading.push(SEPARATOR)));
        } else if i < found {
            assert(!starts_with(keys[i], reading.push(SEPARATOR)));
        }
    }
    lemma_key_of_reading(reading, joined(entries[i].1), reading);
    lemma_split_joined(entries[i].1);
}

} // verus!
