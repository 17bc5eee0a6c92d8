//! From romaji to hiragana.
//!
//! The converter holds a table of romaji spellings with the kana that they
//! stand for, the longest spellings first. It reads its input from the left:
//! where a spelling of the table starts, the first such spelling in the table
//! is replaced by its kana; where none starts, one character is passed
//! through as it is. A consonant that waits for its vowel is thus left
//! standing.
use vstd::prelude::*;
use crate::text::{push_char, substring, to_chars};

verus! {

/// One line of the table: a spelling and its kana.
pub struct RomKanEntry {
    roman: Vec<char>,
    kana: Vec<char>,
}

/// Whether `c` is a letter of the Latin alphabet that is not a vowel.
pub open spec fn is_consonant(c: char) -> bool {
    &&& ('a' <= c <= 'z' || 'A' <= c <= 'Z')
    &&& c != 'a' && c != 'i' && c != 'u' && c != 'e' && c != 'o'
    &&& c != 'A' && c != 'I' && c != 'U' && c != 'E' && c != 'O'
}

/// Whether `c` is an ASCII character.
pub open spec fn is_ascii_char(c: char) -> bool {
    (c as u32) < 0x80
}

/// Whether the spelling `roman` stands at the start of `rest`.
pub open spec fn spelled_at(roman: Seq<char>, rest: Seq<char>) -> bool {
    0 < roman.len() <= rest.len() && rest.take(roman.len() as int) == roman
}

/// Whether `i` is the first line of the table whose spelling stands at the
/// start of `rest`, or the number of lines if there is none.
pub open spec fn is_first_match(table: Seq<(Seq<char>, Seq<char>)>, rest: Seq<char>, i: int) -> bool {
    &&& 0 <= i <= table.len()
    &&& forall|j: int| 0 <= j < i ==> !spelled_at((#[trigger] table[j]).0, rest)
    &&& i < table.len() ==> spelled_at(table[i].0, rest)
}

/// The first line of the table whose spelling stands at the start of
/// `rest`, or the number of lines if there is none.
pub open spec fn first_match(table: Seq<(Seq<char>, Seq<char>)>, rest: Seq<char>) -> int {
    choose|i: int| is_first_match(table, rest, i)
}

/// There is one first match, and `first_match` is it.
pub proof fn lemma_first_match(table: Seq<(Seq<char>, Seq<char>)>, rest: Seq<char>, i: int)
    requires
        is_first_match(table, rest, i),
    ensures
        first_match(table, rest) == i,
{
    let k = first_match(table, rest);
    assert(is_first_match(table, rest, k));
    if k < i {
        assert(!spelled_at(table[k].0, rest));
    } else if i < k {
        assert(!spelled_at(table[i].0, rest));
    }
}

/// `src` in hiragana, as far as the table spells it.
pub open spec fn converted(table: Seq<(Seq<char>, Seq<char>)>, src: Seq<char>) -> Seq<char>
    decreases src.len(),
{
    if src.len() == 0 {
        Seq::empty()
    } else {
        let i = first_match(table, src);
        if 0 <= i < table.len() && 0 < table[i].0.len() <= src.len() {
            table[i].1 + converted(table, src.skip(table[i].0.len() as int))
        } else {
            seq![src[0]] + converted(table, src.skip(1))
        }
    }
}

/// Whether `k` is where the trailing consonants of `s` begin.
pub open spec fn is_consonant_tail(s: Seq<char>, k: int) -> bool {
    &&& 0 <= k <= s.len()
    &&& forall|i: int| k <= i < s.len() ==> is_consonant(#[trigger] s[i])
    &&& k > 0 ==> !is_consonant(s[k - 1])
}

/// Where the trailing consonants of `s` begin.
pub open spec fn consonant_tail(s: Seq<char>) -> int {
    choose|k: int| is_consonant_tail(s, k)
}

/// The trailing consonants begin at one place only.
pub proof fn lemma_consonant_tail(s: Seq<char>, k: int)
    requires
        is_consonant_tail(s, k),
    ensures
        consonant_tail(s) == k,
{
    let c = consonant_tail(s);
    assert(is_consonant_tail(s, c));
    if c < k {
        assert(is_consonant(s[k - 1]));
    } else if k < c {
        assert(is_consonant(s[c - 1]));
    }
}

/// `s` without its last character and without the consonants that then
/// stand at its end.
pub open spec fn without_last(s: Seq<char>) -> Seq<char> {
    if s.len() == 0 {
        s
    } else {
        s.drop_last().take(consonant_tail(s.drop_last()))
    }
}

/// Whether the spellings of the table are fit for use: none is empty, all
/// are ASCII, and none stands before a longer one.
pub open spec fn table_wf(table: Seq<(Seq<char>, Seq<char>)>) -> bool {
    &&& forall|i: int| 0 <= i < table.len() ==> (#[trigger] table[i]).0.len() > 0
    &&& forall|i: int, j: int|
        0 <= i < table.len() && 0 <= j < table[i].0.len() ==> is_ascii_char(
            #[trigger] table[i].0[j],
        )
    &&& forall|i: int, j: int|
        0 <= i < j < table.len() ==> (#[trigger] table[i]).0.len() >= (#[trigger] table[j]).0.len()
}

/// With the longest spellings first, the first match is a longest match.
pub proof fn lemma_first_match_is_longest(table: Seq<(Seq<char>, Seq<char>)>, rest: Seq<char>, j: int)
    requires
        table_wf(table),
        0 <= j < table.len(),
        spelled_at(table[j].0, rest),
    ensures
        0 <= first_match(table, rest) <= j,
        table[first_match(table, rest)].0.len() >= table[j].0.len(),
        spelled_at(table[first_match(table, rest)].0, rest),
{
    lemma_first_match_exists(table, rest, 0);
    let i = first_match(table, rest);
    if i > j {
        assert(!spelled_at(table[j].0, rest));
    }
}

/// Every table has a first match for every input.
pub proof fn lemma_first_match_exists(table: Seq<(Seq<char>, Seq<char>)>, rest: Seq<char>, n: nat)
    requires
        n <= table.len(),
        forall|j: int| 0 <= j < n ==> !spelled_at((#[trigger] table[j]).0, rest),
    ensures
        is_first_match(table, rest, first_match(table, rest)),
    decreases table.len() - n,
{
    if n == table.len() {
        assert(is_first_match(table, rest, n as int));
    } else if spelled_at(table[n as int].0, rest) {
        assert(is_first_match(table, rest, n as int));
    } else {
        lemma_first_match_exists(table, rest, n + 1);
    }
}

/// Text without ASCII characters is left as it is.
pub proof fn lemma_no_ascii_is_fixed(table: Seq<(Seq<char>, Seq<char>)>, src: Seq<char>)
    requires
        table_wf(table),
        forall|i: int| 0 <= i < src.len() ==> !is_ascii_char(#[trigger] src[i]),
    ensures
        converted(table, src) == src,
    decreases src.len(),
{
    if src.len() > 0 {
        lemma_first_match_exists(table, src, 0);
        let i = first_match(table, src);
        if i < table.len() {
            assert(spelled_at(table[i].0, src));
            assert(src.take(table[i].0.len() as int)[0] == table[i].0[0]);
            assert(is_ascii_char(table[i].0[0]));
            assert(false);
        }
        assert forall|k: int| 0 <= k < src.skip(1).len() implies !is_ascii_char(
            #[trigger] src.skip(1)[k],
        ) by {
            assert(src.skip(1)[k] == src[k + 1]);
        }
        lemma_no_ascii_is_fixed(table, src.skip(1));
        assert(seq![src[0]] + src.skip(1) =~= src);
    }
}

/// Whether `c` is a hiragana character.
pub open spec fn is_hiragana(c: char) -> bool {
    0x3041 <= (c as u32) <= 0x309f
}

/// Converting what is already in hiragana changes nothing, so converting
/// it twice gives what converting it once gives.
pub proof fn lemma_hiragana_is_fixed(table: Seq<(Seq<char>, Seq<char>)>, src: Seq<char>)
    requires
        table_wf(table),
        forall|i: int| 0 <= i < src.len() ==> is_hiragana(#[trigger] src[i]),
    ensures
        converted(table, src) == src,
        converted(table, converted(table, src)) == converted(table, src),
{
    lemma_no_ascii_is_fixed(table, src);
}

/// Converts romaji to hiragana by a table of spellings.
pub struct RomKanConverter {
    table: Vec<RomKanEntry>,
}

impl RomKanConverter {
    /// The table: each spelling with its kana.
    pub closed spec fn table(&self) -> Seq<(Seq<char>, Seq<char>)> {
        Seq::new(self.table@.len(), |i: int| (self.table@[i].roman@, self.table@[i].kana@))
    }

    /// The invariant of the converter.
    pub open spec fn wf(&self) -> bool {
        table_wf(self.table())
    }

    /// A converter with an empty table, which leaves every text as it is.
    pub fn empty() -> (c: RomKanConverter)
        ensures
            c.wf(),
            c.table() == Seq::<(Seq<char>, Seq<char>)>::empty(),
    {
        let c = RomKanConverter { table: Vec::new() };
        assert(c.table() =~= Seq::<(Seq<char>, Seq<char>)>::empty());
        c
    }

    /// Adds the spelling `roman` for `kana` and says whether it was taken.
    /// A spelling that is empty or not ASCII is not taken. The new line
    /// comes before the first line with a shorter spelling, so behind the
    /// lines with a spelling of its own length.
    pub fn add(&mut self, roman: &str, kana: &str) -> (taken: bool)
        requires
            old(self).wf(),
        ensures
            final(self).wf(),
            taken == spelling_ok(roman@),
            final(self).table() == with_spelling(old(self).table(), roman@, kana@),
    {
        let spelling = to_chars(roman);
        if spelling.len() == 0 {
            return false;
        }
        let mut j: usize = 0;
        while j < spelling.len()
            invariant
                *self == *old(self),
                self.wf(),
                spelling@ == roman@,
                j <= spelling.len(),
                forall|i: int| 0 <= i < j ==> is_ascii_char(#[trigger] spelling[i]),
            decreases spelling.len() - j,
        {
            if spelling[j] as u32 >= 0x80 {
                return false;
            }
            j = j + 1;
        }
        let mut at: usize = 0;
        while at < self.table.len() && self.table[at].roman.len() >= spelling.len()
            invariant
                *self == *old(self),
                self.wf(),
                at <= self.table.len(),
                forall|i: int| 0 <= i < at ==> (#[trigger] self.table()[i]).0.len() >= spelling.len(),
            decreases self.table.len() - at,
        {
            assert(self.table()[at as int].0 == self.table[at as int].roman@);
            at = at + 1;
        }
        let ghost before = self.table();
        proof {
            if at < self.table.len() {
                assert(before[at as int].0 == self.table[at as int].roman@);
            }
            lemma_place_of(before, roman@.len(), at as int);
        }
        self.table.insert(at, RomKanEntry { roman: spelling, kana: to_chars(kana) });
        proof {
            let after = self.table();
            assert(after =~= before.insert(at as int, (roman@, kana@)));
            assert forall|a: int, b: int| 0 <= a < b < after.len() implies (#[trigger] after[a]).0.len()
                >= (#[trigger] after[b]).0.len() by {
                if a < at && b > at {
                    assert(before[a].0.len() >= spelling.len());
                    assert(before[at as int].0.len() < spelling.len());
                    assert(after[b] == before[b - 1]);
                    if b - 1 > at {
                        assert(before[at as int].0.len() >= before[b - 1].0.len());
                    }
                } else if a < at && b == at {
                } else if a == at {
                    assert(after[b] == before[b - 1]);
                    if b - 1 > at {
                        assert(before[at as int].0.len() >= before[b - 1].0.len());
                    }
                } else if a > at {
                    assert(after[a] == before[a - 1]);
                    assert(after[b] == before[b - 1]);
                } else {
                    assert(after[a] == before[a]);
                    assert(after[b] == before[b]);
                }
            }
        }
        true
    }

    /// The first line of the table whose spelling stands at `chars[pos..]`.
    fn find(&self, chars: &Vec<char>, pos: usize) -> (i: usize)
        requires
            self.wf(),
            pos <= chars.len(),
        ensures
            i == first_match(self.table(), chars@.skip(pos as int)),
            is_first_match(self.table(), chars@.skip(pos as int), i as int),
    {
        let ghost rest = chars@.skip(pos as int);
        let mut i: usize = 0;
        while i < self.table.len()
            invariant
                self.wf(),
                pos <= chars.len(),
                i <= self.table.len(),
                rest == chars@.skip(pos as int),
                forall|j: int| 0 <= j < i ==> !spelled_at((#[trigger] self.table()[j]).0, rest),
            decreases self.table.len() - i,
        {
            let roman = &self.table[i].roman;
            assert(self.table()[i as int].0 == roman@);
            if roman.len() <= chars.len() - pos {
                let mut j: usize = 0;
                while j < roman.len() && chars[pos + j] == roman[j]
                    invariant
                        j <= roman.len() <= chars.len() - pos,
                        forall|k: int| 0 <= k < j ==> chars[pos + k] == roman[k],
                    decreases roman.len() - j,
                {
                    j = j + 1;
                }
                if j == roman.len() {
                    proof {
                        assert(rest.take(roman.len() as int) =~= roman@);
                        lemma_first_match(self.table(), rest, i as int);
                    }
                    return i;
                }
                assert(rest.take(roman.len() as int)[j as int] != roman@[j as int]);
            }
            i = i + 1;
        }
        proof {
            lemma_first_match(self.table(), rest, i as int);
        }
        i
    }

    /// `src` in hiragana, as far as the table spells it.
    pub fn to_hiragana(&self, src: &str) -> (r: String)
        requires
            self.wf(),
        ensures
            r@ == converted(self.table(), src@),
    {
        let chars = to_chars(src);
        let mut out = String::new();
        let mut pos: usize = 0;
        assert(chars@.skip(0) =~= chars@);
        while pos < chars.len()
            invariant
                self.wf(),
                chars@ == src@,
                pos <= chars.len(),
                out@ + converted(self.table(), chars@.skip(pos as int)) == converted(
                    self.table(),
                    src@,
                ),
            decreases chars.len() - pos,
        {
            let ghost rest = chars@.skip(pos as int);
            let ghost before = out@;
            let i = self.find(&chars, pos);
            if i < self.table.len() {
                let entry = &self.table[i];
                assert(self.table()[i as int] == (entry.roman@, entry.kana@));
                let mut j: usize = 0;
                while j < entry.kana.len()
                    invariant
                        j <= entry.kana.len(),
                        out@ == before + entry.kana@.take(j as int),
                    decreases entry.kana.len() - j,
                {
                    push_char(&mut out, entry.kana[j]);
                    assert(entry.kana@.take(j + 1) =~= entry.kana@.take(j as int).push(
                        entry.kana@[j as int],
                    ));
                    j = j + 1;
                }
                proof {
                    assert(entry.kana@.take(entry.kana.len() as int) =~= entry.kana@);
                    assert(rest.skip(entry.roman.len() as int) =~= chars@.skip(
                        pos + entry.roman.len(),
                    ));
                    assert(before + (entry.kana@ + converted(
                        self.table(),
                        rest.skip(entry.roman.len() as int),
                    )) =~= (before + entry.kana@) + converted(
                        self.table(),
                        rest.skip(entry.roman.len() as int),
                    ));
                }
                pos = pos + entry.roman.len();
            } else {
                push_char(&mut out, chars[pos]);
                proof {
                    assert(rest.skip(1) =~= chars@.skip(pos + 1));
                    assert(before + (seq![rest[0]] + converted(self.table(), rest.skip(1)))
                        =~= before.push(rest[0]) + converted(self.table(), rest.skip(1)));
                }
                pos = pos + 1;
            }
        }
        assert(out@ + Seq::<char>::empty() =~= out@);
        out
    }

    /// `src` without its last character, and without the consonants that
    /// then stand at its end: they were waiting for the vowel that is gone.
    pub fn remove_last_char(&self, src: &str) -> (r: String)
        ensures
            r@ == without_last(src@),
    {
        let chars = to_chars(src);
        if chars.len() == 0 {
            return String::new();
        }
        let ghost s = chars@.drop_last();
        let mut k: usize = chars.len() - 1;
        while k > 0 && consonant(chars[k - 1])
            invariant
                k <= chars.len() - 1,
                s == chars@.drop_last(),
                forall|i: int| k <= i < s.len() ==> is_consonant(#[trigger] s[i]),
            decreases k,
        {
            k = k - 1;
        }
        proof {
            if k > 0 {
                assert(s[k - 1] == chars[k - 1]);
            }
            lemma_consonant_tail(s, k as int);
            assert(s.take(k as int) =~= chars@.subrange(0, k as int));
        }
        substring(&chars, 0, k)
    }
}

/// Whether `c` is a letter of the Latin alphabet that is not a vowel.
pub fn consonant(c: char) -> (b: bool)
    ensures
        b == is_consonant(c),
{
    (('a' <= c && c <= 'z') || ('A' <= c && c <= 'Z')) && c != 'a' && c != 'i' && c != 'u' && c
        != 'e' && c != 'o' && c != 'A' && c != 'I' && c != 'U' && c != 'E' && c != 'O'
}

/// Adds part 1 of the standard table.
fn standard_part_1(c: &mut RomKanConverter)
    requires
        old(c).wf(),
    ensures
        final(c).wf(),
        final(c).table() == standard_rows_1(old(c).table()),
{
    c.add("a", "あ");
    c.add("i", "い");
    c.add("u", "う");
    c.add("e", "え");
    c.add("o", "お");
    c.add("ka", "か");
    c.add("ki", "き");
    c.add("ku", "く");
    c.add("ke", "け");
    c.add("ko", "こ");
    c.add("ga", "が");
    c.add("gi", "ぎ");
    c.add("gu", "ぐ");
    c.add("ge", "げ");
    c.add("go", "ご");
    c.add("sa", "さ");
    c.add("si", "し");
    c.add("su", "す");
    c.add("se", "せ");
    c.add("so", "そ");
    c.add("za", "ざ");
    c.add("zi", "じ");
    c.add("zu", "ず");
    c.add("ze", "ぜ");
    c.add("zo", "ぞ");
    c.add("ta", "た");
    c.add("ti", "ち");
    c.add("tu", "つ");
    c.add("te", "て");
    c.add("to", "と");
    c.add("da", "だ");
    c.add("di", "ぢ");
    c.add("du", "づ");
    c.add("de", "で");
    c.add("do", "ど");
    c.add("na", "な");
    c.add("ni", "に");
    c.add("nu", "ぬ");
    c.add("ne", "ね");
    c.add("no", "の");
}

/// Adds part 2 of the standard table.
fn standard_part_2(c: &mut RomKanConverter)
    requires
        old(c).wf(),
    ensures
        final(c).wf(),
        final(c).table() == standard_rows_2(old(c).table()),
{
    c.add("ha", "は");
    c.add("hi", "ひ");
    c.add("hu", "ふ");
    c.add("he", "へ");
    c.add("ho", "ほ");
    c.add("ba", "ば");
    c.add("bi", "び");
    c.add("bu", "ぶ");
    c.add("be", "べ");
    c.add("bo", "ぼ");
    c.add("pa", "ぱ");
    c.add("pi", "ぴ");
    c.add("pu", "ぷ");
    c.add("pe", "ぺ");
    c.add("po", "ぽ");
    c.add("ma", "ま");
    c.add("mi", "み");
    c.add("mu", "む");
    c.add("me", "め");
    c.add("mo", "も");
    c.add("ra", "ら");
    c.add("ri", "り");
    c.add("ru", "る");
    c.add("re", "れ");
    c.add("ro", "ろ");
    c.add("ya", "や");
    c.add("yu", "ゆ");
    c.add("yo", "よ");
    c.add("wa", "わ");
    c.add("wo", "を");
    c.add("wi", "うぃ");
    c.add("we", "うぇ");
    c.add("shi", "し");
    c.add("chi", "ち");
    c.add("tsu", "つ");
    c.add("fu", "ふ");
    c.add("ji", "じ");
    c.add("fa", "ふぁ");
    c.add("fi", "ふぃ");
    c.add("fe", "ふぇ");
}

/// Adds part 3 of the standard table.
fn standard_part_3(c: &mut RomKanConverter)
    requires
        old(c).wf(),
    ensures
        final(c).wf(),
        final(c).table() == standard_rows_3(old(c).table()),
{
    c.add("fo", "ふぉ");
    c.add("va", "ゔぁ");
    c.add("vi", "ゔぃ");
    c.add("vu", "ゔ");
    c.add("ve", "ゔぇ");
    c.add("vo", "ゔぉ");
    c.add("kya", "きゃ");
    c.add("kyu", "きゅ");
    c.add("kyo", "きょ");
    c.add("gya", "ぎゃ");
    c.add("gyu", "ぎゅ");
    c.add("gyo", "ぎょ");
    c.add("sya", "しゃ");
    c.add("syu", "しゅ");
    c.add("syo", "しょ");
    c.add("sha", "しゃ");
    c.add("shu", "しゅ");
    c.add("sho", "しょ");
    c.add("she", "しぇ");
    c.add("zya", "じゃ");
    c.add("zyu", "じゅ");
    c.add("zyo", "じょ");
    c.add("jya", "じゃ");
    c.add("jyu", "じゅ");
    c.add("jyo", "じょ");
    c.add("ja", "じゃ");
    c.add("ju", "じゅ");
    c.add("jo", "じょ");
    c.add("je", "じぇ");
    c.add("tya", "ちゃ");
    c.add("tyu", "ちゅ");
    c.add("tyo", "ちょ");
    c.add("cha", "ちゃ");
    c.add("chu", "ちゅ");
    c.add("cho", "ちょ");
    c.add("che", "ちぇ");
    c.add("cya", "ちゃ");
    c.add("cyu", "ちゅ");
    c.add("cyo", "ちょ");
    c.add("dya", "ぢゃ");
}

/// Adds part 4 of the standard table.
fn standard_part_4(c: &mut RomKanConverter)
    requires
        old(c).wf(),
    ensures
        final(c).wf(),
        final(c).table() == standard_rows_4(old(c).table()),
{
    c.add("dyu", "ぢゅ");
    c.add("dyo", "ぢょ");
    c.add("nya", "にゃ");
    c.add("nyu", "にゅ");
    c.add("nyo", "にょ");
    c.add("hya", "ひゃ");
    c.add("hyu", "ひゅ");
    c.add("hyo", "ひょ");
    c.add("bya", "びゃ");
    c.add("byu", "びゅ");
    c.add("byo", "びょ");
    c.add("pya", "ぴゃ");
    c.add("pyu", "ぴゅ");
    c.add("pyo", "ぴょ");
    c.add("mya", "みゃ");
    c.add("myu", "みゅ");
    c.add("myo", "みょ");
    c.add("rya", "りゃ");
    c.add("ryu", "りゅ");
    c.add("ryo", "りょ");
    c.add("thi", "てぃ");
    c.add("dhi", "でぃ");
    c.add("dhu", "でゅ");
    c.add("tsa", "つぁ");
    c.add("tsi", "つぃ");
    c.add("tse", "つぇ");
    c.add("tso", "つぉ");
    c.add("kka", "っか");
    c.add("kki", "っき");
    c.add("kku", "っく");
    c.add("kke", "っけ");
    c.add("kko", "っこ");
    c.add("gga", "っが");
    c.add("ggi", "っぎ");
    c.add("ggu", "っぐ");
    c.add("gge", "っげ");
    c.add("ggo", "っご");
    c.add("ssa", "っさ");
    c.add("ssi", "っし");
    c.add("ssu", "っす");
}

/// Adds part 5 of the standard table.
fn standard_part_5(c: &mut RomKanConverter)
    requires
        old(c).wf(),
    ensures
        final(c).wf(),
        final(c).table() == standard_rows_5(old(c).table()),
{
    c.add("sse", "っせ");
    c.add("sso", "っそ");
    c.add("zza", "っざ");
    c.add("zzi", "っじ");
    c.add("zzu", "っず");
    c.add("zze", "っぜ");
    c.add("zzo", "っぞ");
    c.add("tta", "った");
    c.add("tti", "っち");
    c.add("ttu", "っつ");
    c.add("tte", "って");
    c.add("tto", "っと");
    c.add("dda", "っだ");
    c.add("ddi", "っぢ");
    c.add("ddu", "っづ");
    c.add("dde", "っで");
    c.add("ddo", "っど");
    c.add("hha", "っは");
    c.add("hhi", "っひ");
    c.add("hhu", "っふ");
    c.add("hhe", "っへ");
    c.add("hho", "っほ");
    c.add("bba", "っば");
    c.add("bbi", "っび");
    c.add("bbu", "っぶ");
    c.add("bbe", "っべ");
    c.add("bbo", "っぼ");
    c.add("ppa", "っぱ");
    c.add("ppi", "っぴ");
    c.add("ppu", "っぷ");
    c.add("ppe", "っぺ");
    c.add("ppo", "っぽ");
    c.add("mma", "っま");
    c.add("mmi", "っみ");
    c.add("mmu", "っむ");
    c.add("mme", "っめ");
    c.add("mmo", "っも");
    c.add("rra", "っら");
    c.add("rri", "っり");
    c.add("rru", "っる");
}

/// Adds part 6 of the standard table.
fn standard_part_6(c: &mut RomKanConverter)
    requires
        old(c).wf(),
    ensures
        final(c).wf(),
        final(c).table() == standard_rows_6(old(c).table()),
{
    c.add("rre", "っれ");
    c.add("rro", "っろ");
    c.add("yya", "っや");
    c.add("yyu", "っゆ");
    c.add("yyo", "っよ");
    c.add("wwa", "っわ");
    c.add("wwo", "っを");
    c.add("wwi", "っうぃ");
    c.add("wwe", "っうぇ");
    c.add("sshi", "っし");
    c.add("cchi", "っち");
    c.add("ttsu", "っつ");
    c.add("ffu", "っふ");
    c.add("jji", "っじ");
    c.add("ffa", "っふぁ");
    c.add("ffi", "っふぃ");
    c.add("ffe", "っふぇ");
    c.add("ffo", "っふぉ");
    c.add("vva", "っゔぁ");
    c.add("vvi", "っゔぃ");
    c.add("vvu", "っゔ");
    c.add("vve", "っゔぇ");
    c.add("vvo", "っゔぉ");
    c.add("kkya", "っきゃ");
    c.add("kkyu", "っきゅ");
    c.add("kkyo", "っきょ");
    c.add("ggya", "っぎゃ");
    c.add("ggyu", "っぎゅ");
    c.add("ggyo", "っぎょ");
    c.add("ssya", "っしゃ");
    c.add("ssyu", "っしゅ");
    c.add("ssyo", "っしょ");
    c.add("ssha", "っしゃ");
    c.add("sshu", "っしゅ");
    c.add("ssho", "っしょ");
    c.add("sshe", "っしぇ");
    c.add("zzya", "っじゃ");
    c.add("zzyu", "っじゅ");
    c.add("zzyo", "っじょ");
    c.add("jjya", "っじゃ");
}

/// Adds part 7 of the standard table.
fn standard_part_7(c: &mut RomKanConverter)
    requires
        old(c).wf(),
    ensures
        final(c).wf(),
        final(c).table() == standard_rows_7(old(c).table()),
{
    c.add("jjyu", "っじゅ");
    c.add("jjyo", "っじょ");
    c.add("jja", "っじゃ");
    c.add("jju", "っじゅ");
    c.add("jjo", "っじょ");
    c.add("jje", "っじぇ");
    c.add("ttya", "っちゃ");
    c.add("ttyu", "っちゅ");
    c.add("ttyo", "っちょ");
    c.add("ccha", "っちゃ");
    c.add("cchu", "っちゅ");
    c.add("ccho", "っちょ");
    c.add("cche", "っちぇ");
    c.add("ccya", "っちゃ");
    c.add("ccyu", "っちゅ");
    c.add("ccyo", "っちょ");
    c.add("ddya", "っぢゃ");
    c.add("ddyu", "っぢゅ");
    c.add("ddyo", "っぢょ");
    c.add("hhya", "っひゃ");
    c.add("hhyu", "っひゅ");
    c.add("hhyo", "っひょ");
    c.add("bbya", "っびゃ");
    c.add("bbyu", "っびゅ");
    c.add("bbyo", "っびょ");
    c.add("ppya", "っぴゃ");
    c.add("ppyu", "っぴゅ");
    c.add("ppyo", "っぴょ");
    c.add("mmya", "っみゃ");
    c.add("mmyu", "っみゅ");
    c.add("mmyo", "っみょ");
    c.add("rrya", "っりゃ");
    c.add("rryu", "っりゅ");
    c.add("rryo", "っりょ");
    c.add("tthi", "ってぃ");
    c.add("ddhi", "っでぃ");
    c.add("ddhu", "っでゅ");
    c.add("ttsa", "っつぁ");
    c.add("ttsi", "っつぃ");
    c.add("ttse", "っつぇ");
}

/// Adds part 8 of the standard table.
fn standard_part_8(c: &mut RomKanConverter)
    requires
        old(c).wf(),
    ensures
        final(c).wf(),
        final(c).table() == standard_rows_8(old(c).table()),
{
    c.add("ttso", "っつぉ");
    c.add("tchi", "っち");
    c.add("tcha", "っちゃ");
    c.add("tchu", "っちゅ");
    c.add("tcho", "っちょ");
    c.add("tche", "っちぇ");
    c.add("nka", "んか");
    c.add("nki", "んき");
    c.add("nku", "んく");
    c.add("nke", "んけ");
    c.add("nko", "んこ");
    c.add("nga", "んが");
    c.add("ngi", "んぎ");
    c.add("ngu", "んぐ");
    c.add("nge", "んげ");
    c.add("ngo", "んご");
    c.add("nsa", "んさ");
    c.add("nsi", "んし");
    c.add("nsu", "んす");
    c.add("nse", "んせ");
    c.add("nso", "んそ");
    c.add("nza", "んざ");
    c.add("nzi", "んじ");
    c.add("nzu", "んず");
    c.add("nze", "んぜ");
    c.add("nzo", "んぞ");
    c.add("nta", "んた");
    c.add("nti", "んち");
    c.add("ntu", "んつ");
    c.add("nte", "んて");
    c.add("nto", "んと");
    c.add("nda", "んだ");
    c.add("ndi", "んぢ");
    c.add("ndu", "んづ");
    c.add("nde", "んで");
    c.add("ndo", "んど");
    c.add("nha", "んは");
    c.add("nhi", "んひ");
    c.add("nhu", "んふ");
    c.add("nhe", "んへ");
}

/// Adds part 9 of the standard table.
fn standard_part_9(c: &mut RomKanConverter)
    requires
        old(c).wf(),
    ensures
        final(c).wf(),
        final(c).table() == standard_rows_9(old(c).table()),
{
    c.add("nho", "んほ");
    c.add("nba", "んば");
    c.add("nbi", "んび");
    c.add("nbu", "んぶ");
    c.add("nbe", "んべ");
    c.add("nbo", "んぼ");
    c.add("npa", "んぱ");
    c.add("npi", "んぴ");
    c.add("npu", "んぷ");
    c.add("npe", "んぺ");
    c.add("npo", "んぽ");
    c.add("nma", "んま");
    c.add("nmi", "んみ");
    c.add("nmu", "んむ");
    c.add("nme", "んめ");
    c.add("nmo", "んも");
    c.add("nra", "んら");
    c.add("nri", "んり");
    c.add("nru", "んる");
    c.add("nre", "んれ");
    c.add("nro", "んろ");
    c.add("nwa", "んわ");
    c.add("nwo", "んを");
    c.add("nwi", "んうぃ");
    c.add("nwe", "んうぇ");
    c.add("nshi", "んし");
    c.add("nchi", "んち");
    c.add("ntsu", "んつ");
    c.add("nfu", "んふ");
    c.add("nji", "んじ");
    c.add("nfa", "んふぁ");
    c.add("nfi", "んふぃ");
    c.add("nfe", "んふぇ");
    c.add("nfo", "んふぉ");
    c.add("nva", "んゔぁ");
    c.add("nvi", "んゔぃ");
    c.add("nvu", "んゔ");
    c.add("nve", "んゔぇ");
    c.add("nvo", "んゔぉ");
    c.add("nkya", "んきゃ");
}

/// Adds part 10 of the standard table.
fn standard_part_10(c: &mut RomKanConverter)
    requires
        old(c).wf(),
    ensures
        final(c).wf(),
        final(c).table() == standard_rows_10(old(c).table()),
{
    c.add("nkyu", "んきゅ");
    c.add("nkyo", "んきょ");
    c.add("ngya", "んぎゃ");
    c.add("ngyu", "んぎゅ");
    c.add("ngyo", "んぎょ");
    c.add("nsya", "んしゃ");
    c.add("nsyu", "んしゅ");
    c.add("nsyo", "んしょ");
    c.add("nsha", "んしゃ");
    c.add("nshu", "んしゅ");
    c.add("nsho", "んしょ");
    c.add("nshe", "んしぇ");
    c.add("nzya", "んじゃ");
    c.add("nzyu", "んじゅ");
    c.add("nzyo", "んじょ");
    c.add("njya", "んじゃ");
    c.add("njyu", "んじゅ");
    c.add("njyo", "んじょ");
    c.add("nja", "んじゃ");
    c.add("nju", "んじゅ");
    c.add("njo", "んじょ");
    c.add("nje", "んじぇ");
    c.add("ntya", "んちゃ");
    c.add("ntyu", "んちゅ");
    c.add("ntyo", "んちょ");
    c.add("ncha", "んちゃ");
    c.add("nchu", "んちゅ");
    c.add("ncho", "んちょ");
    c.add("nche", "んちぇ");
    c.add("ncya", "んちゃ");
    c.add("ncyu", "んちゅ");
    c.add("ncyo", "んちょ");
    c.add("ndya", "んぢゃ");
    c.add("ndyu", "んぢゅ");
    c.add("ndyo", "んぢょ");
    c.add("nhya", "んひゃ");
    c.add("nhyu", "んひゅ");
    c.add("nhyo", "んひょ");
    c.add("nbya", "んびゃ");
    c.add("nbyu", "んびゅ");
}

/// Adds part 11 of the standard table.
fn standard_part_11(c: &mut RomKanConverter)
    requires
        old(c).wf(),
    ensures
        final(c).wf(),
        final(c).table() == standard_rows_11(old(c).table()),
{
    c.add("nbyo", "んびょ");
    c.add("npya", "んぴゃ");
    c.add("npyu", "んぴゅ");
    c.add("npyo", "んぴょ");
    c.add("nmya", "んみゃ");
    c.add("nmyu", "んみゅ");
    c.add("nmyo", "んみょ");
    c.add("nrya", "んりゃ");
    c.add("nryu", "んりゅ");
    c.add("nryo", "んりょ");
    c.add("nthi", "んてぃ");
    c.add("ndhi", "んでぃ");
    c.add("ndhu", "んでゅ");
    c.add("ntsa", "んつぁ");
    c.add("ntsi", "んつぃ");
    c.add("ntse", "んつぇ");
    c.add("ntso", "んつぉ");
    c.add("nn", "ん");
    c.add("n'", "ん");
    c.add("-", "ー");
    c.add("xa", "ぁ");
    c.add("xi", "ぃ");
    c.add("xu", "ぅ");
    c.add("xe", "ぇ");
    c.add("xo", "ぉ");
    c.add("xya", "ゃ");
    c.add("xyu", "ゅ");
    c.add("xyo", "ょ");
    c.add("xtu", "っ");
    c.add("xtsu", "っ");
    c.add("la", "ぁ");
    c.add("li", "ぃ");
    c.add("lu", "ぅ");
    c.add("le", "ぇ");
    c.add("lo", "ぉ");
    c.add("lya", "ゃ");
    c.add("lyu", "ゅ");
    c.add("lyo", "ょ");
    c.add("ltu", "っ");
    c.add("ltsu", "っ");
}

/// Adds part 12 of the standard table.
fn standard_part_12(c: &mut RomKanConverter)
    requires
        old(c).wf(),
    ensures
        final(c).wf(),
        final(c).table() == standard_rows_12(old(c).table()),
{
    c.add(",", "、");
    c.add(".", "。");
    c.add("[", "「");
    c.add("]", "」");
}

impl RomKanConverter {
    /// A converter with the standard table: the Hepburn and the kunrei
    /// spellings of the syllables, a doubled consonant for the small tsu,
    /// `nn` and `n` before a consonant for the syllabic n.
    pub fn standard() -> (c: RomKanConverter)
        ensures
            c.wf(),
            c.table() == standard_table(),
    {
        let mut c = RomKanConverter::empty();
        standard_part_1(&mut c);
        standard_part_2(&mut c);
        standard_part_3(&mut c);
        standard_part_4(&mut c);
        standard_part_5(&mut c);
        standard_part_6(&mut c);
        standard_part_7(&mut c);
        standard_part_8(&mut c);
        standard_part_9(&mut c);
        standard_part_10(&mut c);
        standard_part_11(&mut c);
        standard_part_12(&mut c);
        c
    }
}

impl Default for RomKanConverter {
    fn default() -> (c: RomKanConverter)
        ensures
            c.wf(),
            c.table() == standard_table(),
    {
        RomKanConverter::standard()
    }
}

/// Whether `roman` can be a spelling of the table: it is not empty and
/// all ASCII.
pub open spec fn spelling_ok(roman: Seq<char>) -> bool {
    roman.len() > 0 && forall|j: int| 0 <= j < roman.len() ==> is_ascii_char(#[trigger] roman[j])
}

/// Whether `at` is where a spelling of `len` characters goes into the
/// table: behind the lines with a spelling at least as long that stand at
/// the head of the table.
pub open spec fn is_place(table: Seq<(Seq<char>, Seq<char>)>, len: nat, at: int) -> bool {
    &&& 0 <= at <= table.len()
    &&& forall|i: int| 0 <= i < at ==> (#[trigger] table[i]).0.len() >= len
    &&& at < table.len() ==> table[at].0.len() < len
}

/// Where a spelling of `len` characters goes into the table.
pub open spec fn place_of(table: Seq<(Seq<char>, Seq<char>)>, len: nat) -> int {
    choose|at: int| is_place(table, len, at)
}

/// There is one place for a spelling, and `place_of` is it.
pub proof fn lemma_place_of(table: Seq<(Seq<char>, Seq<char>)>, len: nat, at: int)
    requires
        is_place(table, len, at),
    ensures
        place_of(table, len) == at,
{
    let p = place_of(table, len);
    assert(is_place(table, len, p));
    if p < at {
        assert(table[p].0.len() >= len);
    } else if at < p {
        assert(table[at].0.len() >= len);
    }
}

/// The table after the spelling `roman` for `kana` was added to it: the
/// new line stands at its place, and a spelling that is empty or not ASCII
/// adds none.
pub open spec fn with_spelling(
    table: Seq<(Seq<char>, Seq<char>)>,
    roman: Seq<char>,
    kana: Seq<char>,
) -> Seq<(Seq<char>, Seq<char>)> {
    if spelling_ok(roman) {
        table.insert(place_of(table, roman.len()), (roman, kana))
    } else {
        table
    }
}

/// The table after part 1 of the standard spellings was added to it.
pub open spec fn standard_rows_1(table: Seq<(Seq<char>, Seq<char>)>) -> Seq<(Seq<char>, Seq<char>)> {
    let table = with_spelling(table, "a"@, "あ"@);
    let table = with_spelling(table, "i"@, "い"@);
    let table = with_spelling(table, "u"@, "う"@);
    let table = with_spelling(table, "e"@, "え"@);
    let table = with_spelling(table, "o"@, "お"@);
    let table = with_spelling(table, "ka"@, "か"@);
    let table = with_spelling(table, "ki"@, "き"@);
    let table = with_spelling(table, "ku"@, "く"@);
    let table = with_spelling(table, "ke"@, "け"@);
    let table = with_spelling(table, "ko"@, "こ"@);
    let table = with_spelling(table, "ga"@, "が"@);
    let table = with_spelling(table, "gi"@, "ぎ"@);
    let table = with_spelling(table, "gu"@, "ぐ"@);
    let table = with_spelling(table, "ge"@, "げ"@);
    let table = with_spelling(table, "go"@, "ご"@);
    let table = with_spelling(table, "sa"@, "さ"@);
    let table = with_spelling(table, "si"@, "し"@);
    let table = with_spelling(table, "su"@, "す"@);
    let table = with_spelling(table, "se"@, "せ"@);
    let table = with_spelling(table, "so"@, "そ"@);
    let table = with_spelling(table, "za"@, "ざ"@);
    let table = with_spelling(table, "zi"@, "じ"@);
    let table = with_spelling(table, "zu"@, "ず"@);
    let table = with_spelling(table, "ze"@, "ぜ"@);
    let table = with_spelling(table, "zo"@, "ぞ"@);
    let table = with_spelling(table, "ta"@, "た"@);
    let table = with_spelling(table, "ti"@, "ち"@);
    let table = with_spelling(table, "tu"@, "つ"@);
    let table = with_spelling(table, "te"@, "て"@);
    let table = with_spelling(table, "to"@, "と"@);
    let table = with_spelling(table, "da"@, "だ"@);
    let table = with_spelling(table, "di"@, "ぢ"@);
    let table = with_spelling(table, "du"@, "づ"@);
    let table = with_spelling(table, "de"@, "で"@);
    let table = with_spelling(table, "do"@, "ど"@);
    let table = with_spelling(table, "na"@, "な"@);
    let table = with_spelling(table, "ni"@, "に"@);
    let table = with_spelling(table, "nu"@, "ぬ"@);
    let table = with_spelling(table, "ne"@, "ね"@);
    let table = with_spelling(table, "no"@, "の"@);
    table
}

/// The table after part 2 of the standard spellings was added to it.
pub open spec fn standard_rows_2(table: Seq<(Seq<char>, Seq<char>)>) -> Seq<(Seq<char>, Seq<char>)> {
    let table = with_spelling(table, "ha"@, "は"@);
    let table = with_spelling(table, "hi"@, "ひ"@);
    let table = with_spelling(table, "hu"@, "ふ"@);
    let table = with_spelling(table, "he"@, "へ"@);
    let table = with_spelling(table, "ho"@, "ほ"@);
    let table = with_spelling(table, "ba"@, "ば"@);
    let table = with_spelling(table, "bi"@, "び"@);
    let table = with_spelling(table, "bu"@, "ぶ"@);
    let table = with_spelling(table, "be"@, "べ"@);
    let table = with_spelling(table, "bo"@, "ぼ"@);
    let table = with_spelling(table, "pa"@, "ぱ"@);
    let table = with_spelling(table, "pi"@, "ぴ"@);
    let table = with_spelling(table, "pu"@, "ぷ"@);
    let table = with_spelling(table, "pe"@, "ぺ"@);
    let table = with_spelling(table, "po"@, "ぽ"@);
    let table = with_spelling(table, "ma"@, "ま"@);
    let table = with_spelling(table, "mi"@, "み"@);
    let table = with_spelling(table, "mu"@, "む"@);
    let table = with_spelling(table, "me"@, "め"@);
    let table = with_spelling(table, "mo"@, "も"@);
    let table = with_spelling(table, "ra"@, "ら"@);
    let table = with_spelling(table, "ri"@, "り"@);
    let table = with_spelling(table, "ru"@, "る"@);
    let table = with_spelling(table, "re"@, "れ"@);
    let table = with_spelling(table, "ro"@, "ろ"@);
    let table = with_spelling(table, "ya"@, "や"@);
    let table = with_spelling(table, "yu"@, "ゆ"@);
    let table = with_spelling(table, "yo"@, "よ"@);
    let table = with_spelling(table, "wa"@, "わ"@);
    let table = with_spelling(table, "wo"@, "を"@);
    let table = with_spelling(table, "wi"@, "うぃ"@);
    let table = with_spelling(table, "we"@, "うぇ"@);
    let table = with_spelling(table, "shi"@, "し"@);
    let table = with_spelling(table, "chi"@, "ち"@);
    let table = with_spelling(table, "tsu"@, "つ"@);
    let table = with_spelling(table, "fu"@, "ふ"@);
    let table = with_spelling(table, "ji"@, "じ"@);
    let table = with_spelling(table, "fa"@, "ふぁ"@);
    let table = with_spelling(table, "fi"@, "ふぃ"@);
    let table = with_spelling(table, "fe"@, "ふぇ"@);
    table
}

/// The table after part 3 of the standard spellings was added to it.
pub open spec fn standard_rows_3(table: Seq<(Seq<char>, Seq<char>)>) -> Seq<(Seq<char>, Seq<char>)> {
    let table = with_spelling(table, "fo"@, "ふぉ"@);
    let table = with_spelling(table, "va"@, "ゔぁ"@);
    let table = with_spelling(table, "vi"@, "ゔぃ"@);
    let table = with_spelling(table, "vu"@, "ゔ"@);
    let table = with_spelling(table, "ve"@, "ゔぇ"@);
    let table = with_spelling(table, "vo"@, "ゔぉ"@);
    let table = with_spelling(table, "kya"@, "きゃ"@);
    let table = with_spelling(table, "kyu"@, "きゅ"@);
    let table = with_spelling(table, "kyo"@, "きょ"@);
    let table = with_spelling(table, "gya"@, "ぎゃ"@);
    let table = with_spelling(table, "gyu"@, "ぎゅ"@);
    let table = with_spelling(table, "gyo"@, "ぎょ"@);
    let table = with_spelling(table, "sya"@, "しゃ"@);
    let table = with_spelling(table, "syu"@, "しゅ"@);
    let table = with_spelling(table, "syo"@, "しょ"@);
    let table = with_spelling(table, "sha"@, "しゃ"@);
    let table = with_spelling(table, "shu"@, "しゅ"@);
    let table = with_spelling(table, "sho"@, "しょ"@);
    let table = with_spelling(table, "she"@, "しぇ"@);
    let table = with_spelling(table, "zya"@, "じゃ"@);
    let table = with_spelling(table, "zyu"@, "じゅ"@);
    let table = with_spelling(table, "zyo"@, "じょ"@);
    let table = with_spelling(table, "jya"@, "じゃ"@);
    let table = with_spelling(table, "jyu"@, "じゅ"@);
    let table = with_spelling(table, "jyo"@, "じょ"@);
    let table = with_spelling(table, "ja"@, "じゃ"@);
    let table = with_spelling(table, "ju"@, "じゅ"@);
    let table = with_spelling(table, "jo"@, "じょ"@);
    let table = with_spelling(table, "je"@, "じぇ"@);
    let table = with_spelling(table, "tya"@, "ちゃ"@);
    let table = with_spelling(table, "tyu"@, "ちゅ"@);
    let table = with_spelling(table, "tyo"@, "ちょ"@);
    let table = with_spelling(table, "cha"@, "ちゃ"@);
    let table = with_spelling(table, "chu"@, "ちゅ"@);
    let table = with_spelling(table, "cho"@, "ちょ"@);
    let table = with_spelling(table, "che"@, "ちぇ"@);
    let table = with_spelling(table, "cya"@, "ちゃ"@);
    let table = with_spelling(table, "cyu"@, "ちゅ"@);
    let table = with_spelling(table, "cyo"@, "ちょ"@);
    let table = with_spelling(table, "dya"@, "ぢゃ"@);
    table
}

/// The table after part 4 of the standard spellings was added to it.
pub open spec fn standard_rows_4(table: Seq<(Seq<char>, Seq<char>)>) -> Seq<(Seq<char>, Seq<char>)> {
    let table = with_spelling(table, "dyu"@, "ぢゅ"@);
    let table = with_spelling(table, "dyo"@, "ぢょ"@);
    let table = with_spelling(table, "nya"@, "にゃ"@);
    let table = with_spelling(table, "nyu"@, "にゅ"@);
    let table = with_spelling(table, "nyo"@, "にょ"@);
    let table = with_spelling(table, "hya"@, "ひゃ"@);
    let table = with_spelling(table, "hyu"@, "ひゅ"@);
    let table = with_spelling(table, "hyo"@, "ひょ"@);
    let table = with_spelling(table, "bya"@, "びゃ"@);
    let table = with_spelling(table, "byu"@, "びゅ"@);
    let table = with_spelling(table, "byo"@, "びょ"@);
    let table = with_spelling(table, "pya"@, "ぴゃ"@);
    let table = with_spelling(table, "pyu"@, "ぴゅ"@);
    let table = with_spelling(table, "pyo"@, "ぴょ"@);
    let table = with_spelling(table, "mya"@, "みゃ"@);
    let table = with_spelling(table, "myu"@, "みゅ"@);
    let table = with_spelling(table, "myo"@, "みょ"@);
    let table = with_spelling(table, "rya"@, "りゃ"@);
    let table = with_spelling(table, "ryu"@, "りゅ"@);
    let table = with_spelling(table, "ryo"@, "りょ"@);
    let table = with_spelling(table, "thi"@, "てぃ"@);
    let table = with_spelling(table, "dhi"@, "でぃ"@);
    let table = with_spelling(table, "dhu"@, "でゅ"@);
    let table = with_spelling(table, "tsa"@, "つぁ"@);
    let table = with_spelling(table, "tsi"@, "つぃ"@);
    let table = with_spelling(table, "tse"@, "つぇ"@);
    let table = with_spelling(table, "tso"@, "つぉ"@);
    let table = with_spelling(table, "kka"@, "っか"@);
    let table = with_spelling(table, "kki"@, "っき"@);
    let table = with_spelling(table, "kku"@, "っく"@);
    let table = with_spelling(table, "kke"@, "っけ"@);
    let table = with_spelling(table, "kko"@, "っこ"@);
    let table = with_spelling(table, "gga"@, "っが"@);
    let table = with_spelling(table, "ggi"@, "っぎ"@);
    let table = with_spelling(table, "ggu"@, "っぐ"@);
    let table = with_spelling(table, "gge"@, "っげ"@);
    let table = with_spelling(table, "ggo"@, "っご"@);
    let table = with_spelling(table, "ssa"@, "っさ"@);
    let table = with_spelling(table, "ssi"@, "っし"@);
    let table = with_spelling(table, "ssu"@, "っす"@);
    table
}

/// The table after part 5 of the standard spellings was added to it.
pub open spec fn standard_rows_5(table: Seq<(Seq<char>, Seq<char>)>) -> Seq<(Seq<char>, Seq<char>)> {
    let table = with_spelling(table, "sse"@, "っせ"@);
    let table = with_spelling(table, "sso"@, "っそ"@);
    let table = with_spelling(table, "zza"@, "っざ"@);
    let table = with_spelling(table, "zzi"@, "っじ"@);
    let table = with_spelling(table, "zzu"@, "っず"@);
    let table = with_spelling(table, "zze"@, "っぜ"@);
    let table = with_spelling(table, "zzo"@, "っぞ"@);
    let table = with_spelling(table, "tta"@, "った"@);
    let table = with_spelling(table, "tti"@, "っち"@);
    let table = with_spelling(table, "ttu"@, "っつ"@);
    let table = with_spelling(table, "tte"@, "って"@);
    let table = with_spelling(table, "tto"@, "っと"@);
    let table = with_spelling(table, "dda"@, "っだ"@);
    let table = with_spelling(table, "ddi"@, "っぢ"@);
    let table = with_spelling(table, "ddu"@, "っづ"@);
    let table = with_spelling(table, "dde"@, "っで"@);
    let table = with_spelling(table, "ddo"@, "っど"@);
    let table = with_spelling(table, "hha"@, "っは"@);
    let table = with_spelling(table, "hhi"@, "っひ"@);
    let table = with_spelling(table, "hhu"@, "っふ"@);
    let table = with_spelling(table, "hhe"@, "っへ"@);
    let table = with_spelling(table, "hho"@, "っほ"@);
    let table = with_spelling(table, "bba"@, "っば"@);
    let table = with_spelling(table, "bbi"@, "っび"@);
    let table = with_spelling(table, "bbu"@, "っぶ"@);
    let table = with_spelling(table, "bbe"@, "っべ"@);
    let table = with_spelling(table, "bbo"@, "っぼ"@);
    let table = with_spelling(table, "ppa"@, "っぱ"@);
    let table = with_spelling(table, "ppi"@, "っぴ"@);
    let table = with_spelling(table, "ppu"@, "っぷ"@);
    let table = with_spelling(table, "ppe"@, "っぺ"@);
    let table = with_spelling(table, "ppo"@, "っぽ"@);
    let table = with_spelling(table, "mma"@, "っま"@);
    let table = with_spelling(table, "mmi"@, "っみ"@);
    let table = with_spelling(table, "mmu"@, "っむ"@);
    let table = with_spelling(table, "mme"@, "っめ"@);
    let table = with_spelling(table, "mmo"@, "っも"@);
    let table = with_spelling(table, "rra"@, "っら"@);
    let table = with_spelling(table, "rri"@, "っり"@);
    let table = with_spelling(table, "rru"@, "っる"@);
    table
}

/// The table after part 6 of the standard spellings was added to it.
pub open spec fn standard_rows_6(table: Seq<(Seq<char>, Seq<char>)>) -> Seq<(Seq<char>, Seq<char>)> {
    let table = with_spelling(table, "rre"@, "っれ"@);
    let table = with_spelling(table, "rro"@, "っろ"@);
    let table = with_spelling(table, "yya"@, "っや"@);
    let table = with_spelling(table, "yyu"@, "っゆ"@);
    let table = with_spelling(table, "yyo"@, "っよ"@);
    let table = with_spelling(table, "wwa"@, "っわ"@);
    let table = with_spelling(table, "wwo"@, "っを"@);
    let table = with_spelling(table, "wwi"@, "っうぃ"@);
    let table = with_spelling(table, "wwe"@, "っうぇ"@);
    let table = with_spelling(table, "sshi"@, "っし"@);
    let table = with_spelling(table, "cchi"@, "っち"@);
    let table = with_spelling(table, "ttsu"@, "っつ"@);
    let table = with_spelling(table, "ffu"@, "っふ"@);
    let table = with_spelling(table, "jji"@, "っじ"@);
    let table = with_spelling(table, "ffa"@, "っふぁ"@);
    let table = with_spelling(table, "ffi"@, "っふぃ"@);
    let table = with_spelling(table, "ffe"@, "っふぇ"@);
    let table = with_spelling(table, "ffo"@, "っふぉ"@);
    let table = with_spelling(table, "vva"@, "っゔぁ"@);
    let table = with_spelling(table, "vvi"@, "っゔぃ"@);
    let table = with_spelling(table, "vvu"@, "っゔ"@);
    let table = with_spelling(table, "vve"@, "っゔぇ"@);
    let table = with_spelling(table, "vvo"@, "っゔぉ"@);
    let table = with_spelling(table, "kkya"@, "っきゃ"@);
    let table = with_spelling(table, "kkyu"@, "っきゅ"@);
    let table = with_spelling(table, "kkyo"@, "っきょ"@);
    let table = with_spelling(table, "ggya"@, "っぎゃ"@);
    let table = with_spelling(table, "ggyu"@, "っぎゅ"@);
    let table = with_spelling(table, "ggyo"@, "っぎょ"@);
    let table = with_spelling(table, "ssya"@, "っしゃ"@);
    let table = with_spelling(table, "ssyu"@, "っしゅ"@);
    let table = with_spelling(table, "ssyo"@, "っしょ"@);
    let table = with_spelling(table, "ssha"@, "っしゃ"@);
    let table = with_spelling(table, "sshu"@, "っしゅ"@);
    let table = with_spelling(table, "ssho"@, "っしょ"@);
    let table = with_spelling(table, "sshe"@, "っしぇ"@);
    let table = with_spelling(table, "zzya"@, "っじゃ"@);
    let table = with_spelling(table, "zzyu"@, "っじゅ"@);
    let table = with_spelling(table, "zzyo"@, "っじょ"@);
    let table = with_spelling(table, "jjya"@, "っじゃ"@);
    table
}

/// The table after part 7 of the standard spellings was added to it.
pub open spec fn standard_rows_7(table: Seq<(Seq<char>, Seq<char>)>) -> Seq<(Seq<char>, Seq<char>)> {
    let table = with_spelling(table, "jjyu"@, "っじゅ"@);
    let table = with_spelling(table, "jjyo"@, "っじょ"@);
    let table = with_spelling(table, "jja"@, "っじゃ"@);
    let table = with_spelling(table, "jju"@, "っじゅ"@);
    let table = with_spelling(table, "jjo"@, "っじょ"@);
    let table = with_spelling(table, "jje"@, "っじぇ"@);
    let table = with_spelling(table, "ttya"@, "っちゃ"@);
    let table = with_spelling(table, "ttyu"@, "っちゅ"@);
    let table = with_spelling(table, "ttyo"@, "っちょ"@);
    let table = with_spelling(table, "ccha"@, "っちゃ"@);
    let table = with_spelling(table, "cchu"@, "っちゅ"@);
    let table = with_spelling(table, "ccho"@, "っちょ"@);
    let table = with_spelling(table, "cche"@, "っちぇ"@);
    let table = with_spelling(table, "ccya"@, "っちゃ"@);
    let table = with_spelling(table, "ccyu"@, "っちゅ"@);
    let table = with_spelling(table, "ccyo"@, "っちょ"@);
    let table = with_spelling(table, "ddya"@, "っぢゃ"@);
    let table = with_spelling(table, "ddyu"@, "っぢゅ"@);
    let table = with_spelling(table, "ddyo"@, "っぢょ"@);
    let table = with_spelling(table, "hhya"@, "っひゃ"@);
    let table = with_spelling(table, "hhyu"@, "っひゅ"@);
    let table = with_spelling(table, "hhyo"@, "っひょ"@);
    let table = with_spelling(table, "bbya"@, "っびゃ"@);
    let table = with_spelling(table, "bbyu"@, "っびゅ"@);
    let table = with_spelling(table, "bbyo"@, "っびょ"@);
    let table = with_spelling(table, "ppya"@, "っぴゃ"@);
    let table = with_spelling(table, "ppyu"@, "っぴゅ"@);
    let table = with_spelling(table, "ppyo"@, "っぴょ"@);
    let table = with_spelling(table, "mmya"@, "っみゃ"@);
    let table = with_spelling(table, "mmyu"@, "っみゅ"@);
    let table = with_spelling(table, "mmyo"@, "っみょ"@);
    let table = with_spelling(table, "rrya"@, "っりゃ"@);
    let table = with_spelling(table, "rryu"@, "っりゅ"@);
    let table = with_spelling(table, "rryo"@, "っりょ"@);
    let table = with_spelling(table, "tthi"@, "ってぃ"@);
    let table = with_spelling(table, "ddhi"@, "っでぃ"@);
    let table = with_spelling(table, "ddhu"@, "っでゅ"@);
    let table = with_spelling(table, "ttsa"@, "っつぁ"@);
    let table = with_spelling(table, "ttsi"@, "っつぃ"@);
    let table = with_spelling(table, "ttse"@, "っつぇ"@);
    table
}

/// The table after part 8 of the standard spellings was added to it.
pub open spec fn standard_rows_8(table: Seq<(Seq<char>, Seq<char>)>) -> Seq<(Seq<char>, Seq<char>)> {
    let table = with_spelling(table, "ttso"@, "っつぉ"@);
    let table = with_spelling(table, "tchi"@, "っち"@);
    let table = with_spelling(table, "tcha"@, "っちゃ"@);
    let table = with_spelling(table, "tchu"@, "っちゅ"@);
    let table = with_spelling(table, "tcho"@, "っちょ"@);
    let table = with_spelling(table, "tche"@, "っちぇ"@);
    let table = with_spelling(table, "nka"@, "んか"@);
    let table = with_spelling(table, "nki"@, "んき"@);
    let table = with_spelling(table, "nku"@, "んく"@);
    let table = with_spelling(table, "nke"@, "んけ"@);
    let table = with_spelling(table, "nko"@, "んこ"@);
    let table = with_spelling(table, "nga"@, "んが"@);
    let table = with_spelling(table, "ngi"@, "んぎ"@);
    let table = with_spelling(table, "ngu"@, "んぐ"@);
    let table = with_spelling(table, "nge"@, "んげ"@);
    let table = with_spelling(table, "ngo"@, "んご"@);
    let table = with_spelling(table, "nsa"@, "んさ"@);
    let table = with_spelling(table, "nsi"@, "んし"@);
    let table = with_spelling(table, "nsu"@, "んす"@);
    let table = with_spelling(table, "nse"@, "んせ"@);
    let table = with_spelling(table, "nso"@, "んそ"@);
    let table = with_spelling(table, "nza"@, "んざ"@);
    let table = with_spelling(table, "nzi"@, "んじ"@);
    let table = with_spelling(table, "nzu"@, "んず"@);
    let table = with_spelling(table, "nze"@, "んぜ"@);
    let table = with_spelling(table, "nzo"@, "んぞ"@);
    let table = with_spelling(table, "nta"@, "んた"@);
    let table = with_spelling(table, "nti"@, "んち"@);
    let table = with_spelling(table, "ntu"@, "んつ"@);
    let table = with_spelling(table, "nte"@, "んて"@);
    let table = with_spelling(table, "nto"@, "んと"@);
    let table = with_spelling(table, "nda"@, "んだ"@);
    let table = with_spelling(table, "ndi"@, "んぢ"@);
    let table = with_spelling(table, "ndu"@, "んづ"@);
    let table = with_spelling(table, "nde"@, "んで"@);
    let table = with_spelling(table, "ndo"@, "んど"@);
    let table = with_spelling(table, "nha"@, "んは"@);
    let table = with_spelling(table, "nhi"@, "んひ"@);
    let table = with_spelling(table, "nhu"@, "んふ"@);
    let table = with_spelling(table, "nhe"@, "んへ"@);
    table
}

/// The table after part 9 of the standard spellings was added to it.
pub open spec fn standard_rows_9(table: Seq<(Seq<char>, Seq<char>)>) -> Seq<(Seq<char>, Seq<char>)> {
    let table = with_spelling(table, "nho"@, "んほ"@);
    let table = with_spelling(table, "nba"@, "んば"@);
    let table = with_spelling(table, "nbi"@, "んび"@);
    let table = with_spelling(table, "nbu"@, "んぶ"@);
    let table = with_spelling(table, "nbe"@, "んべ"@);
    let table = with_spelling(table, "nbo"@, "んぼ"@);
    let table = with_spelling(table, "npa"@, "んぱ"@);
    let table = with_spelling(table, "npi"@, "んぴ"@);
    let table = with_spelling(table, "npu"@, "んぷ"@);
    let table = with_spelling(table, "npe"@, "んぺ"@);
    let table = with_spelling(table, "npo"@, "んぽ"@);
    let table = with_spelling(table, "nma"@, "んま"@);
    let table = with_spelling(table, "nmi"@, "んみ"@);
    let table = with_spelling(table, "nmu"@, "んむ"@);
    let table = with_spelling(table, "nme"@, "んめ"@);
    let table = with_spelling(table, "nmo"@, "んも"@);
    let table = with_spelling(table, "nra"@, "んら"@);
    let table = with_spelling(table, "nri"@, "んり"@);
    let table = with_spelling(table, "nru"@, "んる"@);
    let table = with_spelling(table, "nre"@, "んれ"@);
    let table = with_spelling(table, "nro"@, "んろ"@);
    let table = with_spelling(table, "nwa"@, "んわ"@);
    let table = with_spelling(table, "nwo"@, "んを"@);
    let table = with_spelling(table, "nwi"@, "んうぃ"@);
    let table = with_spelling(table, "nwe"@, "んうぇ"@);
    let table = with_spelling(table, "nshi"@, "んし"@);
    let table = with_spelling(table, "nchi"@, "んち"@);
    let table = with_spelling(table, "ntsu"@, "んつ"@);
    let table = with_spelling(table, "nfu"@, "んふ"@);
    let table = with_spelling(table, "nji"@, "んじ"@);
    let table = with_spelling(table, "nfa"@, "んふぁ"@);
    let table = with_spelling(table, "nfi"@, "んふぃ"@);
    let table = with_spelling(table, "nfe"@, "んふぇ"@);
    let table = with_spelling(table, "nfo"@, "んふぉ"@);
    let table = with_spelling(table, "nva"@, "んゔぁ"@);
    let table = with_spelling(table, "nvi"@, "んゔぃ"@);
    let table = with_spelling(table, "nvu"@, "んゔ"@);
    let table = with_spelling(table, "nve"@, "んゔぇ"@);
    let table = with_spelling(table, "nvo"@, "んゔぉ"@);
    let table = with_spelling(table, "nkya"@, "んきゃ"@);
    table
}

/// The table after part 10 of the standard spellings was added to it.
pub open spec fn standard_rows_10(table: Seq<(Seq<char>, Seq<char>)>) -> Seq<(Seq<char>, Seq<char>)> {
    let table = with_spelling(table, "nkyu"@, "んきゅ"@);
    let table = with_spelling(table, "nkyo"@, "んきょ"@);
    let table = with_spelling(table, "ngya"@, "んぎゃ"@);
    let table = with_spelling(table, "ngyu"@, "んぎゅ"@);
    let table = with_spelling(table, "ngyo"@, "んぎょ"@);
    let table = with_spelling(table, "nsya"@, "んしゃ"@);
    let table = with_spelling(table, "nsyu"@, "んしゅ"@);
    let table = with_spelling(table, "nsyo"@, "んしょ"@);
    let table = with_spelling(table, "nsha"@, "んしゃ"@);
    let table = with_spelling(table, "nshu"@, "んしゅ"@);
    let table = with_spelling(table, "nsho"@, "んしょ"@);
    let table = with_spelling(table, "nshe"@, "んしぇ"@);
    let table = with_spelling(table, "nzya"@, "んじゃ"@);
    let table = with_spelling(table, "nzyu"@, "んじゅ"@);
    let table = with_spelling(table, "nzyo"@, "んじょ"@);
    let table = with_spelling(table, "njya"@, "んじゃ"@);
    let table = with_spelling(table, "njyu"@, "んじゅ"@);
    let table = with_spelling(table, "njyo"@, "んじょ"@);
    let table = with_spelling(table, "nja"@, "んじゃ"@);
    let table = with_spelling(table, "nju"@, "んじゅ"@);
    let table = with_spelling(table, "njo"@, "んじょ"@);
    let table = with_spelling(table, "nje"@, "んじぇ"@);
    let table = with_spelling(table, "ntya"@, "んちゃ"@);
    let table = with_spelling(table, "ntyu"@, "んちゅ"@);
    let table = with_spelling(table, "ntyo"@, "んちょ"@);
    let table = with_spelling(table, "ncha"@, "んちゃ"@);
    let table = with_spelling(table, "nchu"@, "んちゅ"@);
    let table = with_spelling(table, "ncho"@, "んちょ"@);
    let table = with_spelling(table, "nche"@, "んちぇ"@);
    let table = with_spelling(table, "ncya"@, "んちゃ"@);
    let table = with_spelling(table, "ncyu"@, "んちゅ"@);
    let table = with_spelling(table, "ncyo"@, "んちょ"@);
    let table = with_spelling(table, "ndya"@, "んぢゃ"@);
    let table = with_spelling(table, "ndyu"@, "んぢゅ"@);
    let table = with_spelling(table, "ndyo"@, "んぢょ"@);
    let table = with_spelling(table, "nhya"@, "んひゃ"@);
    let table = with_spelling(table, "nhyu"@, "んひゅ"@);
    let table = with_spelling(table, "nhyo"@, "んひょ"@);
    let table = with_spelling(table, "nbya"@, "んびゃ"@);
    let table = with_spelling(table, "nbyu"@, "んびゅ"@);
    table
}

/// The table after part 11 of the standard spellings was added to it.
pub open spec fn standard_rows_11(table: Seq<(Seq<char>, Seq<char>)>) -> Seq<(Seq<char>, Seq<char>)> {
    let table = with_spelling(table, "nbyo"@, "んびょ"@);
    let table = with_spelling(table, "npya"@, "んぴゃ"@);
    let table = with_spelling(table, "npyu"@, "んぴゅ"@);
    let table = with_spelling(table, "npyo"@, "んぴょ"@);
    let table = with_spelling(table, "nmya"@, "んみゃ"@);
    let table = with_spelling(table, "nmyu"@, "んみゅ"@);
    let table = with_spelling(table, "nmyo"@, "んみょ"@);
    let table = with_spelling(table, "nrya"@, "んりゃ"@);
    let table = with_spelling(table, "nryu"@, "んりゅ"@);
    let table = with_spelling(table, "nryo"@, "んりょ"@);
    let table = with_spelling(table, "nthi"@, "んてぃ"@);
    let table = with_spelling(table, "ndhi"@, "んでぃ"@);
    let table = with_spelling(table, "ndhu"@, "んでゅ"@);
    let table = with_spelling(table, "ntsa"@, "んつぁ"@);
    let table = with_spelling(table, "ntsi"@, "んつぃ"@);
    let table = with_spelling(table, "ntse"@, "んつぇ"@);
    let table = with_spelling(table, "ntso"@, "んつぉ"@);
    let table = with_spelling(table, "nn"@, "ん"@);
    let table = with_spelling(table, "n'"@, "ん"@);
    let table = with_spelling(table, "-"@, "ー"@);
    let table = with_spelling(table, "xa"@, "ぁ"@);
    let table = with_spelling(table, "xi"@, "ぃ"@);
    let table = with_spelling(table, "xu"@, "ぅ"@);
    let table = with_spelling(table, "xe"@, "ぇ"@);
    let table = with_spelling(table, "xo"@, "ぉ"@);
    let table = with_spelling(table, "xya"@, "ゃ"@);
    let table = with_spelling(table, "xyu"@, "ゅ"@);
    let table = with_spelling(table, "xyo"@, "ょ"@);
    let table = with_spelling(table, "xtu"@, "っ"@);
    let table = with_spelling(table, "xtsu"@, "っ"@);
    let table = with_spelling(table, "la"@, "ぁ"@);
    let table = with_spelling(table, "li"@, "ぃ"@);
    let table = with_spelling(table, "lu"@, "ぅ"@);
    let table = with_spelling(table, "le"@, "ぇ"@);
    let table = with_spelling(table, "lo"@, "ぉ"@);
    let table = with_spelling(table, "lya"@, "ゃ"@);
    let table = with_spelling(table, "lyu"@, "ゅ"@);
    let table = with_spelling(table, "lyo"@, "ょ"@);
    let table = with_spelling(table, "ltu"@, "っ"@);
    let table = with_spelling(table, "ltsu"@, "っ"@);
    table
}

/// The table after part 12 of the standard spellings was added to it.
pub open spec fn standard_rows_12(table: Seq<(Seq<char>, Seq<char>)>) -> Seq<(Seq<char>, Seq<char>)> {
    let table = with_spelling(table, ","@, "、"@);
    let table = with_spelling(table, "."@, "。"@);
    let table = with_spelling(table, "["@, "「"@);
    let table = with_spelling(table, "]"@, "」"@);
    table
}

/// The standard table: the standard spellings, added one after the other
/// to the empty table.
pub open spec fn standard_table() -> Seq<(Seq<char>, Seq<char>)> {
    let table = Seq::<(Seq<char>, Seq<char>)>::empty();
    let table = standard_rows_1(table);
    let table = standard_rows_2(table);
    let table = standard_rows_3(table);
    let table = standard_rows_4(table);
    let table = standard_rows_5(table);
    let table = standard_rows_6(table);
    let table = standard_rows_7(table);
    let table = standard_rows_8(table);
    let table = standard_rows_9(table);
    let table = standard_rows_10(table);
    let table = standard_rows_11(table);
    let table = standard_rows_12(table);
    table
}

} // verus!
