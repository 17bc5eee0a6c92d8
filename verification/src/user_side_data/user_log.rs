//! The log of what the user chose.
//!
//! Each line of the log is one event: the time in seconds, the kind of the
//! event, its key, and the number of choices, with tabs between them. The
//! kind is `u` for a word and `b` for a pair of words; the key of a pair is
//! the two words with a space between them. Replaying the events in order
//! gives the counts back.
use vstd::prelude::*;
use crate::text::{find_char, first_index, split, split_from, strings_view, substring, to_chars};
use vstd::string::StringExecFns;
use crate::user_side_data::user_data::{chosen, Tally, UserData};

verus! {

/// What an event is about.
#[derive(Clone, Copy, Debug, PartialEq, Eq, Structural)]
pub enum LogKind {
    /// A word was chosen.
    Unigram,
    /// A pair of words was chosen.
    Bigram,
}

/// One event of the log.
#[derive(Debug, PartialEq, Eq)]
pub struct LogRecord {
    /// When it happened, in seconds.
    pub timestamp: u64,
    /// What it is about.
    pub kind: LogKind,
    /// The word, or the two words with a space between them.
    pub key: String,
    /// How many choices it stands for.
    pub delta: u64,
}

/// The character of the digit `d`.
pub open spec fn digit_char(d: nat) -> char {
    if d == 0 {
        '0'
    } else if d == 1 {
        '1'
    } else if d == 2 {
        '2'
    } else if d == 3 {
        '3'
    } else if d == 4 {
        '4'
    } else if d == 5 {
        '5'
    } else if d == 6 {
        '6'
    } else if d == 7 {
        '7'
    } else if d == 8 {
        '8'
    } else {
        '9'
    }
}

/// The digit that `c` is, or 10 if it is none.
pub open spec fn digit_value(c: char) -> nat {
    if c == '0' {
        0
    } else if c == '1' {
        1
    } else if c == '2' {
        2
    } else if c == '3' {
        3
    } else if c == '4' {
        4
    } else if c == '5' {
        5
    } else if c == '6' {
        6
    } else if c == '7' {
        7
    } else if c == '8' {
        8
    } else if c == '9' {
        9
    } else {
        10
    }
}

/// `n` in decimal digits, without zeros before it.
pub open spec fn decimal(n: nat) -> Seq<char>
    decreases n,
{
    if n < 10 {
        seq![digit_char(n)]
    } else {
        decimal(n / 10).push(digit_char(n % 10))
    }
}

/// The number that the decimal digits `s` spell, or `None` if `s` is empty
/// or holds anything but digits.
pub open spec fn decimal_value(s: Seq<char>) -> Option<nat>
    decreases s.len(),
{
    if s.len() == 0 || digit_value(s.last()) >= 10 {
        None
    } else if s.len() == 1 {
        Some(digit_value(s.last()))
    } else {
        match decimal_value(s.drop_last()) {
            Some(v) => Some(v * 10 + digit_value(s.last())),
            None => None,
        }
    }
}

/// The digits of a number spell the number.
pub proof fn lemma_decimal_round_trip(n: nat)
    ensures
        decimal_value(decimal(n)) == Some(n),
        decimal(n).len() >= 1,
    decreases n,
{
    if n >= 10 {
        lemma_decimal_round_trip(n / 10);
        assert(decimal(n).drop_last() =~= decimal(n / 10));
    }
}

/// An event as a line of the log.
pub open spec fn record_line(timestamp: nat, kind: LogKind, key: Seq<char>, delta: nat) -> Seq<char> {
    decimal(timestamp).push('\t').push(
        match kind {
            LogKind::Unigram => 'u',
            LogKind::Bigram => 'b',
        },
    ).push('\t') + key.push('\t') + decimal(delta)
}

/// `n` in decimal digits.
pub fn format_u64(n: u64) -> (r: Vec<char>)
    ensures
        r@ == decimal(n as nat),
{
    let mut low: Vec<char> = Vec::new();
    let mut m: u64 = n;
    while m >= 10
        invariant
            decimal(n as nat) == decimal(m as nat) + low@.reverse(),
        decreases m,
    {
        let ghost before = low@;
        low.push(digit((m % 10) as u8));
        proof {
            assert(low@.reverse() =~= seq![digit_char((m % 10) as nat)] + before.reverse());
            assert(decimal(m as nat) + before.reverse() =~= decimal((m / 10) as nat)
                + low@.reverse());
        }
        m = m / 10;
    }
    let mut r: Vec<char> = Vec::new();
    r.push(digit(m as u8));
    let mut i: usize = low.len();
    while i > 0
        invariant
            i <= low.len(),
            r@ == decimal(m as nat) + low@.reverse().take(low.len() - i),
        decreases i,
    {
        i = i - 1;
        r.push(low[i]);
        proof {
            let rev = low@.reverse();
            assert(rev[low.len() - i - 1] == low@[i as int]);
            assert(rev.take(low.len() - i) =~= rev.take(low.len() - i - 1).push(low@[i as int]));
        }
    }
    assert(low@.reverse().take(low.len() as int) =~= low@.reverse());
    r
}

/// The character of the digit `d`.
fn digit(d: u8) -> (c: char)
    requires
        d < 10,
    ensures
        c == digit_char(d as nat),
{
    if d == 0 {
        '0'
    } else if d == 1 {
        '1'
    } else if d == 2 {
        '2'
    } else if d == 3 {
        '3'
    } else if d == 4 {
        '4'
    } else if d == 5 {
        '5'
    } else if d == 6 {
        '6'
    } else if d == 7 {
        '7'
    } else if d == 8 {
        '8'
    } else {
        '9'
    }
}

/// The digit that `c` is, or 10 if it is none.
fn value_of(c: char) -> (d: u64)
    ensures
        d == digit_value(c),
        d <= 10,
{
    if c == '0' {
        0
    } else if c == '1' {
        1
    } else if c == '2' {
        2
    } else if c == '3' {
        3
    } else if c == '4' {
        4
    } else if c == '5' {
        5
    } else if c == '6' {
        6
    } else if c == '7' {
        7
    } else if c == '8' {
        8
    } else if c == '9' {
        9
    } else {
        10
    }
}

/// Digits spell a number only if every part that they start with does, and
/// that number is no larger.
pub proof fn lemma_decimal_prefix(s: Seq<char>, i: int)
    requires
        1 <= i <= s.len(),
        decimal_value(s) is Some,
    ensures
        decimal_value(s.take(i)) is Some,
        decimal_value(s.take(i))->0 <= decimal_value(s)->0,
    decreases s.len(),
{
    if i == s.len() {
        assert(s.take(i) =~= s);
    } else {
        lemma_decimal_prefix(s.drop_last(), i);
        assert(s.drop_last().take(i) =~= s.take(i));
    }
}

/// The number that `text` spells in decimal digits, or `None` if it spells
/// none or one that does not fit in 64 bits.
pub fn parse_u64(text: &str) -> (r: Option<u64>)
    ensures
        r is Some <==> decimal_value(text@) is Some && decimal_value(text@)->0 <= u64::MAX,
        r is Some ==> r->0 == decimal_value(text@)->0,
{
    let chars = to_chars(text);
    if chars.len() == 0 {
        return None;
    }
    let mut v: u64 = 0;
    let mut i: usize = 0;
    while i < chars.len()
        invariant
            chars@ == text@,
            i <= chars.len(),
            i == 0 ==> v == 0,
            i > 0 ==> decimal_value(chars@.take(i as int)) == Some(v as nat),
        decreases chars.len() - i,
    {
        let d = value_of(chars[i]);
        proof {
            let upto = chars@.take(i + 1);
            assert(upto.drop_last() =~= chars@.take(i as int));
            assert(upto.last() == chars@[i as int]);
            if decimal_value(chars@) is Some {
                lemma_decimal_prefix(chars@, i + 1);
            }
        }
        if d >= 10 {
            return None;
        }
        if v > (u64::MAX - d) / 10 {
            proof {
                assert(v * 10 + d > u64::MAX);
            }
            return None;
        }
        v = v * 10 + d;
        i = i + 1;
    }
    assert(chars@.take(chars.len() as int) =~= chars@);
    Some(v)
}

/// The event that the fields of a line spell, if they spell one: four
/// fields, of which the first and the last are numbers and the second is
/// `u` or `b`.
pub open spec fn record_of(fields: Seq<Seq<char>>) -> Option<(nat, LogKind, Seq<char>, nat)> {
    if fields.len() != 4 || decimal_value(fields[0]) is None || decimal_value(fields[3]) is None
        || decimal_value(fields[0])->0 > u64::MAX || decimal_value(fields[3])->0 > u64::MAX {
        None
    } else if fields[1] == seq!['u'] {
        Some((decimal_value(fields[0])->0, LogKind::Unigram, fields[2], decimal_value(fields[3])->0))
    } else if fields[1] == seq!['b'] {
        Some((decimal_value(fields[0])->0, LogKind::Bigram, fields[2], decimal_value(fields[3])->0))
    } else {
        None
    }
}

/// The line of the log for `record`.
pub fn format_record(record: &LogRecord) -> (line: String)
    ensures
        line@ == record_line(
            record.timestamp as nat,
            record.kind,
            record.key@,
            record.delta as nat,
        ),
{
    let mut chars = format_u64(record.timestamp);
    chars.push('\t');
    chars.push(
        match record.kind {
            LogKind::Unigram => 'u',
            LogKind::Bigram => 'b',
        },
    );
    chars.push('\t');
    let mut key = to_chars(record.key.as_str());
    chars.append(&mut key);
    chars.push('\t');
    let mut delta = format_u64(record.delta);
    chars.append(&mut delta);
    let line = substring(&chars, 0, chars.len());
    proof {
        assert(chars@.subrange(0, chars@.len() as int) =~= chars@);
        assert(chars@ =~= record_line(
            record.timestamp as nat,
            record.kind,
            record.key@,
            record.delta as nat,
        ));
    }
    line
}

/// The event that `line` spells, with the fields that the tabs of the line
/// part; or `None` if it spells none.
pub fn parse_record(line: &str) -> (r: Option<LogRecord>)
    ensures
        match record_of(split(line@, '\t')) {
            Some(event) => r matches Some(record) && record.timestamp == event.0 && record.kind
                == event.1 && record.key@ == event.2 && record.delta == event.3,
            None => r is None,
        },
{
    let chars = to_chars(line);
    assert(chars@.skip(0) =~= chars@);
    let mut fields = split_from(&chars, 0, '\t');
    if fields.len() != 4 {
        return None;
    }
    let ghost all = strings_view(fields@);
    assert(all[0] == fields@[0]@ && all[1] == fields@[1]@ && all[2] == fields@[2]@ && all[3]
        == fields@[3]@);
    let timestamp = match parse_u64(fields[0].as_str()) {
        Some(t) => t,
        None => {
            return None;
        },
    };
    let delta = match parse_u64(fields[3].as_str()) {
        Some(d) => d,
        None => {
            return None;
        },
    };
    let kind_chars = to_chars(fields[1].as_str());
    let kind = if kind_chars.len() == 1 && kind_chars[0] == 'u' {
        assert(kind_chars@ =~= seq!['u']);
        LogKind::Unigram
    } else if kind_chars.len() == 1 && kind_chars[0] == 'b' {
        assert(kind_chars@ =~= seq!['b']);
        LogKind::Bigram
    } else {
        proof {
            if all[1] == seq!['u'] {
                assert(kind_chars@[0] == 'u');
            }
            if all[1] == seq!['b'] {
                assert(kind_chars@[0] == 'b');
            }
        }
        return None;
    };
    proof {
        assert(seq!['u'] != seq!['b']) by {
            assert(seq!['u'][0] != seq!['b'][0]);
        }
    }
    fields.pop();
    let key = fields.pop().unwrap();
    Some(LogRecord { timestamp, kind, key, delta })
}

/// The history after the event `record`: the clock stands at the time of
/// the event, and the word or the pair of the event has so many choices
/// more. The key of a pair is parted at its first space; an event of a
/// pair without a space in its key changes nothing and gives `false`.
pub fn replay(user_data: &mut UserData, record: &LogRecord) -> (done: bool)
    requires
        old(user_data).wf(),
    ensures
        final(user_data).wf(),
        final(user_data).half_life() == old(user_data).half_life(),
        done <==> record.kind == LogKind::Unigram || first_index(record.key@, ' ') < record.key@.len(),
        !done ==> final(user_data).now() == old(user_data).now() && final(user_data).unigram()
            == old(user_data).unigram() && final(user_data).bigram() == old(user_data).bigram(),
        done ==> final(user_data).now() == record.timestamp,
        done && record.kind == LogKind::Unigram ==> final(user_data).bigram() == old(
            user_data,
        ).bigram() && final(user_data).unigram() == chosen(
            old(user_data).unigram(),
            record.key@,
            Seq::empty(),
            record.timestamp as nat,
            old(user_data).half_life(),
            record.delta as nat,
        ),
        done && record.kind == LogKind::Bigram ==> final(user_data).unigram() == old(
            user_data,
        ).unigram() && final(user_data).bigram() == chosen(
            old(user_data).bigram(),
            record.key@.take(first_index(record.key@, ' ')),
            record.key@.skip(first_index(record.key@, ' ') + 1),
            record.timestamp as nat,
            old(user_data).half_life(),
            record.delta as nat,
        ),
{
    match record.kind {
        LogKind::Unigram => {
            user_data.set_now(record.timestamp);
            user_data.record_word(record.key.as_str(), record.delta);
            true
        },
        LogKind::Bigram => {
            let chars = to_chars(record.key.as_str());
            assert(chars@.skip(0) =~= chars@);
            let at = find_char(&chars, 0, ' ');
            if at >= chars.len() {
                return false;
            }
            let first = substring(&chars, 0, at);
            let second = substring(&chars, at + 1, chars.len());
            proof {
                assert(first@ =~= record.key@.take(at as int));
                assert(second@ =~= record.key@.skip(at + 1));
            }
            user_data.set_now(record.timestamp);
            user_data.record_pair(first.as_str(), second.as_str(), record.delta);
            true
        },
    }
}

/// The digits of a number are digits.
pub proof fn lemma_decimal_digits(n: nat)
    ensures
        forall|i: int| 0 <= i < decimal(n).len() ==> digit_value(#[trigger] decimal(n)[i]) < 10,
        !decimal(n).contains('\t'),
    decreases n,
{
    if n >= 10 {
        lemma_decimal_digits(n / 10);
        assert forall|i: int| 0 <= i < decimal(n).len() implies digit_value(
            #[trigger] decimal(n)[i],
        ) < 10 by {
            if i < decimal(n / 10).len() {
                assert(decimal(n)[i] == decimal(n / 10)[i]);
            }
        }
    }
    if decimal(n).contains('\t') {
        let i = choose|i: int| 0 <= i < decimal(n).len() && decimal(n)[i] == '\t';
        assert(digit_value(decimal(n)[i]) < 10);
    }
}

/// The line of an event spells the event, where the key of the event holds
/// no tab.
pub proof fn lemma_record_round_trip(timestamp: nat, kind: LogKind, key: Seq<char>, delta: nat)
    requires
        timestamp <= u64::MAX,
        delta <= u64::MAX,
        !key.contains('\t'),
    ensures
        record_of(split(record_line(timestamp, kind, key, delta), '\t')) == Some(
            (timestamp, kind, key, delta),
        ),
{
    let letter = match kind {
        LogKind::Unigram => 'u',
        LogKind::Bigram => 'b',
    };
    let tail3 = decimal(delta);
    let tail2 = key.push('\t') + tail3;
    let tail1 = seq![letter].push('\t') + tail2;
    let line = record_line(timestamp, kind, key, delta);
    assert(line =~= decimal(timestamp).push('\t') + tail1);
    lemma_decimal_digits(timestamp);
    lemma_decimal_digits(delta);
    lemma_decimal_round_trip(timestamp);
    lemma_decimal_round_trip(delta);
    assert(!seq![letter].contains('\t')) by {
        if seq![letter].contains('\t') {
            let i = choose|i: int| 0 <= i < seq![letter].len() && seq![letter][i] == '\t';
            assert(seq![letter][i] == letter);
        }
    }
    crate::text::lemma_split_first(decimal(timestamp), tail1, '\t');
    crate::text::lemma_split_first(seq![letter], tail2, '\t');
    crate::text::lemma_split_first(key, tail3, '\t');
    crate::text::lemma_split_none(tail3, '\t');
    let fields = split(line, '\t');
    assert(fields =~= seq![decimal(timestamp), seq![letter], key, tail3]);
    assert(seq!['u'] != seq!['b']) by {
        assert(seq!['u'][0] != seq!['b'][0]);
    }
}

/// The event that stands for a line of the history: at the time of its
/// last choice, the key of the line was chosen as often as its count says.
pub open spec fn event_of(kind: LogKind, line: Tally) -> (nat, LogKind, Seq<char>, nat) {
    (
        line.touched,
        kind,
        match kind {
            LogKind::Unigram => line.first,
            LogKind::Bigram => line.first.push(' ') + line.second,
        },
        line.count,
    )
}

/// What `record` holds.
pub open spec fn record_view(record: LogRecord) -> (nat, LogKind, Seq<char>, nat) {
    (record.timestamp as nat, record.kind, record.key@, record.delta as nat)
}

/// The log that says in as few events as can be what the history holds:
/// one event for each word, then one for each pair.
pub fn compacted(user_data: &UserData) -> (log: Vec<LogRecord>)
    ensures
        log.len() == user_data.unigram().len() + user_data.bigram().len(),
        forall|i: int|
            0 <= i < user_data.unigram().len() ==> record_view(#[trigger] log[i]) == event_of(
                LogKind::Unigram,
                user_data.unigram()[i],
            ),
        forall|i: int|
            0 <= i < user_data.bigram().len() ==> record_view(
                #[trigger] log[user_data.unigram().len() + i],
            ) == event_of(LogKind::Bigram, user_data.bigram()[i]),
{
    let mut log: Vec<LogRecord> = Vec::new();
    let words = user_data.unigram_len();
    let pairs = user_data.bigram_len();
    let mut i: usize = 0;
    while i < words
        invariant
            i <= words,
            words == user_data.unigram().len(),
            log.len() == i,
            forall|k: int|
                0 <= k < i ==> record_view(#[trigger] log[k]) == event_of(
                    LogKind::Unigram,
                    user_data.unigram()[k],
                ),
        decreases words - i,
    {
        let (word, count, touched) = user_data.unigram_at(i);
        log.push(
            LogRecord { timestamp: touched, kind: LogKind::Unigram, key: word.clone(), delta: count },
        );
        i = i + 1;
    }
    let mut j: usize = 0;
    while j < pairs
        invariant
            j <= pairs,
            words == user_data.unigram().len(),
            pairs == user_data.bigram().len(),
            log.len() == words + j,
            forall|k: int|
                0 <= k < words ==> record_view(#[trigger] log[k]) == event_of(
                    LogKind::Unigram,
                    user_data.unigram()[k],
                ),
            forall|k: int|
                0 <= k < j ==> record_view(#[trigger] log[words + k]) == event_of(
                    LogKind::Bigram,
                    user_data.bigram()[k],
                ),
        decreases pairs - j,
    {
        let (first, second, count, touched) = user_data.bigram_at(j);
        let mut key = first.clone();
        key.append(" ");
        key.append(second.as_str());
        proof {
            reveal_strlit(" ");
            assert(" "@ =~= seq![' ']);
            assert(key@ =~= first@.push(' ') + second@);
        }
        let ghost before = log@;
        log.push(LogRecord { timestamp: touched, kind: LogKind::Bigram, key, delta: count });
        proof {
            assert forall|k: int| 0 <= k < words implies record_view(#[trigger] log[k]) == event_of(
                LogKind::Unigram,
                user_data.unigram()[k],
            ) by {
                assert(log[k] == before[k]);
            }
            assert forall|k: int| 0 <= k < j + 1 implies record_view(#[trigger] log[words + k])
                == event_of(LogKind::Bigram, user_data.bigram()[k]) by {
                if k < j {
                    assert(log[words + k] == before[words + k]);
                }
            }
        }
        j = j + 1;
    }
    log
}

/// What each of `log` holds.
pub open spec fn records_view(log: Seq<LogRecord>) -> Seq<(nat, LogKind, Seq<char>, nat)> {
    Seq::new(log.len(), |i: int| record_view(log[i]))
}

/// The events of the user choosing the first `n` of `words` at the time
/// `timestamp`: for each word one event of the word, and after it, for
/// each word but the first, one event of the pair that it makes with the
/// word before it.
pub open spec fn choice_events(words: Seq<Seq<char>>, n: nat, timestamp: nat) -> Seq<
    (nat, LogKind, Seq<char>, nat),
>
    decreases n,
{
    if n == 0 {
        Seq::empty()
    } else {
        let before = choice_events(words, (n - 1) as nat, timestamp);
        let with_word = before.push((timestamp, LogKind::Unigram, words[n - 1], 1nat));
        if n >= 2 {
            with_word.push(
                (timestamp, LogKind::Bigram, words[n - 2].push(' ') + words[n - 1], 1nat),
            )
        } else {
            with_word
        }
    }
}

/// The events of the user choosing `clauses` at the time `timestamp`.
pub fn events_of(clauses: &Vec<String>, timestamp: u64) -> (log: Vec<LogRecord>)
    ensures
        records_view(log@) == choice_events(
            crate::text::strings_view(clauses@),
            clauses@.len(),
            timestamp as nat,
        ),
{
    let ghost words = crate::text::strings_view(clauses@);
    let mut log: Vec<LogRecord> = Vec::new();
    let mut i: usize = 0;
    assert(records_view(log@) =~= choice_events(words, 0, timestamp as nat));
    while i < clauses.len()
        invariant
            i <= clauses.len(),
            words == crate::text::strings_view(clauses@),
            records_view(log@) == choice_events(words, i as nat, timestamp as nat),
        decreases clauses.len() - i,
    {
        let ghost before = records_view(log@);
        assert(words[i as int] == clauses[i as int]@);
        log.push(
            LogRecord {
                timestamp,
                kind: LogKind::Unigram,
                key: clauses[i].clone(),
                delta: 1,
            },
        );
        let ghost with_word = records_view(log@);
        assert(with_word =~= before.push((timestamp as nat, LogKind::Unigram, words[i as int], 1nat)));
        if i > 0 {
            assert(words[i - 1] == clauses[i - 1]@);
            let mut key = clauses[i - 1].clone();
            key.append(" ");
            key.append(clauses[i].as_str());
            proof {
                reveal_strlit(" ");
                assert(" "@ =~= seq![' ']);
                assert(key@ =~= words[i - 1].push(' ') + words[i as int]);
            }
            log.push(LogRecord { timestamp, kind: LogKind::Bigram, key, delta: 1 });
            assert(records_view(log@) =~= with_word.push(
                (timestamp as nat, LogKind::Bigram, words[i - 1].push(' ') + words[i as int], 1nat),
            ));
        }
        i = i + 1;
    }
    log
}

} // verus!
