//! How often the user chose each word and each pair of words.
//!
//! Every choice counts once. A count fades with time: after each half-life
//! it is halved, and in between it falls linearly. The bonus that a word or
//! a pair earns is the binary logarithm of its faded count plus one, read off
//! the straight lines between the powers of two, as a cost.
use vstd::prelude::*;
use vstd::arithmetic::power2::{lemma2_to64, lemma_pow2_adds, lemma_pow2_pos, lemma_pow2_unfold, pow2};
use crate::cost::{BONUS_MAX, COST_ONE};
use crate::text::{str_eq, strings_view};

verus! {

/// The largest count that is kept; a count stays there once it is reached.
pub const COUNT_MAX: u64 = 0x7fff_ffff;

/// The half-life with which a new store starts: thirty days, in seconds.
pub const DEFAULT_HALF_LIFE: u64 = 2_592_000;

/// `count`, halved `times` times, each time rounding down.
pub open spec fn halved(count: nat, times: nat) -> nat
    decreases times,
{
    if times == 0 || count == 0 {
        count
    } else {
        halved(count / 2, (times - 1) as nat)
    }
}

/// What is left of `count` after `elapsed` seconds.
pub open spec fn decayed(count: nat, elapsed: nat, half_life: nat) -> nat
    recommends
        half_life > 0,
{
    let base = halved(count, elapsed / half_life);
    (base - (base * (elapsed % half_life)) / (2 * half_life)) as nat
}

/// The logarithm of `x` on the line from `(2^k, k)` to `(2^(k+1), k + 1)`, or
/// on a later such line if `x` lies beyond it.
pub open spec fn log_from(x: nat, k: nat) -> nat
    decreases 32 - k,
{
    if x < 2 * pow2(k) || k >= 31 {
        (k * COST_ONE + (x - pow2(k)) * pow2((32 - k) as nat)) as nat
    } else {
        log_from(x, k + 1)
    }
}

/// The bonus for a count: the logarithm of `count + 1`, as a cost.
pub open spec fn log_bonus(count: nat) -> nat {
    log_from(count + 1, 0)
}

proof fn lemma_halved_le(count: nat, times: nat)
    ensures
        halved(count, times) <= count,
    decreases times,
{
    if times != 0 && count != 0 {
        lemma_halved_le(count / 2, (times - 1) as nat);
    }
}

/// What a count loses between two half-lives is at most the count.
proof fn lemma_fade_le(base: nat, rest: nat, half_life: nat)
    requires
        rest < half_life,
    ensures
        0 <= (base * rest) / (2 * half_life) <= base,
{
    assert(base * rest <= base * (2 * half_life)) by (nonlinear_arith)
        requires
            rest < half_life,
    ;
    vstd::arithmetic::div_mod::lemma_div_is_ordered(
        (base * rest) as int,
        (base * (2 * half_life)) as int,
        (2 * half_life) as int,
    );
    vstd::arithmetic::div_mod::lemma_div_multiples_vanish(base as int, (2 * half_life) as int);
    assert(base * (2 * half_life) == (2 * half_life) * base) by (nonlinear_arith);
    vstd::arithmetic::div_mod::lemma_div_pos_is_pos((base * rest) as int, (2 * half_life) as int);
}

/// A faded count is no larger than the count.
pub proof fn lemma_decayed_le(count: nat, elapsed: nat, half_life: nat)
    requires
        half_life > 0,
    ensures
        decayed(count, elapsed, half_life) <= count,
{
    lemma_halved_le(count, elapsed / half_life);
    lemma_fade_le(halved(count, elapsed / half_life), elapsed % half_life, half_life);
}

/// The two powers of two of a line multiply to `COST_ONE`.
proof fn lemma_line(k: nat)
    requires
        k <= 32,
    ensures
        pow2(k) * pow2((32 - k) as nat) == COST_ONE,
        pow2(k) > 0,
        pow2((32 - k) as nat) > 0,
        k < 32 ==> pow2(k + 1) == 2 * pow2(k),
        k < 32 ==> pow2((32 - k) as nat) == 2 * pow2((31 - k) as nat),
        k == 31 ==> pow2(k) == 0x8000_0000,
{
    lemma2_to64();
    lemma_pow2_adds(k, (32 - k) as nat);
    lemma_pow2_pos(k);
    lemma_pow2_pos((32 - k) as nat);
    if k < 32 {
        lemma_pow2_unfold(k + 1);
        lemma_pow2_unfold((32 - k) as nat);
    }
}

/// The logarithm of a number from `2^k` on is at least `k`, and less than
/// `k + 1` for a number below `2^(k+1)`.
proof fn lemma_log_from_bounds(x: nat, k: nat)
    requires
        pow2(k) <= x <= 0x8000_0000,
        k <= 31,
    ensures
        log_from(x, k) >= k * COST_ONE,
        x < 2 * pow2(k) ==> log_from(x, k) < (k + 1) * COST_ONE,
        log_from(x, k) <= 31 * COST_ONE,
    decreases 32 - k,
{
    lemma_line(k);
    let p = pow2(k);
    let q = pow2((32 - k) as nat);
    if x < 2 * p || k >= 31 {
        assert(0 <= (x - p) * q) by (nonlinear_arith)
            requires
                x >= p,
                q > 0,
        ;
        if x < 2 * p {
            assert((x - p) * q < p * q) by (nonlinear_arith)
                requires
                    x - p < p,
                    q > 0,
            ;
        } else {
            assert(x == p);
            assert((x - p) * q == 0) by (nonlinear_arith)
                requires
                    x == p,
            ;
        }
        if k < 31 {
            assert(k * COST_ONE + COST_ONE <= 31 * COST_ONE) by (nonlinear_arith)
                requires
                    k + 1 <= 31,
            ;
        } else {
            assert(x == p);
        }
    } else {
        lemma_log_from_bounds(x, k + 1);
        assert((k + 1) * COST_ONE >= k * COST_ONE) by (nonlinear_arith);
    }
}

/// The logarithm grows strictly.
proof fn lemma_log_from_increases(x: nat, y: nat, k: nat)
    requires
        pow2(k) <= x < y <= 0x8000_0000,
        k <= 31,
    ensures
        log_from(x, k) < log_from(y, k),
    decreases 32 - k,
{
    lemma_line(k);
    let p = pow2(k);
    let q = pow2((32 - k) as nat);
    if y < 2 * p {
        assert((x - p) * q < (y - p) * q) by (nonlinear_arith)
            requires
                x < y,
                q > 0,
        ;
        assert(0 <= (x - p) * q) by (nonlinear_arith)
            requires
                x >= p,
                q > 0,
        ;
    } else if x < 2 * p {
        lemma_log_from_bounds(x, k);
        lemma_log_from_bounds(y, k + 1);
    } else {
        lemma_log_from_increases(x, y, k + 1);
    }
}

/// A larger count earns a strictly larger bonus.
pub proof fn lemma_log_bonus_grows(fewer: nat, more: nat)
    requires
        fewer < more <= COUNT_MAX,
    ensures
        log_bonus(fewer) < log_bonus(more),
{
    lemma2_to64();
    lemma_log_from_increases(fewer + 1, more + 1, 0);
}

/// No bonus exceeds `BONUS_MAX`.
pub proof fn lemma_log_bonus_max(count: nat)
    requires
        count <= COUNT_MAX,
    ensures
        log_bonus(count) <= BONUS_MAX,
{
    lemma2_to64();
    lemma_log_from_bounds(count + 1, 0);
}

/// `count` after `elapsed` seconds.
pub fn decay(count: u64, elapsed: u64, half_life: u64) -> (r: u64)
    requires
        half_life > 0,
    ensures
        r == decayed(count as nat, elapsed as nat, half_life as nat),
        r <= count,
{
    let mut base: u64 = count;
    let mut times: u64 = elapsed / half_life;
    while times > 0 && base > 0
        invariant
            halved(base as nat, times as nat) == halved(count as nat, (elapsed / half_life) as nat),
        decreases times,
    {
        base = base / 2;
        times = times - 1;
    }
    assert(halved(base as nat, times as nat) == base);
    let rest: u64 = elapsed % half_life;
    proof {
        lemma_fade_le(base as nat, rest as nat, half_life as nat);
        lemma_decayed_le(count as nat, elapsed as nat, half_life as nat);
        assert(base as nat * rest as nat <= 0xffff_ffff_ffff_ffff * 0xffff_ffff_ffff_ffff)
            by (nonlinear_arith)
            requires
                base <= 0xffff_ffff_ffff_ffff,
                rest <= 0xffff_ffff_ffff_ffff,
        ;
    }
    let cut: u128 = (base as u128 * rest as u128) / (2 * half_life as u128);
    base - cut as u64
}

/// The bonus for `count`.
pub fn bonus_of(count: u64) -> (r: i64)
    requires
        count <= COUNT_MAX,
    ensures
        r == log_bonus(count as nat),
        0 <= r <= BONUS_MAX,
{
    let x: u64 = count + 1;
    let mut k: u64 = 0;
    let mut p: u64 = 1;
    let mut q: u64 = 0x1_0000_0000;
    proof {
        lemma2_to64();
    }
    while x >= 2 * p && k < 31
        invariant
            k <= 31,
            p == pow2(k as nat),
            q == pow2((32 - k) as nat),
            p <= x <= 0x8000_0000,
            log_from(x as nat, k as nat) == log_bonus(count as nat),
        decreases 31 - k,
    {
        proof {
            lemma_line(k as nat);
        }
        k = k + 1;
        p = 2 * p;
        q = q / 2;
    }
    proof {
        lemma_line(k as nat);
        lemma_log_from_bounds(x as nat, k as nat);
        lemma_log_bonus_max(count as nat);
        assert(0 <= (x - p) * q) by (nonlinear_arith)
            requires
                x >= p,
                q > 0,
        ;
        assert(k * COST_ONE <= 31 * COST_ONE) by (nonlinear_arith)
            requires
                k <= 31,
        ;
    }
    (k * 0x1_0000_0000 + (x - p) * q) as i64
}

/// One line of the user's history: how often a word, or a pair of words, was
/// chosen, and when it was chosen last.
#[verifier::ext_equal]
pub struct Tally {
    /// The word, or the first word of the pair.
    pub first: Seq<char>,
    /// The second word of the pair; empty for a single word.
    pub second: Seq<char>,
    /// The count as it stood at `touched`.
    pub count: nat,
    /// The time of the last choice, in seconds.
    pub touched: nat,
}

/// The keys of the lines, in order.
pub open spec fn tally_keys(ts: Seq<Tally>) -> Seq<(Seq<char>, Seq<char>)> {
    Seq::new(ts.len(), |i: int| (ts[i].first, ts[i].second))
}

/// The seconds from `touched` to `now`; none if the clock was set back.
pub open spec fn elapsed(now: nat, touched: nat) -> nat {
    if now >= touched {
        (now - touched) as nat
    } else {
        0
    }
}

/// The count of the key as it stands at `now`; 0 for a key without a line.
pub open spec fn count_at(
    ts: Seq<Tally>,
    first: Seq<char>,
    second: Seq<char>,
    now: nat,
    half_life: nat,
) -> nat {
    if tally_keys(ts).contains((first, second)) {
        let t = ts[tally_keys(ts).index_of((first, second))];
        decayed(t.count, elapsed(now, t.touched), half_life)
    } else {
        0
    }
}

/// The bonus of the key at `now`.
pub open spec fn bonus_at(
    ts: Seq<Tally>,
    first: Seq<char>,
    second: Seq<char>,
    now: nat,
    half_life: nat,
) -> nat {
    log_bonus(count_at(ts, first, second, now, half_life))
}

/// The count after `delta` more choices: so many more, but no more than
/// `COUNT_MAX`.
pub open spec fn bumped(count: nat, delta: nat) -> nat {
    if count + delta < COUNT_MAX {
        count + delta
    } else {
        COUNT_MAX as nat
    }
}

/// The lines after the key was chosen `delta` times more at `now`: its line
/// holds the faded count plus `delta` and the new time; a key without a line
/// gets one at the end.
pub open spec fn chosen(
    ts: Seq<Tally>,
    first: Seq<char>,
    second: Seq<char>,
    now: nat,
    half_life: nat,
    delta: nat,
) -> Seq<Tally> {
    let line = Tally {
        first,
        second,
        count: bumped(count_at(ts, first, second, now, half_life), delta),
        touched: now,
    };
    if tally_keys(ts).contains((first, second)) {
        ts.update(tally_keys(ts).index_of((first, second)), line)
    } else {
        ts.push(line)
    }
}

/// The lines after each of the first `n` of `words` was chosen, in order.
pub open spec fn words_chosen(
    ts: Seq<Tally>,
    words: Seq<Seq<char>>,
    n: nat,
    now: nat,
    half_life: nat,
) -> Seq<Tally>
    decreases n,
{
    if n == 0 {
        ts
    } else {
        chosen(
            words_chosen(ts, words, (n - 1) as nat, now, half_life),
            words[n - 1],
            Seq::empty(),
            now,
            half_life,
            1,
        )
    }
}

/// The lines after each of the first `n` pairs of neighbours in `words` was
/// chosen, in order.
pub open spec fn pairs_chosen(
    ts: Seq<Tally>,
    words: Seq<Seq<char>>,
    n: nat,
    now: nat,
    half_life: nat,
) -> Seq<Tally>
    decreases n,
{
    if n == 0 {
        ts
    } else {
        chosen(
            pairs_chosen(ts, words, (n - 1) as nat, now, half_life),
            words[n - 1],
            words[n as int],
            now,
            half_life,
            1,
        )
    }
}

/// The number of pairs of neighbours among `n` words.
pub open spec fn pair_count(n: nat) -> nat {
    if n == 0 {
        0
    } else {
        (n - 1) as nat
    }
}

/// Whether the lines can be kept: no key twice, no count beyond `COUNT_MAX`.
pub open spec fn tallies_wf(ts: Seq<Tally>) -> bool {
    &&& tally_keys(ts).no_duplicates()
    &&& forall|i: int| 0 <= i < ts.len() ==> (#[trigger] ts[i]).count <= COUNT_MAX
}

/// Choosing a key keeps the lines well-formed, sets the key's count and
/// leaves every other key's count as it was.
pub proof fn lemma_chosen(
    ts: Seq<Tally>,
    first: Seq<char>,
    second: Seq<char>,
    now: nat,
    half_life: nat,
    delta: nat,
)
    requires
        tallies_wf(ts),
        half_life > 0,
    ensures
        tallies_wf(chosen(ts, first, second, now, half_life, delta)),
        count_at(chosen(ts, first, second, now, half_life, delta), first, second, now, half_life)
            == bumped(count_at(ts, first, second, now, half_life), delta),
        forall|a: Seq<char>, b: Seq<char>, t: nat|
            (a, b) != (first, second) ==> #[trigger] count_at(
                chosen(ts, first, second, now, half_life, delta),
                a,
                b,
                t,
                half_life,
            ) == count_at(ts, a, b, t, half_life),
{
    let key = (first, second);
    let after = chosen(ts, first, second, now, half_life, delta);
    let keys = tally_keys(ts);
    let c = bumped(count_at(ts, first, second, now, half_life), delta);
    if keys.contains(key) {
        let i = keys.index_of(key);
        assert(ts[i].count <= COUNT_MAX);
        lemma_decayed_le(ts[i].count, elapsed(now, ts[i].touched), half_life);
        assert(tally_keys(after) =~= keys);
    } else {
        assert(tally_keys(after) =~= keys.push(key));
        assert forall|i: int, j: int|
            0 <= i < j < tally_keys(after).len() implies tally_keys(after)[i] != tally_keys(
            after,
        )[j] by {
            if j == keys.len() {
                assert(keys[i] != key);
            } else {
                assert(keys[i] != keys[j]);
            }
        }
        assert(tally_keys(after)[keys.len() as int] == key);
    }
    let k = tally_keys(after).index_of(key);
    assert(tally_keys(after).contains(key));
    assert(after[k].first == first && after[k].second == second);
    assert(after[k].count == c && after[k].touched == now) by {
        if keys.contains(key) {
            assert(tally_keys(after)[keys.index_of(key)] == key);
        } else {
            assert(tally_keys(after)[keys.len() as int] == key);
        }
    }
    assert(halved(c, 0) == c);
    assert((c * 0) / (2 * half_life) == 0) by (nonlinear_arith)
        requires
            half_life > 0,
    ;
    assert(elapsed(now, now) == 0);
    assert(0nat / half_life == 0 && 0nat % half_life == 0) by (nonlinear_arith)
        requires
            half_life > 0,
    ;
    assert forall|a: Seq<char>, b: Seq<char>, t: nat| (a, b) != key implies #[trigger] count_at(
        after,
        a,
        b,
        t,
        half_life,
    ) == count_at(ts, a, b, t, half_life) by {
        let other = (a, b);
        if keys.contains(other) {
            let i = keys.index_of(other);
            assert(tally_keys(after)[i] == other);
            let j = tally_keys(after).index_of(other);
            assert(tally_keys(after)[j] == other);
            assert(i == j);
            assert(after[j] == ts[i]);
        } else if tally_keys(after).contains(other) {
            let j = tally_keys(after).index_of(other);
            assert(tally_keys(after)[j] == other);
            if j < keys.len() {
                assert(keys[j] == other);
            }
            assert(false);
        }
    }
}

/// A choice raises the bonus of what was chosen, and only a count that has
/// reached `COUNT_MAX` stays where it is.
pub proof fn lemma_choice_raises_bonus(
    ts: Seq<Tally>,
    first: Seq<char>,
    second: Seq<char>,
    now: nat,
    half_life: nat,
    delta: nat,
)
    requires
        tallies_wf(ts),
        half_life > 0,
        delta > 0,
        count_at(ts, first, second, now, half_life) < COUNT_MAX,
    ensures
        bonus_at(chosen(ts, first, second, now, half_life, delta), first, second, now, half_life)
            > bonus_at(ts, first, second, now, half_life),
{
    lemma_chosen(ts, first, second, now, half_life, delta);
    lemma_log_bonus_grows(
        count_at(ts, first, second, now, half_life),
        bumped(count_at(ts, first, second, now, half_life), delta),
    );
}

/// No bonus exceeds `BONUS_MAX`.
pub proof fn lemma_bonus_at_max(
    ts: Seq<Tally>,
    first: Seq<char>,
    second: Seq<char>,
    now: nat,
    half_life: nat,
)
    requires
        tallies_wf(ts),
        half_life > 0,
    ensures
        0 <= bonus_at(ts, first, second, now, half_life) <= BONUS_MAX,
{
    let keys = tally_keys(ts);
    if keys.contains((first, second)) {
        let t = ts[keys.index_of((first, second))];
        lemma_decayed_le(t.count, elapsed(now, t.touched), half_life);
    }
    lemma_log_bonus_max(count_at(ts, first, second, now, half_life));
}

/// One line of the history as it is kept.
pub struct HistoryEntry {
    first: String,
    second: String,
    count: u64,
    touched: u64,
}

impl HistoryEntry {
    /// The line that the entry stands for.
    pub closed spec fn tally(&self) -> Tally {
        Tally {
            first: self.first@,
            second: self.second@,
            count: self.count as nat,
            touched: self.touched as nat,
        }
    }
}

/// The lines that the entries stand for.
pub open spec fn tallies(entries: Seq<HistoryEntry>) -> Seq<Tally> {
    Seq::new(entries.len(), |i: int| entries[i].tally())
}

/// The index of the entry of the key, if there is one.
fn find_entry(entries: &Vec<HistoryEntry>, first: &str, second: &str) -> (r: Option<usize>)
    requires
        tallies_wf(tallies(entries@)),
    ensures
        r is Some <==> tally_keys(tallies(entries@)).contains((first@, second@)),
        r is Some ==> r->0 == tally_keys(tallies(entries@)).index_of((first@, second@)),
        r is Some ==> r->0 < entries.len(),
{
    let ghost keys = tally_keys(tallies(entries@));
    let mut i: usize = 0;
    while i < entries.len()
        invariant
            i <= entries.len(),
            keys == tally_keys(tallies(entries@)),
            keys.no_duplicates(),
            forall|j: int| 0 <= j < i ==> keys[j] != (first@, second@),
        decreases entries.len() - i,
    {
        if str_eq(entries[i].first.as_str(), first) && str_eq(entries[i].second.as_str(), second) {
            proof {
                assert(keys[i as int] == (first@, second@));
                let k = keys.index_of((first@, second@));
                assert(keys[k] == (first@, second@));
            }
            return Some(i);
        }
        proof {
            assert(keys[i as int] != (first@, second@));
        }
        i = i + 1;
    }
    proof {
        if keys.contains((first@, second@)) {
            let k = choose|k: int| 0 <= k < keys.len() && keys[k] == (first@, second@);
            assert(false);
        }
    }
    None
}

/// The count of the key at `now`.
fn count_of(entries: &Vec<HistoryEntry>, first: &str, second: &str, now: u64, half_life: u64) -> (r:
    u64)
    requires
        tallies_wf(tallies(entries@)),
        half_life > 0,
    ensures
        r == count_at(tallies(entries@), first@, second@, now as nat, half_life as nat),
        r <= COUNT_MAX,
{
    match find_entry(entries, first, second) {
        None => 0,
        Some(i) => {
            let e = &entries[i];
            assert(tallies(entries@)[i as int] == e.tally());
            let gone: u64 = if now >= e.touched {
                now - e.touched
            } else {
                0
            };
            decay(e.count, gone, half_life)
        },
    }
}

/// Counts `delta` more choices of the key at `now`.
fn choose_key(
    entries: &mut Vec<HistoryEntry>,
    first: &str,
    second: &str,
    now: u64,
    half_life: u64,
    delta: u64,
)
    requires
        tallies_wf(tallies(old(entries)@)),
        half_life > 0,
    ensures
        tallies_wf(tallies(final(entries)@)),
        tallies(final(entries)@) == chosen(
            tallies(old(entries)@),
            first@,
            second@,
            now as nat,
            half_life as nat,
            delta as nat,
        ),
{
    let ghost before = tallies(entries@);
    proof {
        lemma_chosen(before, first@, second@, now as nat, half_life as nat, delta as nat);
    }
    let found = find_entry(entries, first, second);
    let current = count_of(entries, first, second, now, half_life);
    let count: u64 = if delta < COUNT_MAX - current {
        current + delta
    } else {
        COUNT_MAX
    };
    let line = HistoryEntry {
        first: String::from_str(first),
        second: String::from_str(second),
        count,
        touched: now,
    };
    match found {
        Some(i) => {
            entries.set(i, line);
            assert(tallies(entries@) =~= before.update(i as int, line.tally()));
        },
        None => {
            entries.push(line);
            assert(tallies(entries@) =~= before.push(line.tally()));
        },
    }
}

/// A copy of the entries.
fn copy_entries(entries: &Vec<HistoryEntry>) -> (r: Vec<HistoryEntry>)
    ensures
        tallies(r@) == tallies(entries@),
{
    let mut r: Vec<HistoryEntry> = Vec::new();
    let mut i: usize = 0;
    while i < entries.len()
        invariant
            i <= entries.len(),
            r.len() == i,
            forall|j: int| 0 <= j < i ==> (#[trigger] r@[j]).tally() == entries@[j].tally(),
        decreases entries.len() - i,
    {
        let e = &entries[i];
        r.push(
            HistoryEntry {
                first: e.first.clone(),
                second: e.second.clone(),
                count: e.count,
                touched: e.touched,
            },
        );
        i = i + 1;
    }
    assert(tallies(r@) =~= tallies(entries@));
    r
}

/// The user's history of choices, with a clock that its owner sets.
pub struct UserData {
    unigram: Vec<HistoryEntry>,
    bigram: Vec<HistoryEntry>,
    now: u64,
    half_life: u64,
}

impl UserData {
    /// The lines of the single words.
    pub closed spec fn unigram(&self) -> Seq<Tally> {
        tallies(self.unigram@)
    }

    /// The lines of the pairs.
    pub closed spec fn bigram(&self) -> Seq<Tally> {
        tallies(self.bigram@)
    }

    /// The time that the store goes by, in seconds.
    pub closed spec fn now(&self) -> nat {
        self.now as nat
    }

    /// The time after which a count is halved, in seconds.
    pub closed spec fn half_life(&self) -> nat {
        self.half_life as nat
    }

    /// The invariant of the store.
    pub open spec fn wf(&self) -> bool {
        &&& tallies_wf(self.unigram())
        &&& tallies_wf(self.bigram())
        &&& self.half_life() > 0
    }

    /// The bonus of `word` at the store's time.
    pub open spec fn unigram_bonus(&self, word: Seq<char>) -> nat {
        bonus_at(self.unigram(), word, Seq::empty(), self.now(), self.half_life())
    }

    /// The bonus of `second` following `first` at the store's time.
    pub open spec fn bigram_bonus(&self, first: Seq<char>, second: Seq<char>) -> nat {
        bonus_at(self.bigram(), first, second, self.now(), self.half_life())
    }

    /// A store without history, at time 0, with the default half-life.
    pub fn new() -> (u: UserData)
        ensures
            u.wf(),
            u.unigram() == Seq::<Tally>::empty(),
            u.bigram() == Seq::<Tally>::empty(),
            u.now() == 0,
            u.half_life() == DEFAULT_HALF_LIFE,
    {
        let u = UserData {
            unigram: Vec::new(),
            bigram: Vec::new(),
            now: 0,
            half_life: DEFAULT_HALF_LIFE,
        };
        assert(u.unigram() =~= Seq::<Tally>::empty());
        assert(u.bigram() =~= Seq::<Tally>::empty());
        u
    }

    /// A copy of the store.
    pub fn duplicate(&self) -> (u: UserData)
        ensures
            u.unigram() == self.unigram(),
            u.bigram() == self.bigram(),
            u.now() == self.now(),
            u.half_life() == self.half_life(),
    {
        UserData {
            unigram: copy_entries(&self.unigram),
            bigram: copy_entries(&self.bigram),
            now: self.now,
            half_life: self.half_life,
        }
    }

    /// Sets the clock to `now`, in seconds.
    pub fn set_now(&mut self, now: u64)
        ensures
            final(self).now() == now,
            final(self).unigram() == old(self).unigram(),
            final(self).bigram() == old(self).bigram(),
            final(self).half_life() == old(self).half_life(),
    {
        self.now = now;
    }

    /// Sets the half-life, in seconds. A half-life of 0 is not taken: the
    /// store keeps the one it has, and `false` is returned.
    pub fn set_half_life(&mut self, half_life: u64) -> (taken: bool)
        ensures
            taken == (half_life > 0),
            final(self).half_life() == if taken {
                half_life as nat
            } else {
                old(self).half_life()
            },
            final(self).now() == old(self).now(),
            final(self).unigram() == old(self).unigram(),
            final(self).bigram() == old(self).bigram(),
    {
        if half_life > 0 {
            self.half_life = half_life;
            true
        } else {
            false
        }
    }

    /// Counts one choice of each of `clauses`, in order, and one of each pair
    /// of neighbours among them. A clause is a word, `surface/reading`.
    pub fn record_entries(&mut self, clauses: Vec<String>)
        requires
            old(self).wf(),
        ensures
            final(self).wf(),
            final(self).now() == old(self).now(),
            final(self).half_life() == old(self).half_life(),
            final(self).unigram() == words_chosen(
                old(self).unigram(),
                strings_view(clauses@),
                clauses@.len(),
                old(self).now(),
                old(self).half_life(),
            ),
            final(self).bigram() == pairs_chosen(
                old(self).bigram(),
                strings_view(clauses@),
                pair_count(clauses@.len()),
                old(self).now(),
                old(self).half_life(),
            ),
    {
        let ghost words = strings_view(clauses@);
        let now = self.now;
        let half_life = self.half_life;
        let mut i: usize = 0;
        while i < clauses.len()
            invariant
                i <= clauses.len(),
                words == strings_view(clauses@),
                self.wf(),
                self.now == now,
                self.half_life == half_life,
                self.now == old(self).now,
                self.half_life == old(self).half_life,
                self.unigram() == words_chosen(
                    old(self).unigram(),
                    words,
                    i as nat,
                    now as nat,
                    half_life as nat,
                ),
                self.bigram() == pairs_chosen(
                    old(self).bigram(),
                    words,
                    pair_count(i as nat),
                    now as nat,
                    half_life as nat,
                ),
            decreases clauses.len() - i,
        {
            assert(words[i as int] == clauses[i as int]@);
            choose_key(&mut self.unigram, clauses[i].as_str(), "", now, half_life, 1);
            proof {
                reveal_strlit("");
                assert(""@ =~= Seq::<char>::empty());
            }
            if i > 0 {
                assert(words[i - 1] == clauses[i - 1]@);
                choose_key(
                    &mut self.bigram,
                    clauses[i - 1].as_str(),
                    clauses[i].as_str(),
                    now,
                    half_life,
                    1,
                );
            }
            i = i + 1;
        }
    }

    /// Counts `delta` more choices of `word`.
    pub fn record_word(&mut self, word: &str, delta: u64)
        requires
            old(self).wf(),
        ensures
            final(self).wf(),
            final(self).now() == old(self).now(),
            final(self).half_life() == old(self).half_life(),
            final(self).bigram() == old(self).bigram(),
            final(self).unigram() == chosen(
                old(self).unigram(),
                word@,
                Seq::empty(),
                old(self).now(),
                old(self).half_life(),
                delta as nat,
            ),
    {
        proof {
            reveal_strlit("");
            assert(""@ =~= Seq::<char>::empty());
        }
        let now = self.now;
        let half_life = self.half_life;
        choose_key(&mut self.unigram, word, "", now, half_life, delta);
    }

    /// Counts `delta` more choices of `second` following `first`.
    pub fn record_pair(&mut self, first: &str, second: &str, delta: u64)
        requires
            old(self).wf(),
        ensures
            final(self).wf(),
            final(self).now() == old(self).now(),
            final(self).half_life() == old(self).half_life(),
            final(self).unigram() == old(self).unigram(),
            final(self).bigram() == chosen(
                old(self).bigram(),
                first@,
                second@,
                old(self).now(),
                old(self).half_life(),
                delta as nat,
            ),
    {
        let now = self.now;
        let half_life = self.half_life;
        choose_key(&mut self.bigram, first, second, now, half_life, delta);
    }

    /// The number of words with a line.
    pub fn unigram_len(&self) -> (n: usize)
        ensures
            n == self.unigram().len(),
    {
        self.unigram.len()
    }

    /// The number of pairs with a line.
    pub fn bigram_len(&self) -> (n: usize)
        ensures
            n == self.bigram().len(),
    {
        self.bigram.len()
    }

    /// Line `i` of the words: the word, its count, and the time of its
    /// last choice.
    pub fn unigram_at(&self, i: usize) -> (r: (&String, u64, u64))
        requires
            i < self.unigram().len(),
        ensures
            r.0@ == self.unigram()[i as int].first,
            r.1 == self.unigram()[i as int].count,
            r.2 == self.unigram()[i as int].touched,
    {
        let e = &self.unigram[i];
        assert(self.unigram()[i as int] == e.tally());
        (&e.first, e.count, e.touched)
    }

    /// Line `i` of the pairs: the two words, their count, and the time of
    /// their last choice.
    pub fn bigram_at(&self, i: usize) -> (r: (&String, &String, u64, u64))
        requires
            i < self.bigram().len(),
        ensures
            r.0@ == self.bigram()[i as int].first,
            r.1@ == self.bigram()[i as int].second,
            r.2 == self.bigram()[i as int].count,
            r.3 == self.bigram()[i as int].touched,
    {
        let e = &self.bigram[i];
        assert(self.bigram()[i as int] == e.tally());
        (&e.first, &e.second, e.count, e.touched)
    }

    /// The bonus of `word`: 0 for a word that was never chosen.
    pub fn get_unigram_cost(&self, word: &str) -> (c: i64)
        requires
            self.wf(),
        ensures
            c == self.unigram_bonus(word@),
            0 <= c <= BONUS_MAX,
    {
        proof {
            reveal_strlit("");
            assert(""@ =~= Seq::<char>::empty());
        }
        bonus_of(count_of(&self.unigram, word, "", self.now, self.half_life))
    }

    /// The bonus of `second` following `first`: 0 for a pair that was never
    /// chosen.
    pub fn get_bigram_cost(&self, first: &str, second: &str) -> (c: i64)
        requires
            self.wf(),
        ensures
            c == self.bigram_bonus(first@, second@),
            0 <= c <= BONUS_MAX,
    {
        bonus_of(count_of(&self.bigram, first, second, self.now, self.half_life))
    }
}

impl Default for UserData {
    fn default() -> (u: UserData)
        ensures
            u.wf(),
            u.unigram() == Seq::<Tally>::empty(),
            u.bigram() == Seq::<Tally>::empty(),
    {
        UserData::new()
    }
}

/// Learning one word raises that word's bonus, unless its count has reached
/// `COUNT_MAX`.
pub proof fn lemma_learning_raises_cost(before: UserData, after: UserData, word: Seq<char>)
    requires
        before.wf(),
        after.now() == before.now(),
        after.half_life() == before.half_life(),
        after.unigram() == words_chosen(
            before.unigram(),
            seq![word],
            1,
            before.now(),
            before.half_life(),
        ),
        count_at(before.unigram(), word, Seq::empty(), before.now(), before.half_life())
            < COUNT_MAX,
    ensures
        after.unigram_bonus(word) > before.unigram_bonus(word),
{
    reveal_with_fuel(words_chosen, 2);
    lemma_choice_raises_bonus(
        before.unigram(),
        word,
        Seq::empty(),
        before.now(),
        before.half_life(),
        1,
    );
}

} // verus!
