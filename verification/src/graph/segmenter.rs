//! Cuts a reading into the substrings that the kana tries know.
//!
//! Positions in the reading are reached breadth first: position 0 is given,
//! and each position that is reached hands on the ends of the segments that
//! start there. Where the tries know no segment, a segment of one character
//! stands in, so that the end of the reading is always reached.
use vstd::prelude::*;
use crate::kana_trie::crawdad_kana_trie::{
    lemma_lengths_upto_bounds,
    lemma_lengths_upto_contains,
    lengths_upto,
    match_lengths,
    CrawdadKanaTrie,
};
use crate::text::{
    byte_len,
    byte_offset,
    char_width,
    lemma_byte_len_bounds,
    lemma_byte_offset_monotone,
    lemma_byte_offset_step,
    str_byte_len,
    strings_view,
    substring,
    to_chars,
};

verus! {

/// The keys of all of `tries` together.
pub open spec fn union_keys(tries: Seq<CrawdadKanaTrie>) -> Set<Seq<char>> {
    Set::new(|k: Seq<char>| exists|i: int| 0 <= i < tries.len() && (#[trigger] tries[i]).keys().contains(k))
}

/// The lengths, in characters, of the segments that start at character `s`:
/// those of the keys that the rest of the reading starts with, shortest
/// first, or 1 where there is no such key and the reading has not ended.
pub open spec fn segment_lengths(keys: Set<Seq<char>>, yomi: Seq<char>, s: int) -> Seq<int> {
    let found = match_lengths(keys, yomi.skip(s));
    if found.len() == 0 && s < yomi.len() {
        seq![1int]
    } else {
        found
    }
}

/// The queue after the ends of the segments of lengths `lens` that start at
/// `s` have been added to it, each unless it was there already.
pub open spec fn enqueue_all(queue: Seq<int>, s: int, lens: Seq<int>) -> Seq<int>
    decreases lens.len(),
{
    if lens.len() == 0 {
        queue
    } else {
        let before = enqueue_all(queue, s, lens.drop_last());
        if before.contains(s + lens.last()) {
            before
        } else {
            before.push(s + lens.last())
        }
    }
}

/// The queue of positions, in characters, after the first `steps` of its
/// entries have been visited. It starts as `[0]`; a visit adds the ends of
/// the segments that start at the position visited.
pub open spec fn visit_queue(keys: Set<Seq<char>>, yomi: Seq<char>, steps: nat) -> Seq<int>
    decreases steps,
{
    if steps == 0 {
        seq![0int]
    } else {
        let queue = visit_queue(keys, yomi, (steps - 1) as nat);
        if steps - 1 < queue.len() {
            enqueue_all(queue, queue[steps - 1], segment_lengths(keys, yomi, queue[steps - 1]))
        } else {
            queue
        }
    }
}

/// The segments that end at character `e`, found in the first `steps`
/// visits, in the order in which they were found.
pub open spec fn words_ending_at(keys: Set<Seq<char>>, yomi: Seq<char>, steps: nat, e: int) -> Seq<
    Seq<char>,
>
    decreases steps,
{
    if steps == 0 {
        Seq::empty()
    } else {
        let before = words_ending_at(keys, yomi, (steps - 1) as nat, e);
        let queue = visit_queue(keys, yomi, (steps - 1) as nat);
        if steps - 1 < queue.len() && segment_lengths(keys, yomi, queue[steps - 1]).contains(
            e - queue[steps - 1],
        ) {
            before.push(yomi.subrange(queue[steps - 1], e))
        } else {
            before
        }
    }
}

/// All segments that end at character `e`.
pub open spec fn segments_ending_at(keys: Set<Seq<char>>, yomi: Seq<char>, e: int) -> Seq<Seq<char>> {
    words_ending_at(keys, yomi, yomi.len() + 1, e)
}

/// The segmentation of the first `m` characters: for each position up to
/// `m` at which a segment ends, in ascending order, its byte offset and the
/// segments that end there.
pub open spec fn segmentation_upto(keys: Set<Seq<char>>, yomi: Seq<char>, m: nat) -> Seq<
    (nat, Seq<Seq<char>>),
>
    decreases m,
{
    if m == 0 {
        Seq::empty()
    } else {
        let before = segmentation_upto(keys, yomi, (m - 1) as nat);
        let words = segments_ending_at(keys, yomi, m as int);
        if words.len() > 0 {
            before.push((byte_offset(yomi, m as int), words))
        } else {
            before
        }
    }
}

/// The segmentation of a reading.
pub open spec fn segmentation(keys: Set<Seq<char>>, yomi: Seq<char>) -> Seq<(nat, Seq<Seq<char>>)> {
    segmentation_upto(keys, yomi, yomi.len())
}

/// Whether every entry of `queue` is a position of a reading of `n`
/// characters, and none occurs twice.
pub open spec fn positions_ok(queue: Seq<int>, n: int) -> bool {
    &&& forall|i: int| 0 <= i < queue.len() ==> 0 <= #[trigger] queue[i] <= n
    &&& queue.no_duplicates()
}

/// A segment that starts within the reading ends within it, and the lengths
/// ascend strictly.
pub proof fn lemma_segment_lengths(keys: Set<Seq<char>>, yomi: Seq<char>, s: int)
    requires
        0 <= s <= yomi.len(),
    ensures
        forall|i: int|
            0 <= i < segment_lengths(keys, yomi, s).len() ==> 1 <= #[trigger] segment_lengths(
                keys,
                yomi,
                s,
            )[i] <= yomi.len() - s,
        forall|i: int, j: int|
            0 <= i < j < segment_lengths(keys, yomi, s).len() ==> segment_lengths(keys, yomi, s)[i]
                < segment_lengths(keys, yomi, s)[j],
        s < yomi.len() ==> segment_lengths(keys, yomi, s).len() > 0,
{
    lemma_lengths_upto_bounds(keys, yomi.skip(s), yomi.skip(s).len());
}

/// Adding ends to a queue keeps what was in it, in place, and keeps it a
/// queue of distinct positions.
pub proof fn lemma_enqueue_all(queue: Seq<int>, s: int, lens: Seq<int>, n: int)
    requires
        positions_ok(queue, n),
        0 <= s <= n,
        forall|i: int| 0 <= i < lens.len() ==> 1 <= #[trigger] lens[i] <= n - s,
    ensures
        positions_ok(enqueue_all(queue, s, lens), n),
        queue.len() <= enqueue_all(queue, s, lens).len(),
        forall|i: int| 0 <= i < queue.len() ==> enqueue_all(queue, s, lens)[i] == queue[i],
        forall|i: int| 0 <= i < lens.len() ==> enqueue_all(queue, s, lens).contains(s + lens[i]),
    decreases lens.len(),
{
    if lens.len() > 0 {
        let before = enqueue_all(queue, s, lens.drop_last());
        lemma_enqueue_all(queue, s, lens.drop_last(), n);
        let after = enqueue_all(queue, s, lens);
        let e = s + lens.last();
        assert forall|i: int| 0 <= i < lens.len() implies after.contains(s + lens[i]) by {
            if i < lens.len() - 1 {
                assert(lens.drop_last()[i] == lens[i]);
                let k = choose|k: int| 0 <= k < before.len() && before[k] == s + lens[i];
                assert(after[k] == s + lens[i]);
            } else if before.contains(e) {
            } else {
                assert(after[before.len() as int] == e);
            }
        }
    }
}

/// The queue holds distinct positions of the reading, starts with 0, and
/// only grows at its end.
pub proof fn lemma_visit_queue(keys: Set<Seq<char>>, yomi: Seq<char>, steps: nat)
    ensures
        positions_ok(visit_queue(keys, yomi, steps), yomi.len() as int),
        visit_queue(keys, yomi, steps).len() >= 1,
        visit_queue(keys, yomi, steps)[0] == 0,
        visit_queue(keys, yomi, steps).len() <= yomi.len() + 1,
        steps > 0 ==> visit_queue(keys, yomi, (steps - 1) as nat).len() <= visit_queue(
            keys,
            yomi,
            steps,
        ).len(),
        steps > 0 ==> forall|i: int|
            0 <= i < visit_queue(keys, yomi, (steps - 1) as nat).len() ==> visit_queue(
                keys,
                yomi,
                steps,
            )[i] == visit_queue(keys, yomi, (steps - 1) as nat)[i],
    decreases steps,
{
    let n = yomi.len() as int;
    if steps > 0 {
        let queue = visit_queue(keys, yomi, (steps - 1) as nat);
        lemma_visit_queue(keys, yomi, (steps - 1) as nat);
        if steps - 1 < queue.len() {
            let s = queue[steps - 1];
            lemma_segment_lengths(keys, yomi, s);
            lemma_enqueue_all(queue, s, segment_lengths(keys, yomi, s), n);
        }
    }
    lemma_positions_len(visit_queue(keys, yomi, steps), n);
}

/// There are no more distinct positions than `n + 1`.
pub proof fn lemma_positions_len(queue: Seq<int>, n: int)
    requires
        positions_ok(queue, n),
        n >= 0,
    ensures
        queue.len() <= n + 1,
{
    queue.unique_seq_to_set();
    vstd::set_lib::lemma_int_range(0, n + 1);
    assert(queue.to_set().subset_of(vstd::set_lib::set_int_range(0, n + 1))) by {
        assert forall|x: int| queue.to_set().contains(x) implies vstd::set_lib::set_int_range(
            0,
            n + 1,
        ).contains(x) by {
            let i = choose|i: int| 0 <= i < queue.len() && queue[i] == x;
            assert(0 <= queue[i] <= n);
        }
    }
    vstd::set_lib::lemma_len_subset(queue.to_set(), vstd::set_lib::set_int_range(0, n + 1));
}

/// Once every entry of the queue has been visited, nothing changes any more.
pub proof fn lemma_visits_settle(keys: Set<Seq<char>>, yomi: Seq<char>, done: nat, later: nat, e: int)
    requires
        done <= later,
        visit_queue(keys, yomi, done).len() <= done,
    ensures
        visit_queue(keys, yomi, later) == visit_queue(keys, yomi, done),
        words_ending_at(keys, yomi, later, e) == words_ending_at(keys, yomi, done, e),
    decreases later - done,
{
    if later > done {
        lemma_visits_settle(keys, yomi, done, (later - 1) as nat, e);
    }
}

/// Whether every segment of `seg` lies within a reading of `len` bytes.
pub open spec fn seg_fits(seg: Seq<(nat, Seq<Seq<char>>)>, len: nat) -> bool {
    forall|i: int, w: int|
        0 <= i < seg.len() && 0 <= w < seg[i].1.len() ==> 1 <= byte_len(#[trigger] seg[i].1[w])
            <= seg[i].0 <= len
}

/// Whether a segment of `seg` ends at byte `k`.
pub open spec fn has_end(seg: Seq<(nat, Seq<Seq<char>>)>, k: int) -> bool {
    exists|j: int| 0 <= j < seg.len() && (#[trigger] seg[j]).0 == k && seg[j].1.len() > 0
}

/// Whether the segments of `seg` join up over a reading of `len` bytes:
/// each starts at the start of the reading or where another ends, and one
/// ends where the reading ends.
pub open spec fn seg_joined(seg: Seq<(nat, Seq<Seq<char>>)>, len: nat) -> bool {
    &&& forall|i: int, w: int|
        0 <= i < seg.len() && 0 <= w < seg[i].1.len() ==> byte_len(#[trigger] seg[i].1[w])
            == seg[i].0 || has_end(seg, seg[i].0 - byte_len(seg[i].1[w]))
    &&& len == 0 || has_end(seg, len as int)
}

/// What is in the queue after ends were added to it was there before or is
/// one of the ends.
pub proof fn lemma_enqueue_all_from(queue: Seq<int>, s: int, lens: Seq<int>, x: int)
    requires
        enqueue_all(queue, s, lens).contains(x),
    ensures
        queue.contains(x) || lens.contains(x - s),
    decreases lens.len(),
{
    if lens.len() > 0 {
        let before = enqueue_all(queue, s, lens.drop_last());
        let after = enqueue_all(queue, s, lens);
        let i = choose|i: int| 0 <= i < after.len() && after[i] == x;
        if i < before.len() {
            assert(before[i] == x);
            lemma_enqueue_all_from(queue, s, lens.drop_last(), x);
            if lens.drop_last().contains(x - s) {
                let k = choose|k: int| 0 <= k < lens.drop_last().len() && lens.drop_last()[k] == x - s;
                assert(lens[k] == x - s);
            }
        } else {
            assert(lens[lens.len() - 1] == x - s);
        }
    }
}

/// A later queue starts with every earlier one.
pub proof fn lemma_queue_prefix(keys: Set<Seq<char>>, yomi: Seq<char>, early: nat, late: nat)
    requires
        early <= late,
    ensures
        visit_queue(keys, yomi, early).len() <= visit_queue(keys, yomi, late).len(),
        forall|i: int|
            0 <= i < visit_queue(keys, yomi, early).len() ==> #[trigger] visit_queue(keys, yomi, late)[i]
                == visit_queue(keys, yomi, early)[i],
    decreases late - early,
{
    if early < late {
        lemma_queue_prefix(keys, yomi, early, (late - 1) as nat);
        lemma_visit_queue(keys, yomi, late);
    }
}

/// The segments found do not get fewer.
pub proof fn lemma_words_grow(keys: Set<Seq<char>>, yomi: Seq<char>, early: nat, late: nat, e: int)
    requires
        early <= late,
    ensures
        words_ending_at(keys, yomi, early, e).len() <= words_ending_at(keys, yomi, late, e).len(),
    decreases late - early,
{
    if early < late {
        lemma_words_grow(keys, yomi, early, (late - 1) as nat, e);
    }
}

/// The `i`th position of the final queue is the one that is visited in
/// step `i`.
pub proof fn lemma_visited_at(keys: Set<Seq<char>>, yomi: Seq<char>, i: int)
    requires
        0 <= i < visit_queue(keys, yomi, yomi.len() + 1).len(),
    ensures
        i < visit_queue(keys, yomi, i as nat).len(),
        visit_queue(keys, yomi, i as nat)[i] == visit_queue(keys, yomi, yomi.len() + 1)[i],
        i <= yomi.len(),
{
    lemma_visit_queue(keys, yomi, yomi.len() + 1);
    if visit_queue(keys, yomi, i as nat).len() <= i {
        lemma_visits_settle(keys, yomi, i as nat, yomi.len() + 1, 0);
    }
    lemma_queue_prefix(keys, yomi, i as nat, yomi.len() + 1);
}

/// Every position of the queue but the first is one at which a segment
/// ends.
pub proof fn lemma_visited_has_segment(keys: Set<Seq<char>>, yomi: Seq<char>, steps: nat, idx: int)
    requires
        1 <= idx < visit_queue(keys, yomi, steps).len(),
    ensures
        words_ending_at(keys, yomi, steps, visit_queue(keys, yomi, steps)[idx]).len() > 0,
    decreases steps,
{
    if steps > 0 {
        let before = visit_queue(keys, yomi, (steps - 1) as nat);
        let after = visit_queue(keys, yomi, steps);
        let x = after[idx];
        lemma_visit_queue(keys, yomi, steps);
        lemma_visit_queue(keys, yomi, (steps - 1) as nat);
        if idx < before.len() {
            assert(after[idx] == before[idx]);
            lemma_visited_has_segment(keys, yomi, (steps - 1) as nat, idx);
            lemma_words_grow(keys, yomi, (steps - 1) as nat, steps, x);
        } else {
            assert(steps - 1 < before.len());
            let s = before[steps - 1];
            let lens = segment_lengths(keys, yomi, s);
            assert(after.contains(x));
            lemma_enqueue_all_from(before, s, lens, x);
            if before.contains(x) {
                let k = choose|k: int| 0 <= k < before.len() && before[k] == x;
                assert(after[k] == x);
                assert(false);
            }
        }
    }
}

/// The final queue holds the end of every segment that starts at one of
/// its positions.
pub proof fn lemma_queue_closed(keys: Set<Seq<char>>, yomi: Seq<char>, i: int, l: int)
    requires
        0 <= i < visit_queue(keys, yomi, yomi.len() + 1).len(),
        segment_lengths(keys, yomi, visit_queue(keys, yomi, yomi.len() + 1)[i]).contains(l),
    ensures
        visit_queue(keys, yomi, yomi.len() + 1).contains(
            visit_queue(keys, yomi, yomi.len() + 1)[i] + l,
        ),
{
    let last = visit_queue(keys, yomi, yomi.len() + 1);
    let s = last[i];
    lemma_visited_at(keys, yomi, i);
    let before = visit_queue(keys, yomi, i as nat);
    let after = visit_queue(keys, yomi, (i + 1) as nat);
    let lens = segment_lengths(keys, yomi, s);
    lemma_visit_queue(keys, yomi, i as nat);
    lemma_segment_lengths(keys, yomi, s);
    lemma_enqueue_all(before, s, lens, yomi.len() as int);
    let k = choose|k: int| 0 <= k < lens.len() && lens[k] == l;
    assert(after.contains(s + lens[k]));
    let at = choose|at: int| 0 <= at < after.len() && after[at] == s + l;
    lemma_queue_prefix(keys, yomi, (i + 1) as nat, yomi.len() + 1);
    assert(last[at] == s + l);
}

/// From every position of the final queue the end of the reading is
/// reached.
pub proof fn lemma_end_is_visited(keys: Set<Seq<char>>, yomi: Seq<char>, p: int)
    requires
        visit_queue(keys, yomi, yomi.len() + 1).contains(p),
    ensures
        visit_queue(keys, yomi, yomi.len() + 1).contains(yomi.len() as int),
    decreases yomi.len() - p,
{
    let last = visit_queue(keys, yomi, yomi.len() + 1);
    lemma_visit_queue(keys, yomi, yomi.len() + 1);
    let i = choose|i: int| 0 <= i < last.len() && last[i] == p;
    assert(0 <= last[i] <= yomi.len());
    if p < yomi.len() {
        lemma_segment_lengths(keys, yomi, p);
        let lens = segment_lengths(keys, yomi, p);
        assert(1 <= lens[0] <= yomi.len() - p);
        assert(lens.contains(lens[0]));
        lemma_queue_closed(keys, yomi, i, lens[0]);
        lemma_end_is_visited(keys, yomi, p + lens[0]);
    }
}

/// Every segment that was found is a stretch of the reading from a
/// position of the final queue.
pub proof fn lemma_word_is_segment(keys: Set<Seq<char>>, yomi: Seq<char>, steps: nat, e: int, w: int)
    requires
        0 <= w < words_ending_at(keys, yomi, steps, e).len(),
    ensures
        exists|s: int|
            {
                &&& 0 <= s < e <= yomi.len()
                &&& #[trigger] visit_queue(keys, yomi, yomi.len() + 1).contains(s)
                &&& words_ending_at(keys, yomi, steps, e)[w] == yomi.subrange(s, e)
            },
    decreases steps,
{
    if steps > 0 {
        let before = words_ending_at(keys, yomi, (steps - 1) as nat, e);
        if w < before.len() {
            lemma_word_is_segment(keys, yomi, (steps - 1) as nat, e, w);
            assert(words_ending_at(keys, yomi, steps, e)[w] == before[w]);
        } else {
            let queue = visit_queue(keys, yomi, (steps - 1) as nat);
            let s = queue[steps - 1];
            let last = visit_queue(keys, yomi, yomi.len() + 1);
            lemma_visit_queue(keys, yomi, (steps - 1) as nat);
            lemma_positions_len(queue, yomi.len() as int);
            lemma_queue_prefix(keys, yomi, (steps - 1) as nat, yomi.len() + 1);
            assert(last[steps - 1] == s);
            assert(0 <= queue[steps - 1] <= yomi.len());
            lemma_segment_lengths(keys, yomi, s);
            let lens = segment_lengths(keys, yomi, s);
            let k = choose|k: int| 0 <= k < lens.len() && lens[k] == e - s;
            assert(1 <= lens[k] <= yomi.len() - s);
            assert(last.contains(s));
        }
    }
}

/// The entries of the segmentation are the positions at which segments
/// end, each once.
pub proof fn lemma_segmentation_entries(keys: Set<Seq<char>>, yomi: Seq<char>, m: nat)
    requires
        m <= yomi.len(),
    ensures
        forall|i: int|
            0 <= i < segmentation_upto(keys, yomi, m).len() ==> exists|e: int|
                {
                    &&& 1 <= e <= m
                    &&& segments_ending_at(keys, yomi, e).len() > 0
                    &&& #[trigger] segmentation_upto(keys, yomi, m)[i] == (
                        byte_offset(yomi, e),
                        #[trigger] segments_ending_at(keys, yomi, e),
                    )
                },
        forall|e: int|
            1 <= e <= m && (#[trigger] segments_ending_at(keys, yomi, e)).len() > 0 ==> has_end(
                segmentation_upto(keys, yomi, m),
                byte_offset(yomi, e) as int,
            ),
    decreases m,
{
    if m > 0 {
        lemma_segmentation_entries(keys, yomi, (m - 1) as nat);
        let before = segmentation_upto(keys, yomi, (m - 1) as nat);
        let now = segmentation_upto(keys, yomi, m);
        let words = segments_ending_at(keys, yomi, m as int);
        assert forall|i: int| 0 <= i < now.len() implies exists|e: int|
            {
                &&& 1 <= e <= m
                &&& segments_ending_at(keys, yomi, e).len() > 0
                &&& #[trigger] now[i] == (
                    byte_offset(yomi, e),
                    #[trigger] segments_ending_at(keys, yomi, e),
                )
            } by {
            if i < before.len() {
                assert(now[i] == before[i]);
                let e = choose|e: int|
                    {
                        &&& 1 <= e <= m - 1
                        &&& segments_ending_at(keys, yomi, e).len() > 0
                        &&& #[trigger] before[i] == (
                            byte_offset(yomi, e),
                            #[trigger] segments_ending_at(keys, yomi, e),
                        )
                    };
                assert(now[i] == (byte_offset(yomi, e), segments_ending_at(keys, yomi, e)));
            } else {
                assert(now[i] == (byte_offset(yomi, m as int), segments_ending_at(keys, yomi, m as int)));
            }
        }
        assert forall|e: int|
            1 <= e <= m && (#[trigger] segments_ending_at(keys, yomi, e)).len() > 0 implies has_end(
            now,
            byte_offset(yomi, e) as int,
        ) by {
            if e < m {
                assert(has_end(before, byte_offset(yomi, e) as int));
                let j = choose|j: int|
                    0 <= j < before.len() && (#[trigger] before[j]).0 == byte_offset(yomi, e)
                        && before[j].1.len() > 0;
                assert(now[j] == before[j]);
            } else {
                assert(now[now.len() - 1] == (byte_offset(yomi, m as int), words));
            }
        }
    }
}

/// Every segment of the segmentation is a stretch of the reading that ends
/// where its entry says.
pub proof fn lemma_segment_is_stretch(keys: Set<Seq<char>>, yomi: Seq<char>, i: int, w: int)
    requires
        0 <= i < segmentation(keys, yomi).len(),
        0 <= w < segmentation(keys, yomi)[i].1.len(),
    ensures
        exists|s: int, e: int|
            {
                &&& 0 <= s < e <= yomi.len()
                &&& segmentation(keys, yomi)[i].0 == byte_offset(yomi, e)
                &&& segmentation(keys, yomi)[i].1[w] == #[trigger] yomi.subrange(s, e)
            },
{
    let seg = segmentation(keys, yomi);
    let n = yomi.len();
    lemma_segmentation_entries(keys, yomi, n);
    let e = choose|e: int|
        {
            &&& 1 <= e <= n
            &&& segments_ending_at(keys, yomi, e).len() > 0
            &&& #[trigger] seg[i] == (byte_offset(yomi, e), #[trigger] segments_ending_at(keys, yomi, e))
        };
    lemma_word_is_segment(keys, yomi, n + 1, e, w);
    let s = choose|s: int|
        {
            &&& 0 <= s < e <= yomi.len()
            &&& #[trigger] visit_queue(keys, yomi, yomi.len() + 1).contains(s)
            &&& words_ending_at(keys, yomi, n + 1, e)[w] == yomi.subrange(s, e)
        };
    assert(seg[i].1[w] == yomi.subrange(s, e));
}

/// The segments that the tries find lie within the reading and join up
/// from its start to its end.
pub proof fn lemma_segmentation_joined(keys: Set<Seq<char>>, yomi: Seq<char>)
    ensures
        seg_fits(segmentation(keys, yomi), byte_len(yomi)),
        seg_joined(segmentation(keys, yomi), byte_len(yomi)),
{
    let seg = segmentation(keys, yomi);
    let n = yomi.len();
    let last = visit_queue(keys, yomi, n + 1);
    lemma_segmentation_entries(keys, yomi, n);
    lemma_visit_queue(keys, yomi, n + 1);
    assert(yomi.take(n as int) =~= yomi);
    assert(yomi.take(0) =~= Seq::<char>::empty());
    assert forall|i: int, w: int| 0 <= i < seg.len() && 0 <= w < seg[i].1.len() implies (1
        <= byte_len(#[trigger] seg[i].1[w]) <= seg[i].0 <= byte_len(yomi)) && (byte_len(seg[i].1[w])
        == seg[i].0 || has_end(seg, seg[i].0 - byte_len(seg[i].1[w]))) by {
        let e = choose|e: int|
            {
                &&& 1 <= e <= n
                &&& segments_ending_at(keys, yomi, e).len() > 0
                &&& #[trigger] seg[i] == (
                    byte_offset(yomi, e),
                    #[trigger] segments_ending_at(keys, yomi, e),
                )
            };
        lemma_word_is_segment(keys, yomi, n + 1, e, w);
        let s = choose|s: int|
            {
                &&& 0 <= s < e <= yomi.len()
                &&& #[trigger] last.contains(s)
                &&& words_ending_at(keys, yomi, n + 1, e)[w] == yomi.subrange(s, e)
            };
        lemma_byte_offset_monotone(yomi, s, e);
        lemma_byte_offset_monotone(yomi, e, n as int);
        lemma_byte_offset_monotone(yomi, 0, s);
        if s > 0 {
            let idx = choose|idx: int| 0 <= idx < last.len() && last[idx] == s;
            assert(idx != 0);
            lemma_visited_has_segment(keys, yomi, n + 1, idx);
            assert(segments_ending_at(keys, yomi, s).len() > 0);
        }
    }
    if n > 0 {
        assert(last[0] == 0);
        assert(last.contains(0));
        lemma_end_is_visited(keys, yomi, 0);
        let idx = choose|idx: int| 0 <= idx < last.len() && last[idx] == n;
        assert(idx != 0);
        lemma_visited_has_segment(keys, yomi, n + 1, idx);
        assert(segments_ending_at(keys, yomi, n as int).len() > 0);
        lemma_byte_len_bounds(yomi);
    } else {
        lemma_byte_len_bounds(yomi);
    }
}

/// The segments that end at each position of a reading.
#[derive(Debug, PartialEq, Eq)]
pub struct SegmentationResult {
    entries: Vec<(usize, Vec<String>)>,
}

impl SegmentationResult {
    /// The entries: an end position, as a byte offset, and the segments that
    /// end there.
    pub closed spec fn view(&self) -> Seq<(nat, Seq<Seq<char>>)> {
        Seq::new(
            self.entries@.len(),
            |i: int| (self.entries@[i].0 as nat, strings_view(self.entries@[i].1@)),
        )
    }

    /// The segmentation with the given entries.
    pub fn new(entries: Vec<(usize, Vec<String>)>) -> (r: SegmentationResult)
        ensures
            r@.len() == entries.len(),
            forall|i: int|
                0 <= i < entries.len() ==> #[trigger] r@[i] == (
                    entries[i].0 as nat,
                    strings_view(entries[i].1@),
                ),
    {
        SegmentationResult { entries }
    }

    /// The number of entries.
    pub fn len(&self) -> (n: usize)
        ensures
            n == self@.len(),
    {
        self.entries.len()
    }

    /// The end position of entry `i`, as a byte offset.
    pub fn end_of(&self, i: usize) -> (end: usize)
        requires
            i < self@.len(),
        ensures
            end == self@[i as int].0,
    {
        self.entries[i].0
    }

    /// The segments of entry `i`.
    pub fn words_of(&self, i: usize) -> (words: &Vec<String>)
        requires
            i < self@.len(),
        ensures
            strings_view(words@) == self@[i as int].1,
    {
        &self.entries[i].1
    }
}

/// Finds the segments of a reading in a set of kana tries.
pub struct Segmenter {
    tries: Vec<CrawdadKanaTrie>,
}

impl Segmenter {
    /// The readings that the tries know.
    pub closed spec fn keys(&self) -> Set<Seq<char>> {
        union_keys(self.tries@)
    }

    /// A segmenter over `tries`.
    pub fn new(tries: Vec<CrawdadKanaTrie>) -> (s: Segmenter)
        ensures
            s.keys() == union_keys(tries@),
    {
        Segmenter { tries }
    }

    /// The lengths of the segments that start at character `s`.
    fn lengths_at(&self, chars: &Vec<char>, s: usize) -> (r: Vec<usize>)
        requires
            s <= chars.len(),
        ensures
            r@.map_values(|l: usize| l as int) == segment_lengths(self.keys(), chars@, s as int),
    {
        let rest: usize = chars.len() - s;
        let ghost h = chars@.skip(s as int);
        let ghost keys = self.keys();
        assert(h =~= chars@.subrange(s as int, chars.len() as int));
        let mut hits: Vec<bool> = Vec::new();
        let mut l: usize = 0;
        while l < rest
            invariant
                l <= rest,
                hits.len() == l,
                forall|j: int| 0 <= j < l ==> !hits[j],
            decreases rest - l,
        {
            hits.push(false);
            l = l + 1;
        }
        let mut t: usize = 0;
        while t < self.tries.len()
            invariant
                t <= self.tries.len(),
                hits.len() == rest,
                rest == h.len(),
                h == chars@.subrange(s as int, chars.len() as int),
                s <= chars.len(),
                forall|j: int|
                    0 <= j < rest ==> (#[trigger] hits[j] <==> exists|u: int|
                        0 <= u < t && (#[trigger] self.tries[u]).keys().contains(h.take(j + 1))),
            decreases self.tries.len() - t,
        {
            let found = self.tries[t].common_prefix_lengths(chars, s);
            let ghost lens = found@.map_values(|l: usize| l as int);
            let ghost tk = self.tries[t as int].keys();
            proof {
                lemma_lengths_upto_bounds(tk, h, h.len());
                assert forall|l: int| #![auto] lens.contains(l) <==> (1 <= l <= h.len() && tk.contains(
                    h.take(l),
                )) by {
                    lemma_lengths_upto_contains(tk, h, h.len(), l);
                }
            }
            let ghost hits0 = hits@;
            let mut i: usize = 0;
            while i < found.len()
                invariant
                    i <= found.len(),
                    hits.len() == rest,
                    rest == h.len(),
                    lens == found@.map_values(|l: usize| l as int),
                    forall|j: int| 0 <= j < lens.len() ==> 1 <= #[trigger] lens[j] <= rest,
                    forall|j: int|
                        0 <= j < rest ==> (#[trigger] hits[j] <==> (hits0[j] || exists|u: int|
                            0 <= u < i && #[trigger] lens[u] == j + 1)),
                decreases found.len() - i,
            {
                assert(lens[i as int] == found[i as int]);
                let ghost prev = hits@;
                hits.set(found[i] - 1, true);
                proof {
                    assert forall|j: int| 0 <= j < rest implies (#[trigger] hits[j] <==> (hits0[j]
                        || exists|u: int| 0 <= u < i + 1 && #[trigger] lens[u] == j + 1)) by {
                        if j == found[i as int] - 1 {
                            assert(lens[i as int] == j + 1);
                        } else {
                            assert(hits[j] == prev[j]);
                            if exists|u: int| 0 <= u < i + 1 && #[trigger] lens[u] == j + 1 {
                                let u = choose|u: int| 0 <= u < i + 1 && #[trigger] lens[u] == j + 1;
                                assert(u < i);
                            }
                        }
                    }
                }
                i = i + 1;
            }
            proof {
                assert forall|j: int| 0 <= j < rest implies (#[trigger] hits[j] <==> exists|u: int|
                    0 <= u < t + 1 && (#[trigger] self.tries[u]).keys().contains(h.take(j + 1))) by {
                    if hits[j] {
                        if hits0[j] {
                            let u = choose|u: int|
                                0 <= u < t && (#[trigger] self.tries[u]).keys().contains(
                                    h.take(j + 1),
                                );
                            assert(self.tries[u].keys().contains(h.take(j + 1)));
                        } else {
                            let u = choose|u: int| 0 <= u < found.len() && #[trigger] lens[u] == j + 1;
                            assert(lens.contains(j + 1));
                            assert(self.tries[t as int].keys().contains(h.take(j + 1)));
                        }
                    }
                    if exists|u: int|
                        0 <= u < t + 1 && (#[trigger] self.tries[u]).keys().contains(h.take(j + 1)) {
                        let u = choose|u: int|
                            0 <= u < t + 1 && (#[trigger] self.tries[u]).keys().contains(
                                h.take(j + 1),
                            );
                        if u == t {
                            assert(lens.contains(j + 1));
                            let w = choose|w: int| 0 <= w < lens.len() && lens[w] == j + 1;
                            assert(lens[w] == j + 1);
                        }
                    }
                }
            }
            t = t + 1;
        }
        let mut r: Vec<usize> = Vec::new();
        let mut m: usize = 0;
        while m < rest
            invariant
                m <= rest,
                hits.len() == rest,
                rest == h.len(),
                keys == self.keys(),
                forall|j: int|
                    0 <= j < rest ==> (#[trigger] hits[j] <==> exists|u: int|
                        0 <= u < self.tries.len() && (#[trigger] self.tries[u]).keys().contains(
                            h.take(j + 1),
                        )),
                r@.map_values(|l: usize| l as int) == lengths_upto(keys, h, m as nat),
            decreases rest - m,
        {
            proof {
                assert(hits[m as int] <==> keys.contains(h.take(m + 1)));
            }
            let ghost before = r@.map_values(|l: usize| l as int);
            if hits[m] {
                r.push(m + 1);
                assert(r@.map_values(|l: usize| l as int) =~= before.push(m + 1));
            }
            m = m + 1;
        }
        if r.len() == 0 && rest > 0 {
            r.push(1);
            assert(r@.map_values(|l: usize| l as int) =~= seq![1int]);
        }
        r
    }

    /// The segmentation of `yomi`: for each position at which a segment
    /// ends, in ascending order, the segments that end there, in the order
    /// in which a breadth-first walk from position 0 finds them. The empty
    /// reading has no segments.
    pub fn build(&self, yomi: &str) -> (r: SegmentationResult)
        ensures
            r@ == segmentation(self.keys(), yomi@),
    {
        let chars = to_chars(yomi);
        let n: usize = chars.len();
        let total = str_byte_len(yomi);
        let ghost keys = self.keys();
        let ghost y = yomi@;
        let mut lists: Vec<Vec<String>> = Vec::new();
        let mut seen: Vec<bool> = Vec::new();
        let mut i: usize = 0;
        while i < n
            invariant
                i <= n,
                lists.len() == i,
                seen.len() == i,
                forall|j: int| 0 <= j < i ==> (#[trigger] lists[j])@.len() == 0,
                forall|j: int| 0 <= j < i ==> seen[j] == (j == 0),
            decreases n - i,
        {
            lists.push(Vec::new());
            seen.push(i == 0);
            i = i + 1;
        }
        let mut seen_end: bool = n == 0;
        let mut queue: Vec<usize> = Vec::new();
        queue.push(0);
        let mut head: usize = 0;
        proof {
            let q = queue@.map_values(|p: usize| p as int);
            assert(q =~= visit_queue(keys, y, 0));
            assert(q[0] == 0);
            assert forall|p: int| 0 <= p <= n implies (q.contains(p) <==> p == 0) by {
                if q.contains(p) {
                    let k = choose|k: int| 0 <= k < q.len() && q[k] == p;
                }
            }
            assert forall|e: int| 1 <= e <= n implies strings_view((#[trigger] lists[e - 1])@)
                =~= words_ending_at(keys, y, 0, e) by {}
        }
        while head < queue.len()
            invariant
                chars@ == y,
                n == y.len(),
                keys == self.keys(),
                lists.len() == n,
                seen.len() == n,
                head <= queue.len(),
                queue@.map_values(|p: usize| p as int) == visit_queue(keys, y, head as nat),
                forall|p: int|
                    0 <= p < n ==> (#[trigger] seen[p] <==> queue@.map_values(
                        |p: usize| p as int,
                    ).contains(p)),
                seen_end <==> queue@.map_values(|p: usize| p as int).contains(n as int),
                forall|e: int|
                    1 <= e <= n ==> strings_view((#[trigger] lists[e - 1])@) == words_ending_at(
                        keys,
                        y,
                        head as nat,
                        e,
                    ),
            decreases n + 1 - head,
        {
            let ghost q0 = queue@.map_values(|p: usize| p as int);
            proof {
                lemma_visit_queue(keys, y, head as nat);
                lemma_visit_queue(keys, y, (head + 1) as nat);
            }
            let s = queue[head];
            assert(q0[head as int] == s);
            let lens = self.lengths_at(&chars, s);
            let ghost ls = lens@.map_values(|l: usize| l as int);
            proof {
                lemma_segment_lengths(keys, y, s as int);
            }
            let mut j: usize = 0;
            while j < lens.len()
                invariant
                    chars@ == y,
                    n == y.len(),
                    j <= lens.len(),
                    s <= n,
                    lists.len() == n,
                    seen.len() == n,
                    head < queue.len(),
                    positions_ok(q0, n as int),
                    ls == lens@.map_values(|l: usize| l as int),
                    forall|k: int| 0 <= k < ls.len() ==> 1 <= #[trigger] ls[k] <= n - s,
                    forall|a: int, b: int| 0 <= a < b < ls.len() ==> ls[a] < ls[b],
                    queue@.map_values(|p: usize| p as int) == enqueue_all(
                        q0,
                        s as int,
                        ls.take(j as int),
                    ),
                    forall|p: int|
                        0 <= p < n ==> (#[trigger] seen[p] <==> queue@.map_values(
                            |p: usize| p as int,
                        ).contains(p)),
                    seen_end <==> queue@.map_values(|p: usize| p as int).contains(n as int),
                    forall|e: int|
                        1 <= e <= n ==> strings_view((#[trigger] lists[e - 1])@) == (if ls.take(
                            j as int,
                        ).contains(e - s) {
                            words_ending_at(keys, y, head as nat, e).push(y.subrange(s as int, e))
                        } else {
                            words_ending_at(keys, y, head as nat, e)
                        }),
                decreases lens.len() - j,
            {
                let len = lens[j];
                assert(ls[j as int] == len);
                let end: usize = s + len;
                let word = substring(&chars, s, end);
                let ghost lists0 = lists@;
                let ghost qj = queue@.map_values(|p: usize| p as int);
                let ghost taken = ls.take(j as int);
                let ghost taken1 = ls.take(j + 1);
                proof {
                    assert(taken1.drop_last() =~= taken);
                    assert(taken1.last() == len);
                    lemma_enqueue_all(q0, s as int, taken, n as int);
                    assert(!taken.contains(end - s)) by {
                        if taken.contains(end - s) {
                            let k = choose|k: int| 0 <= k < taken.len() && taken[k] == end - s;
                            assert(ls[k] < ls[j as int]);
                        }
                    }
                }
                lists[end - 1].push(word);
                let was_seen = if end < n {
                    seen[end]
                } else {
                    seen_end
                };
                if !was_seen {
                    queue.push(end);
                    if end < n {
                        seen.set(end, true);
                    } else {
                        seen_end = true;
                    }
                }
                proof {
                    let qn = queue@.map_values(|p: usize| p as int);
                    if was_seen {
                        assert(qn =~= qj);
                    } else {
                        assert(qn =~= qj.push(end as int));
                        assert forall|p: int| 0 <= p <= n implies (qn.contains(p) <==> (qj.contains(
                            p,
                        ) || p == end)) by {
                            if qj.contains(p) {
                                let k = choose|k: int| 0 <= k < qj.len() && qj[k] == p;
                                assert(qn[k] == p);
                            }
                            if p == end {
                                assert(qn[qj.len() as int] == p);
                            }
                        }
                    }
                    assert(qn == enqueue_all(q0, s as int, taken1));
                    assert forall|e: int| 1 <= e <= n implies strings_view((#[trigger] lists[e
                        - 1])@) == (if taken1.contains(e - s) {
                        words_ending_at(keys, y, head as nat, e).push(y.subrange(s as int, e))
                    } else {
                        words_ending_at(keys, y, head as nat, e)
                    }) by {
                        if e == end {
                            assert(taken1[j as int] == e - s);
                            assert(strings_view(lists[e - 1]@) =~= strings_view(lists0[e - 1]@).push(
                                word@,
                            ));
                        } else {
                            assert(lists[e - 1] == lists0[e - 1]);
                            if taken1.contains(e - s) {
                                let k = choose|k: int| 0 <= k < taken1.len() && taken1[k] == e - s;
                                assert(k < j);
                                assert(taken[k] == e - s);
                            }
                            if taken.contains(e - s) {
                                let k = choose|k: int| 0 <= k < taken.len() && taken[k] == e - s;
                                assert(taken1[k] == e - s);
                            }
                        }
                    }
                }
                j = j + 1;
            }
            proof {
                assert(ls.take(lens.len() as int) =~= ls);
                lemma_positions_len(visit_queue(keys, y, (head + 1) as nat), n as int);
            }
            head = head + 1;
        }
        proof {
            lemma_visit_queue(keys, y, head as nat);
            assert forall|e: int| 1 <= e <= n implies strings_view((#[trigger] lists[e - 1])@)
                == segments_ending_at(keys, y, e) by {
                lemma_visits_settle(keys, y, head as nat, (n + 1) as nat, e);
            }
        }
        let mut entries: Vec<(usize, Vec<String>)> = Vec::new();
        let mut offset: usize = 0;
        let mut e: usize = 0;
        assert(y.take(0) =~= Seq::<char>::empty());
        while e < n
            invariant
                chars@ == y,
                n == y.len(),
                e <= n,
                lists.len() == n,
                total == byte_len(y),
                offset == byte_offset(y, e as int),
                forall|k: int|
                    1 <= k <= n ==> strings_view((#[trigger] lists[k - 1])@) == segments_ending_at(
                        keys,
                        y,
                        k,
                    ),
                (SegmentationResult { entries })@ == segmentation_upto(keys, y, e as nat),
            decreases n - e,
        {
            proof {
                lemma_byte_offset_step(y, e as int);
                lemma_byte_offset_monotone(y, e + 1, n as int);
                assert(y.take(n as int) =~= y);
            }
            offset = offset + char_width(chars[e]);
            let ghost before = (SegmentationResult { entries })@;
            if lists[e].len() > 0 {
                let words = lists[e].clone();
                proof {
                    assert(strings_view(words@) =~= strings_view(lists[e as int]@)) by {
                        assert(words@.len() == lists[e as int]@.len());
                        assert forall|k: int| 0 <= k < words@.len() implies words@[k]@
                            == lists[e as int]@[k]@ by {
                            assert(words@[k] == lists[e as int]@[k]);
                        }
                    }
                }
                entries.push((offset, words));
                assert((SegmentationResult { entries })@ =~= before.push(
                    (offset as nat, strings_view(words@)),
                ));
            } else {
                assert((SegmentationResult { entries })@ =~= before);
            }
            e = e + 1;
        }
        SegmentationResult { entries }
    }
}

} // verus!
