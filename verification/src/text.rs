//! Text as a sequence of characters, with positions counted in UTF-8 bytes.
//!
//! The converter keeps a reading as a `Vec<char>` and reports positions as
//! byte offsets into the UTF-8 form of the reading. The two are tied together
//! by [`byte_len`], the number of bytes that a run of characters occupies.
use vstd::prelude::*;

verus! {

/// The strings of `v` as character sequences.
pub open spec fn strings_view(v: Seq<String>) -> Seq<Seq<char>> {
    Seq::new(v.len(), |i: int| v[i]@)
}

/// Number of bytes in the UTF-8 encoding of one character.
pub open spec fn utf8_width(c: char) -> nat {
    if (c as u32) < 0x80 {
        1
    } else if (c as u32) < 0x800 {
        2
    } else if (c as u32) < 0x1_0000 {
        3
    } else {
        4
    }
}

/// Number of bytes in the UTF-8 encoding of a run of characters.
pub open spec fn byte_len(s: Seq<char>) -> nat
    decreases s.len(),
{
    if s.len() == 0 {
        0
    } else {
        byte_len(s.drop_last()) + utf8_width(s.last())
    }
}

/// Byte offset at which the character with index `i` starts.
pub open spec fn byte_offset(s: Seq<char>, i: int) -> nat {
    byte_len(s.take(i))
}

/// The encoding of a concatenation is as long as the two encodings together.
pub proof fn lemma_byte_len_concat(a: Seq<char>, b: Seq<char>)
    ensures
        byte_len(a + b) == byte_len(a) + byte_len(b),
    decreases b.len(),
{
    if b.len() == 0 {
        assert(a + b =~= a);
    } else {
        lemma_byte_len_concat(a, b.drop_last());
        assert((a + b).drop_last() =~= a + b.drop_last());
        assert((a + b).last() == b.last());
    }
}

/// Every character takes between one and four bytes.
pub proof fn lemma_byte_len_bounds(s: Seq<char>)
    ensures
        s.len() <= byte_len(s) <= 4 * s.len(),
    decreases s.len(),
{
    if s.len() > 0 {
        lemma_byte_len_bounds(s.drop_last());
    }
}

/// Byte offsets grow strictly with the character index.
pub proof fn lemma_byte_offset_step(s: Seq<char>, i: int)
    requires
        0 <= i < s.len(),
    ensures
        byte_offset(s, i + 1) == byte_offset(s, i) + utf8_width(s[i]),
{
    assert(s.take(i + 1).drop_last() =~= s.take(i));
}

/// A later character starts at a larger byte offset.
pub proof fn lemma_byte_offset_monotone(s: Seq<char>, i: int, j: int)
    requires
        0 <= i <= j <= s.len(),
    ensures
        byte_offset(s, j) - byte_offset(s, i) == byte_len(s.subrange(i, j)),
        byte_offset(s, i) + (j - i) <= byte_offset(s, j),
{
    lemma_byte_len_concat(s.take(i), s.subrange(i, j));
    assert(s.take(i) + s.subrange(i, j) =~= s.take(j));
    lemma_byte_len_bounds(s.subrange(i, j));
}

/// `byte_len` counts the bytes of the UTF-8 encoding.
pub proof fn lemma_byte_len_is_encoded_len(s: Seq<char>)
    ensures
        vstd::utf8::encode_utf8(s).len() == byte_len(s),
    decreases s.len(),
{
    if s.len() > 0 {
        lemma_byte_len_is_encoded_len(s.drop_first());
        lemma_byte_len_concat(seq![s[0]], s.drop_first());
        assert(seq![s[0]] + s.drop_first() =~= s);
        assert(seq![s[0]].drop_last() =~= Seq::<char>::empty());
        assert(byte_len(Seq::<char>::empty()) == 0);
        assert(byte_len(seq![s[0]]) == utf8_width(s[0]));
        vstd::utf8::char_is_scalar(s[0]);
    }
}

/// Number of bytes in `s`.
pub fn str_byte_len(s: &str) -> (n: usize)
    ensures
        n == byte_len(s@),
{
    proof {
        lemma_byte_len_is_encoded_len(s@);
    }
    s.as_bytes().len()
}

/// Number of bytes that `c` takes in UTF-8.
pub fn char_width(c: char) -> (w: usize)
    ensures
        w == utf8_width(c),
        1 <= w <= 4,
{
    let u: u32 = c as u32;
    if u < 0x80 {
        1
    } else if u < 0x800 {
        2
    } else if u < 0x1_0000 {
        3
    } else {
        4
    }
}

/// Appends one character to a string. Stands for `String::push`, which
/// extends the string by exactly that character.
#[verifier::external_body]
pub(crate) fn push_char(s: &mut String, c: char)
    ensures
        final(s)@ == old(s)@.push(c),
{
    s.push(c)
}

/// The characters of `s`, in order.
pub fn to_chars(s: &str) -> (v: Vec<char>)
    ensures
        v@ == s@,
{
    let mut v: Vec<char> = Vec::new();
    let mut it = s.chars();
    for c in iter: it
        invariant
            v@ == iter.seq().take(iter.index() as int),
            iter.seq() == s@,
    {
        v.push(c);
    }
    v
}

/// Whether two strings hold the same characters.
pub(crate) fn str_eq(a: &str, b: &str) -> (r: bool)
    ensures
        r == (a@ == b@),
{
    let x = to_chars(a);
    let y = to_chars(b);
    if x.len() != y.len() {
        return false;
    }
    let mut i: usize = 0;
    while i < x.len()
        invariant
            x@ == a@,
            y@ == b@,
            x.len() == y.len(),
            i <= x.len(),
            forall|j: int| 0 <= j < i ==> x[j] == y[j],
        decreases x.len() - i,
    {
        if x[i] != y[i] {
            return false;
        }
        i = i + 1;
    }
    assert(x@ =~= y@);
    true
}

/// The string made of `chars[from..to]`.
pub fn substring(chars: &Vec<char>, from: usize, to: usize) -> (s: String)
    requires
        from <= to <= chars.len(),
    ensures
        s@ == chars@.subrange(from as int, to as int),
{
    let mut s = String::new();
    let mut i: usize = from;
    while i < to
        invariant
            from <= i <= to <= chars.len(),
            s@ == chars@.subrange(from as int, i as int),
        decreases to - i,
    {
        push_char(&mut s, chars[i]);
        i = i + 1;
        assert(chars@.subrange(from as int, i as int) =~= chars@.subrange(from as int, i - 1).push(
            chars@[i - 1],
        ));
    }
    s
}

/// Number of bytes that `chars[from..to]` takes in UTF-8, or `None` when the
/// count does not fit in `usize`.
pub fn byte_len_of(chars: &Vec<char>, from: usize, to: usize) -> (n: Option<usize>)
    requires
        from <= to <= chars.len(),
    ensures
        n is Some <==> byte_len(chars@.subrange(from as int, to as int)) <= usize::MAX,
        n is Some ==> n->0 == byte_len(chars@.subrange(from as int, to as int)),
{
    let mut n: usize = 0;
    let mut i: usize = from;
    while i < to
        invariant
            from <= i <= to <= chars.len(),
            n == byte_len(chars@.subrange(from as int, i as int)),
        decreases to - i,
    {
        let w = char_width(chars[i]);
        proof {
            let upto = chars@.subrange(from as int, i + 1);
            assert(upto.drop_last() =~= chars@.subrange(from as int, i as int));
            assert(upto.last() == chars@[i as int]);
            lemma_byte_len_concat(upto, chars@.subrange(i + 1, to as int));
            assert(upto + chars@.subrange(i + 1, to as int) =~= chars@.subrange(
                from as int,
                to as int,
            ));
        }
        if n > usize::MAX - w {
            return None;
        }
        n = n + w;
        i = i + 1;
    }
    assert(chars@.subrange(from as int, i as int) =~= chars@.subrange(from as int, to as int));
    Some(n)
}

/// Whether `i` is where `c` first occurs in `s`, or the length of `s` if `c`
/// does not occur in it.
pub open spec fn is_first_index(s: Seq<char>, c: char, i: int) -> bool {
    &&& 0 <= i <= s.len()
    &&& forall|j: int| 0 <= j < i ==> s[j] != c
    &&& i < s.len() ==> s[i] == c
}

/// Where `c` first occurs in `s`, or the length of `s` if it does not.
pub open spec fn first_index(s: Seq<char>, c: char) -> int {
    choose|i: int| is_first_index(s, c, i)
}

/// There is one first index, and `first_index` is it.
pub proof fn lemma_first_index(s: Seq<char>, c: char, i: int)
    requires
        is_first_index(s, c, i),
    ensures
        first_index(s, c) == i,
{
    let k = first_index(s, c);
    assert(is_first_index(s, c, k));
    if k < i {
        assert(s[k] != c);
    } else if i < k {
        assert(s[i] != c);
    }
}

/// The pieces of `s` between the occurrences of `sep`. There is one piece
/// more than there are separators, so even the empty sequence has one.
pub open spec fn split(s: Seq<char>, sep: char) -> Seq<Seq<char>>
    decreases s.len(),
{
    let i = first_index(s, sep);
    if 0 <= i < s.len() {
        seq![s.take(i)] + split(s.skip(i + 1), sep)
    } else {
        seq![s]
    }
}

/// Where `c` first occurs in `chars[from..]`, as an index into `chars`.
pub fn find_char(chars: &Vec<char>, from: usize, c: char) -> (i: usize)
    requires
        from <= chars.len(),
    ensures
        from <= i <= chars.len(),
        is_first_index(chars@.skip(from as int), c, i - from),
        i - from == first_index(chars@.skip(from as int), c),
{
    let mut i: usize = from;
    while i < chars.len() && chars[i] != c
        invariant
            from <= i <= chars.len(),
            forall|j: int| from <= j < i ==> chars[j] != c,
        decreases chars.len() - i,
    {
        i = i + 1;
    }
    proof {
        lemma_first_index(chars@.skip(from as int), c, i - from);
    }
    i
}

/// The pieces of `chars[from..]` between the occurrences of `sep`.
pub fn split_from(chars: &Vec<char>, from: usize, sep: char) -> (pieces: Vec<String>)
    requires
        from <= chars.len(),
    ensures
        strings_view(pieces@) == split(chars@.skip(from as int), sep),
        pieces.len() >= 1,
{
    let mut pieces: Vec<String> = Vec::new();
    let mut start: usize = from;
    loop
        invariant
            from <= start <= chars.len(),
            strings_view(pieces@) + split(chars@.skip(start as int), sep) == split(
                chars@.skip(from as int),
                sep,
            ),
        decreases chars.len() - start,
    {
        let end = find_char(chars, start, sep);
        let piece = substring(chars, start, end);
        let ghost before = strings_view(pieces@);
        let ghost rest = chars@.skip(start as int);
        pieces.push(piece);
        proof {
            assert(rest.take(end - start) =~= chars@.subrange(start as int, end as int));
            assert(strings_view(pieces@) =~= before.push(piece@));
        }
        if end >= chars.len() {
            proof {
                assert(rest.take(end - start) =~= rest);
                assert(split(rest, sep) =~= seq![rest]);
                assert(before + seq![rest] =~= before.push(rest));
            }
            return pieces;
        }
        proof {
            assert(rest.skip(end - start + 1) =~= chars@.skip(end + 1));
            assert(before + (seq![rest.take(end - start)] + split(chars@.skip(end + 1), sep))
                =~= before.push(piece@) + split(chars@.skip(end + 1), sep));
        }
        start = end + 1;
    }
}

/// What starts with a piece without separator and a separator splits into
/// that piece and the pieces of the rest.
pub proof fn lemma_split_first(piece: Seq<char>, rest: Seq<char>, sep: char)
    requires
        !piece.contains(sep),
    ensures
        split(piece.push(sep) + rest, sep) == seq![piece] + split(rest, sep),
{
    let s = piece.push(sep) + rest;
    assert(is_first_index(s, sep, piece.len() as int)) by {
        assert forall|j: int| 0 <= j < piece.len() implies s[j] != sep by {
            assert(s[j] == piece[j]);
            assert(piece.contains(piece[j]));
        }
    }
    lemma_first_index(s, sep, piece.len() as int);
    assert(s.take(piece.len() as int) =~= piece);
    assert(s.skip(piece.len() as int + 1) =~= rest);
}

/// What holds no separator is one piece.
pub proof fn lemma_split_none(s: Seq<char>, sep: char)
    requires
        !s.contains(sep),
    ensures
        split(s, sep) == seq![s],
{
    assert(is_first_index(s, sep, s.len() as int)) by {
        assert forall|j: int| 0 <= j < s.len() implies s[j] != sep by {
            assert(s.contains(s[j]));
        }
    }
    lemma_first_index(s, sep, s.len() as int);
}

} // verus!
