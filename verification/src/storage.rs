//! The files of the system dictionary.
//!
//! A file holds a list of keys, each a string of bytes. Every key is
//! written as its length, four bytes with the least significant first,
//! and then its bytes. The same keys always give the same file.
use vstd::prelude::*;
use vstd::slice::slice_subrange;
use crate::lm::codec::{bits_bytes, bits_of, encode_bits};

verus! {

/// The keys of `keys` as byte sequences.
pub open spec fn keys_view(keys: Seq<Vec<u8>>) -> Seq<Seq<u8>> {
    Seq::new(keys.len(), |i: int| keys[i]@)
}

/// One key as it is written: its length and its bytes.
pub open spec fn framed_key(key: Seq<u8>) -> Seq<u8> {
    bits_bytes(key.len() as int) + key
}

/// The keys as they are written, one after the other.
pub open spec fn framed(keys: Seq<Seq<u8>>) -> Seq<u8>
    decreases keys.len(),
{
    if keys.len() == 0 {
        Seq::empty()
    } else {
        framed_key(keys[0]) + framed(keys.drop_first())
    }
}

/// The keys that `bytes` holds, or `None` where `bytes` ends within a
/// length or within a key.
pub open spec fn parsed(bytes: Seq<u8>) -> Option<Seq<Seq<u8>>>
    decreases bytes.len(),
{
    if bytes.len() == 0 {
        Some(Seq::empty())
    } else if bytes.len() < 4 || 4 + bits_of(bytes.take(4)) > bytes.len() {
        None
    } else {
        match parsed(bytes.skip(4 + bits_of(bytes.take(4)))) {
            Some(rest) => Some(seq![bytes.subrange(4, 4 + bits_of(bytes.take(4)))] + rest),
            None => None,
        }
    }
}

/// Whether every key is short enough for its length to be written.
pub open spec fn keys_fit(keys: Seq<Seq<u8>>) -> bool {
    forall|i: int| 0 <= i < keys.len() ==> (#[trigger] keys[i]).len() <= u32::MAX
}

/// One more key at the end is written at the end.
pub proof fn lemma_framed_push(keys: Seq<Seq<u8>>, key: Seq<u8>)
    ensures
        framed(keys.push(key)) == framed(keys) + framed_key(key),
    decreases keys.len(),
{
    if keys.len() == 0 {
        assert(keys.push(key).drop_first() =~= Seq::<Seq<u8>>::empty());
        assert(framed(keys.push(key)) =~= framed_key(key) + framed(Seq::<Seq<u8>>::empty()));
        assert(framed(keys) + framed_key(key) =~= framed_key(key));
        assert(framed_key(key) + Seq::<u8>::empty() =~= framed_key(key));
    } else {
        lemma_framed_push(keys.drop_first(), key);
        assert(keys.push(key).drop_first() =~= keys.drop_first().push(key));
        assert(framed_key(keys[0]) + (framed(keys.drop_first()) + framed_key(key)) =~= (framed_key(
            keys[0],
        ) + framed(keys.drop_first())) + framed_key(key));
    }
}

/// What was written is read back as it was.
pub proof fn lemma_round_trip(keys: Seq<Seq<u8>>)
    requires
        keys_fit(keys),
    ensures
        parsed(framed(keys)) == Some(keys),
    decreases keys.len(),
{
    if keys.len() > 0 {
        let key = keys[0];
        let bytes = framed(keys);
        let rest = framed(keys.drop_first());
        assert(keys_fit(keys.drop_first())) by {
            assert forall|i: int| 0 <= i < keys.drop_first().len() implies (
            #[trigger] keys.drop_first()[i]).len() <= u32::MAX by {
                assert(keys.drop_first()[i] == keys[i + 1]);
            }
        }
        lemma_round_trip(keys.drop_first());
        assert(key.len() <= u32::MAX);
        crate::lm::codec::lemma_bytes_round_trip(0, key.len() as int);
        assert(bytes.take(4) =~= bits_bytes(key.len() as int));
        assert(bytes.subrange(4, 4 + key.len() as int) =~= key);
        assert(bytes.skip(4 + key.len() as int) =~= rest);
        assert(seq![key] + keys.drop_first() =~= keys);
    } else {
        assert(framed(keys) =~= Seq::<u8>::empty());
    }
}

/// The keys as they are written to a file, or `None` if a key is too long
/// for its length to be written.
pub fn encode_keys(keys: &Vec<Vec<u8>>) -> (r: Option<Vec<u8>>)
    ensures
        r is Some <==> keys_fit(keys_view(keys@)),
        r is Some ==> r->0@ == framed(keys_view(keys@)),
{
    let ghost all = keys_view(keys@);
    let mut out: Vec<u8> = Vec::new();
    let mut i: usize = 0;
    assert(all.take(0) =~= Seq::<Seq<u8>>::empty());
    while i < keys.len()
        invariant
            i <= keys.len(),
            all == keys_view(keys@),
            all.len() == keys.len(),
            keys_fit(all.take(i as int)),
            out@ == framed(all.take(i as int)),
        decreases keys.len() - i,
    {
        let key = &keys[i];
        assert(all[i as int] == key@);
        if key.len() > 0xffff_ffff {
            return None;
        }
        let ghost before = out@;
        let mut head = encode_bits(key.len() as u32);
        out.append(&mut head);
        let mut j: usize = 0;
        while j < key.len()
            invariant
                j <= key.len(),
                out@ == before + bits_bytes(key.len() as int) + key@.take(j as int),
            decreases key.len() - j,
        {
            out.push(key[j]);
            assert(key@.take(j + 1) =~= key@.take(j as int).push(key@[j as int]));
            j = j + 1;
        }
        proof {
            assert(key@.take(key.len() as int) =~= key@);
            assert(all.take(i + 1) =~= all.take(i as int).push(key@));
            lemma_framed_push(all.take(i as int), key@);
            assert(before + bits_bytes(key.len() as int) + key@ =~= before + framed_key(key@));
        }
        i = i + 1;
    }
    assert(all.take(keys.len() as int) =~= all);
    Some(out)
}

/// The keys that a file holds, or `None` for a file that ends within a
/// length or within a key.
pub fn decode_keys(bytes: &[u8]) -> (r: Option<Vec<Vec<u8>>>)
    ensures
        match parsed(bytes@) {
            Some(keys) => r is Some && keys_view(r->0@) == keys,
            None => r is None,
        },
{
    let mut keys: Vec<Vec<u8>> = Vec::new();
    let mut at: usize = 0;
    assert(bytes@.skip(0) =~= bytes@);
    assert(keys_view(keys@) =~= Seq::<Seq<u8>>::empty());
    while at < bytes.len()
        invariant
            at <= bytes.len(),
            parsed(bytes@) == match parsed(bytes@.skip(at as int)) {
                Some(rest) => Some(keys_view(keys@) + rest),
                None => None,
            },
        decreases bytes.len() - at,
    {
        let ghost rest = bytes@.skip(at as int);
        if bytes.len() - at < 4 {
            return None;
        }
        let len: usize = bytes[at] as usize + bytes[at + 1] as usize * 0x100 + bytes[at + 2] as usize
            * 0x1_0000 + bytes[at + 3] as usize * 0x100_0000;
        assert(len == bits_of(rest.take(4))) by {
            assert(rest.take(4)[0] == bytes[at as int]);
            assert(rest.take(4)[1] == bytes[at + 1]);
            assert(rest.take(4)[2] == bytes[at + 2]);
            assert(rest.take(4)[3] == bytes[at + 3]);
        }
        if len > bytes.len() - at - 4 {
            return None;
        }
        let piece = slice_subrange(bytes, at + 4, at + 4 + len);
        let mut key: Vec<u8> = Vec::new();
        let mut j: usize = 0;
        while j < len
            invariant
                j <= len,
                piece@.len() == len,
                key@ == piece@.take(j as int),
            decreases len - j,
        {
            key.push(piece[j]);
            assert(piece@.take(j + 1) =~= piece@.take(j as int).push(piece@[j as int]));
            j = j + 1;
        }
        let ghost before = keys_view(keys@);
        proof {
            assert(piece@.take(len as int) =~= piece@);
            assert(rest.subrange(4, 4 + len) =~= piece@);
            assert(rest.skip(4 + len) =~= bytes@.skip(at + 4 + len));
        }
        keys.push(key);
        proof {
            assert(keys_view(keys@) =~= before.push(piece@));
            match parsed(bytes@.skip(at + 4 + len)) {
                Some(more) => {
                    assert(before + (seq![piece@] + more) =~= before.push(piece@) + more);
                },
                None => {},
            }
        }
        at = at + 4 + len;
    }
    proof {
        assert(bytes@.skip(at as int) =~= Seq::<u8>::empty());
        assert(keys_view(keys@) + Seq::<Seq<u8>>::empty() =~= keys_view(keys@));
    }
    Some(keys)
}

} // verus!
