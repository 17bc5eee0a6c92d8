//! The bytes of a stored trie, and whether they can be trusted.
//!
//! A stored trie is a table that gives each character its code, the size
//! of the alphabet, and the nodes, each a base and a check. Every number
//! takes four bytes, the least significant first:
//!
//! - the length of the table, then the table;
//! - the size of the alphabet;
//! - the number of nodes, then for each node its base and its check.
//!
//! The top bit of a base marks a leaf, the top bit of a check marks a node
//! at which a key ends though longer keys go on. A search goes from a node
//! to the node at its base combined with the code of the next character,
//! which lies in the block of the base: the stretch of as many nodes as the
//! alphabet rounded up to a power of two has codes. An image is sound if
//! no search can leave the nodes.
use vstd::prelude::*;

verus! {

/// The top bit of a base or a check.
pub const TOP_BIT: u64 = 0x8000_0000;

/// The code of a character that the alphabet does not hold.
pub const NO_CODE: u64 = 0xffff_ffff;

/// The number that the four bytes from `at` on hold.
pub open spec fn word_at(b: Seq<u8>, at: int) -> int {
    b[at] + b[at + 1] * 0x100 + b[at + 2] * 0x1_0000 + b[at + 3] * 0x100_0000
}

/// The length of the table of codes.
pub open spec fn table_len(b: Seq<u8>) -> int {
    word_at(b, 0)
}

/// The code of the character `c`.
pub open spec fn code_at(b: Seq<u8>, c: int) -> int {
    word_at(b, 4 + 4 * c)
}

/// The size of the alphabet.
pub open spec fn alphabet_size(b: Seq<u8>) -> int {
    word_at(b, 4 + 4 * table_len(b))
}

/// The number of nodes.
pub open spec fn node_count(b: Seq<u8>) -> int {
    word_at(b, 8 + 4 * table_len(b))
}

/// The base of node `i`.
pub open spec fn base_at(b: Seq<u8>, i: int) -> int {
    word_at(b, 12 + 4 * table_len(b) + 8 * i)
}

/// The check of node `i`.
pub open spec fn check_at(b: Seq<u8>, i: int) -> int {
    word_at(b, 16 + 4 * table_len(b) + 8 * i)
}

/// The first of `p`, `2p`, `4p`, ... that is no smaller than `alphabet`.
pub open spec fn block_from(alphabet: int, p: int) -> int
    decreases
            (if p < alphabet {
                alphabet - p
            } else {
                0
            }),
{
    if p >= alphabet || p <= 0 {
        p
    } else {
        block_from(alphabet, 2 * p)
    }
}

/// The length of a block: the size of the alphabet rounded up to a power
/// of two, and at least 2.
pub open spec fn block_len(alphabet: int) -> int {
    block_from(alphabet, 2)
}

/// Whether the bytes are as many as the table and the nodes take.
pub open spec fn is_framed(b: Seq<u8>) -> bool {
    &&& b.len() >= 4
    &&& b.len() >= 12 + 4 * table_len(b)
    &&& b.len() == 12 + 4 * table_len(b) + 8 * node_count(b)
}

/// Whether the code of the character `c` is a code of the alphabet, or
/// none.
pub open spec fn code_ok(b: Seq<u8>, c: int) -> bool {
    code_at(b, c) == NO_CODE || code_at(b, c) < alphabet_size(b)
}

/// Whether a search can go on from node `i`. That is so if the node cannot
/// be reached, or is a leaf. Else the block of its base must lie within
/// the nodes; and if a key ends at the node, the node at its base must be
/// a leaf that names the node as its parent.
pub open spec fn node_ok(b: Seq<u8>, i: int) -> bool {
    let base = base_at(b, i);
    let check = check_at(b, i);
    let p = block_len(alphabet_size(b));
    (i == 0 || check % (TOP_BIT as int) < node_count(b)) && base < TOP_BIT ==> {
        &&& (base / p) * p + p <= node_count(b)
        &&& check >= TOP_BIT ==> base_at(b, base) >= TOP_BIT && check_at(b, base) % (TOP_BIT as int)
            == i
    }
}

/// Whether the bytes are a stored trie in which no search can leave the
/// nodes.
pub open spec fn is_sound_image(b: Seq<u8>) -> bool {
    &&& is_framed(b)
    &&& 1 <= node_count(b) < TOP_BIT
    &&& forall|c: int| 0 <= c < table_len(b) ==> #[trigger] code_ok(b, c)
    &&& forall|i: int| 0 <= i < node_count(b) ==> #[trigger] node_ok(b, i)
}

/// The number that the four bytes from `at` on hold.
fn word(bytes: &[u8], at: u64) -> (w: u64)
    requires
        at + 4 <= bytes@.len(),
    ensures
        w == word_at(bytes@, at as int),
        w <= 0xffff_ffff,
{
    let i = at as usize;
    bytes[i] as u64 + bytes[i + 1] as u64 * 0x100 + bytes[i + 2] as u64 * 0x1_0000 + bytes[i
        + 3] as u64 * 0x100_0000
}

/// The length of a block for an alphabet of the given size.
fn block(alphabet: u64) -> (p: u64)
    requires
        alphabet <= 0xffff_ffff,
    ensures
        p == block_len(alphabet as int),
        2 <= p <= 0x2_0000_0000,
{
    let mut p: u64 = 2;
    while p < alphabet
        invariant
            2 <= p <= 0x2_0000_0000,
            alphabet <= 0xffff_ffff,
            block_from(alphabet as int, p as int) == block_len(alphabet as int),
        decreases
                (if p < alphabet {
                    alphabet - p
                } else {
                    0
                }),
    {
        p = p * 2;
    }
    p
}

/// Whether the bytes are a stored trie in which no search can leave the
/// nodes.
pub fn sound_image(bytes: &[u8]) -> (ok: bool)
    ensures
        ok == is_sound_image(bytes@),
{
    let len: u64 = bytes.len() as u64;
    if len < 4 {
        return false;
    }
    let table = word(bytes, 0);
    if len < 12 + 4 * table {
        return false;
    }
    let alphabet = word(bytes, 4 + 4 * table);
    let nodes = word(bytes, 8 + 4 * table);
    if len != 12 + 4 * table + 8 * nodes {
        return false;
    }
    if nodes < 1 || nodes >= TOP_BIT {
        return false;
    }
    let mut c: u64 = 0;
    while c < table
        invariant
            c <= table,
            len == bytes@.len(),
            table == table_len(bytes@),
            alphabet == alphabet_size(bytes@),
            len >= 12 + 4 * table,
            table <= 0xffff_ffff,
            forall|k: int| 0 <= k < c ==> #[trigger] code_ok(bytes@, k),
        decreases table - c,
    {
        let code = word(bytes, 4 + 4 * c);
        if code != NO_CODE && code >= alphabet {
            assert(!code_ok(bytes@, c as int));
            return false;
        }
        c = c + 1;
    }
    let p = block(alphabet);
    let start: u64 = 12 + 4 * table;
    let mut i: u64 = 0;
    while i < nodes
        invariant
            i <= nodes,
            len == bytes@.len(),
            table == table_len(bytes@),
            alphabet == alphabet_size(bytes@),
            nodes == node_count(bytes@),
            p == block_len(alphabet as int),
            2 <= p <= 0x2_0000_0000,
            start == 12 + 4 * table,
            len == start + 8 * nodes,
            table <= 0xffff_ffff,
            1 <= nodes < TOP_BIT,
            forall|k: int| 0 <= k < i ==> #[trigger] node_ok(bytes@, k),
        decreases nodes - i,
    {
        let base = word(bytes, start + 8 * i);
        let check = word(bytes, start + 8 * i + 4);
        if (i == 0 || check % TOP_BIT < nodes) && base < TOP_BIT {
            proof {
                vstd::arithmetic::div_mod::lemma_fundamental_div_mod(base as int, p as int);
                vstd::arithmetic::div_mod::lemma_mod_bound(base as int, p as int);
                assert(p * (base / p) == (base / p) * p) by (nonlinear_arith);
            }
            if (base / p) * p + p > nodes {
                assert(!node_ok(bytes@, i as int));
                return false;
            }
            if check >= TOP_BIT {
                let leaf_base = word(bytes, start + 8 * base);
                let leaf_check = word(bytes, start + 8 * base + 4);
                if leaf_base < TOP_BIT || leaf_check % TOP_BIT != i {
                    assert(!node_ok(bytes@, i as int));
                    return false;
                }
            }
        }
        assert(node_ok(bytes@, i as int));
        i = i + 1;
    }
    true
}

} // verus!
