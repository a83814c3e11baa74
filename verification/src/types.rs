//! Small value types shared by the contracts.
use vstd::prelude::*;

verus! {

/// An on-chain address: either an account (ed25519 public key) or a
/// contract (contract hash). The 32-byte key is held as four big-endian
/// 64-bit words, so two addresses are equal exactly when their kind and
/// key are equal.
#[derive(Clone, Copy, Debug, PartialEq, Eq, Hash, Structural)]
pub struct Address {
    /// `true` for a contract address, `false` for an account.
    pub contract: bool,
    pub key0: u64,
    pub key1: u64,
    pub key2: u64,
    pub key3: u64,
}

impl Address {
    /// An account address whose key is the number `n`.
    pub fn account(n: u64) -> (a: Address)
        ensures
            a == (Address { contract: false, key0: 0, key1: 0, key2: 0, key3: n }),
    {
        Address { contract: false, key0: 0, key1: 0, key2: 0, key3: n }
    }

    /// A contract address whose key is the number `n`.
    pub fn contract(n: u64) -> (a: Address)
        ensures
            a == (Address { contract: true, key0: 0, key1: 0, key2: 0, key3: n }),
    {
        Address { contract: true, key0: 0, key1: 0, key2: 0, key3: n }
    }
}

/// A participant in a multi-party flow (escrow, governance, ...).
#[derive(Clone, Debug)]
pub struct Party {
    /// Address of the participant.
    pub address: Address,
    /// Role label, such as `buyer` or `arbiter`.
    pub role: String,
    /// Whether this party has approved the current action.
    pub approved: bool,
}

/// An error code with a readable message.
#[derive(Clone, Debug)]
pub struct ErrorDetails {
    pub code: u32,
    pub message: String,
}

/// Inclusive time window, in Unix seconds.
#[derive(Clone, Copy, Debug, PartialEq, Eq, Structural)]
pub struct TimeBounds {
    /// Earliest moment (inclusive) at which the window is active.
    pub start: u64,
    /// Latest moment (inclusive) at which the window is active.
    pub end: u64,
}

impl TimeBounds {
    /// Returns `true` when `now` falls within `[start, end]`.
    pub fn is_active(&self, now: u64) -> (active: bool)
        ensures
            active == (self.start <= now && now <= self.end),
    {
        now >= self.start && now <= self.end
    }
}

/// Offset and limit of a paginated read.
#[derive(Clone, Copy, Debug, PartialEq, Eq, Structural)]
pub struct PaginationCursor {
    /// Number of items to skip from the start of the full result set.
    pub offset: u32,
    /// Maximum number of items to return.
    pub limit: u32,
}

impl PaginationCursor {
    /// Creates a new cursor from `offset` and `limit`.
    pub fn new(offset: u32, limit: u32) -> (c: Self)
        ensures
            c.offset == offset,
            c.limit == limit,
    {
        PaginationCursor { offset, limit }
    }
}

/// Copy a vector of addresses element by element.
pub fn copy_addresses(v: &Vec<Address>) -> (out: Vec<Address>)
    ensures
        out@ == v@,
{
    let mut out: Vec<Address> = Vec::new();
    let mut i: usize = 0;
    while i < v.len()
        invariant
            i <= v.len(),
            out@ == v@.subrange(0, i as int),
        decreases v.len() - i,
    {
        out.push(v[i]);
        i += 1;
    }
    out
}

/// Copy a byte vector element by element.
pub fn copy_bytes(v: &Vec<u8>) -> (out: Vec<u8>)
    ensures
        out@ == v@,
{
    let mut out: Vec<u8> = Vec::new();
    let mut i: usize = 0;
    while i < v.len()
        invariant
            i <= v.len(),
            out@ == v@.subrange(0, i as int),
        decreases v.len() - i,
    {
        out.push(v[i]);
        i += 1;
    }
    out
}

/// Whether `a` occurs in `v`.
pub fn contains_address(v: &Vec<Address>, a: &Address) -> (found: bool)
    ensures
        found == v@.contains(*a),
{
    let mut i: usize = 0;
    while i < v.len()
        invariant
            i <= v.len(),
            forall|j: int| 0 <= j < i ==> v@[j] != *a,
        decreases v.len() - i,
    {
        if v[i] == *a {
            return true;
        }
        i += 1;
    }
    false
}


/// The four big-endian bytes of `w`.
pub open spec fn u32_bytes(w: u32) -> Seq<u8> {
    seq![(w >> 24u32) as u8, (w >> 16u32) as u8, (w >> 8u32) as u8, w as u8]
}

/// The eight big-endian bytes of `w`.
pub open spec fn u64_bytes(w: u64) -> Seq<u8> {
    seq![
        (w >> 56u64) as u8,
        (w >> 48u64) as u8,
        (w >> 40u64) as u8,
        (w >> 32u64) as u8,
        (w >> 24u64) as u8,
        (w >> 16u64) as u8,
        (w >> 8u64) as u8,
        w as u8,
    ]
}

/// The big-endian word of eight bytes.
pub open spec fn be_word(b0: u8, b1: u8, b2: u8, b3: u8, b4: u8, b5: u8, b6: u8, b7: u8) -> u64 {
    ((b0 as u64) << 56u64) | ((b1 as u64) << 48u64) | ((b2 as u64) << 40u64) | ((b3 as u64)
        << 32u64) | ((b4 as u64) << 24u64) | ((b5 as u64) << 16u64) | ((b6 as u64) << 8u64) | (
    b7 as u64)
}

/// The XDR of an address value: the value tag `18`, the address kind (`0`
/// for an account, `1` for a contract), for an account the key type `0`
/// (ed25519), then the 32-byte key; tags are big-endian 32-bit words.
pub open spec fn address_xdr(a: Address) -> Seq<u8> {
    u32_bytes(18) + (if a.contract {
        u32_bytes(1)
    } else {
        u32_bytes(0) + u32_bytes(0)
    }) + u64_bytes(a.key0) + u64_bytes(a.key1) + u64_bytes(a.key2) + u64_bytes(a.key3)
}

proof fn lemma_word_of_bytes(w: u64)
    ensures
        be_word(
            (w >> 56u64) as u8,
            (w >> 48u64) as u8,
            (w >> 40u64) as u8,
            (w >> 32u64) as u8,
            (w >> 24u64) as u8,
            (w >> 16u64) as u8,
            (w >> 8u64) as u8,
            w as u8,
        ) == w,
{
    assert(((((w >> 56u64) as u8) as u64) << 56u64) | ((((w >> 48u64) as u8) as u64) << 48u64)
        | ((((w >> 40u64) as u8) as u64) << 40u64) | ((((w >> 32u64) as u8) as u64) << 32u64)
        | ((((w >> 24u64) as u8) as u64) << 24u64) | ((((w >> 16u64) as u8) as u64) << 16u64)
        | ((((w >> 8u64) as u8) as u64) << 8u64) | ((w as u8) as u64) == w) by (bit_vector);
}

proof fn lemma_bytes_of_word(b0: u8, b1: u8, b2: u8, b3: u8, b4: u8, b5: u8, b6: u8, b7: u8)
    ensures
        u64_bytes(be_word(b0, b1, b2, b3, b4, b5, b6, b7)) == seq![b0, b1, b2, b3, b4, b5, b6, b7],
{
    let w = be_word(b0, b1, b2, b3, b4, b5, b6, b7);
    assert((w >> 56u64) as u8 == b0 && (w >> 48u64) as u8 == b1 && (w >> 40u64) as u8 == b2 && (w
        >> 32u64) as u8 == b3 && (w >> 24u64) as u8 == b4 && (w >> 16u64) as u8 == b5 && (w
        >> 8u64) as u8 == b6 && w as u8 == b7) by (bit_vector)
        requires
            w == ((b0 as u64) << 56u64) | ((b1 as u64) << 48u64) | ((b2 as u64) << 40u64) | ((
            b3 as u64) << 32u64) | ((b4 as u64) << 24u64) | ((b5 as u64) << 16u64) | ((b6 as u64)
                << 8u64) | (b7 as u64),
    ;
    assert(u64_bytes(w) =~= seq![b0, b1, b2, b3, b4, b5, b6, b7]);
}

/// The word whose bytes stand at `at` in `x` is read back from them.
proof fn lemma_word_at(x: Seq<u8>, at: int, w: u64)
    requires
        0 <= at,
        at + 8 <= x.len(),
        x.subrange(at, at + 8) == u64_bytes(w),
    ensures
        w == be_word(x[at], x[at + 1], x[at + 2], x[at + 3], x[at + 4], x[at + 5], x[at + 6], x[at
            + 7]),
{
    lemma_word_of_bytes(w);
    let u = u64_bytes(w);
    assert(x.subrange(at, at + 8)[0] == x[at]);
    assert(x.subrange(at, at + 8)[1] == x[at + 1]);
    assert(x.subrange(at, at + 8)[2] == x[at + 2]);
    assert(x.subrange(at, at + 8)[3] == x[at + 3]);
    assert(x.subrange(at, at + 8)[4] == x[at + 4]);
    assert(x.subrange(at, at + 8)[5] == x[at + 5]);
    assert(x.subrange(at, at + 8)[6] == x[at + 6]);
    assert(x.subrange(at, at + 8)[7] == x[at + 7]);
}

/// Where the key words start in the XDR of an address of this kind.
pub open spec fn key_offset(contract: bool) -> int {
    if contract {
        8
    } else {
        12
    }
}

/// The XDR of `a` holds each key word at its place.
proof fn lemma_address_xdr_layout(a: Address)
    ensures
        address_xdr(a).len() == key_offset(a.contract) + 32,
        address_xdr(a).subrange(key_offset(a.contract), key_offset(a.contract) + 8) == u64_bytes(
            a.key0,
        ),
        address_xdr(a).subrange(key_offset(a.contract) + 8, key_offset(a.contract) + 16)
            == u64_bytes(a.key1),
        address_xdr(a).subrange(key_offset(a.contract) + 16, key_offset(a.contract) + 24)
            == u64_bytes(a.key2),
        address_xdr(a).subrange(key_offset(a.contract) + 24, key_offset(a.contract) + 32)
            == u64_bytes(a.key3),
        address_xdr(a).subrange(0, 4) == u32_bytes(18),
        address_xdr(a).subrange(4, 8) == if a.contract {
            u32_bytes(1)
        } else {
            u32_bytes(0)
        },
        !a.contract ==> address_xdr(a).subrange(8, 12) == u32_bytes(0),
{
    let x = address_xdr(a);
    let o = key_offset(a.contract);
    assert(x.subrange(o, o + 8) =~= u64_bytes(a.key0));
    assert(x.subrange(o + 8, o + 16) =~= u64_bytes(a.key1));
    assert(x.subrange(o + 16, o + 24) =~= u64_bytes(a.key2));
    assert(x.subrange(o + 24, o + 32) =~= u64_bytes(a.key3));
    assert(x.subrange(0, 4) =~= u32_bytes(18));
    if a.contract {
        assert(x.subrange(4, 8) =~= u32_bytes(1));
    } else {
        assert(x.subrange(4, 8) =~= u32_bytes(0));
        assert(x.subrange(8, 12) =~= u32_bytes(0));
    }
}

/// Two addresses with the same XDR are the same address: the encoding
/// loses nothing.
pub proof fn lemma_address_xdr_injective(a: Address, b: Address)
    requires
        address_xdr(a) == address_xdr(b),
    ensures
        a == b,
{
    let x = address_xdr(a);
    lemma_address_xdr_layout(a);
    lemma_address_xdr_layout(b);
    assert(a.contract == b.contract);
    let o = key_offset(a.contract);
    lemma_word_at(x, o, a.key0);
    lemma_word_at(x, o, b.key0);
    lemma_word_at(x, o + 8, a.key1);
    lemma_word_at(x, o + 8, b.key1);
    lemma_word_at(x, o + 16, a.key2);
    lemma_word_at(x, o + 16, b.key2);
    lemma_word_at(x, o + 24, a.key3);
    lemma_word_at(x, o + 24, b.key3);
}


fn push_u32(v: &mut Vec<u8>, w: u32)
    ensures
        final(v)@ == old(v)@ + u32_bytes(w),
{
    v.push((w >> 24u32) as u8);
    v.push((w >> 16u32) as u8);
    v.push((w >> 8u32) as u8);
    v.push(w as u8);
    proof {
        assert(v@ =~= old(v)@ + u32_bytes(w));
    }
}

fn push_u64(v: &mut Vec<u8>, w: u64)
    ensures
        final(v)@ == old(v)@ + u64_bytes(w),
{
    v.push((w >> 56u64) as u8);
    v.push((w >> 48u64) as u8);
    v.push((w >> 40u64) as u8);
    v.push((w >> 32u64) as u8);
    v.push((w >> 24u64) as u8);
    v.push((w >> 16u64) as u8);
    v.push((w >> 8u64) as u8);
    v.push(w as u8);
    proof {
        assert(v@ =~= old(v)@ + u64_bytes(w));
    }
}

/// The XDR of an address value, as the host reads and writes it.
pub fn address_to_xdr(a: &Address) -> (v: Vec<u8>)
    ensures
        v@ == address_xdr(*a),
{
    let mut v: Vec<u8> = Vec::new();
    push_u32(&mut v, 18);
    if a.contract {
        push_u32(&mut v, 1);
    } else {
        push_u32(&mut v, 0);
        push_u32(&mut v, 0);
    }
    push_u64(&mut v, a.key0);
    push_u64(&mut v, a.key1);
    push_u64(&mut v, a.key2);
    push_u64(&mut v, a.key3);
    proof {
        let k: Seq<u8> = if a.contract {
            u32_bytes(1)
        } else {
            u32_bytes(0) + u32_bytes(0)
        };
        assert(v@ =~= u32_bytes(18) + k + u64_bytes(a.key0) + u64_bytes(a.key1) + u64_bytes(a.key2)
            + u64_bytes(a.key3));
    }
    v
}

/// Whether the four bytes at `at` are the big-endian `tag`.
fn tag_at(b: &Vec<u8>, at: usize, tag: u32) -> (r: bool)
    requires
        at + 4 <= b.len(),
    ensures
        r == (b@.subrange(at as int, at + 4) == u32_bytes(tag)),
{
    let r = b[at] == (tag >> 24u32) as u8 && b[at + 1] == (tag >> 16u32) as u8 && b[at + 2] == (tag
        >> 8u32) as u8 && b[at + 3] == tag as u8;
    proof {
        let s = b@.subrange(at as int, at + 4);
        if r {
            assert(s =~= u32_bytes(tag));
        }
        if s == u32_bytes(tag) {
            assert(s[0] == b@[at as int] && s[1] == b@[at + 1] && s[2] == b@[at + 2] && s[3]
                == b@[at + 3]);
        }
    }
    r
}

/// The big-endian word of the eight bytes at `at`.
fn word_at(b: &Vec<u8>, at: usize) -> (w: u64)
    requires
        at + 8 <= b.len(),
    ensures
        w == be_word(
            b@[at as int],
            b@[at + 1],
            b@[at + 2],
            b@[at + 3],
            b@[at + 4],
            b@[at + 5],
            b@[at + 6],
            b@[at + 7],
        ),
{
    ((b[at] as u64) << 56u64) | ((b[at + 1] as u64) << 48u64) | ((b[at + 2] as u64) << 40u64) | ((
    b[at + 3] as u64) << 32u64) | ((b[at + 4] as u64) << 24u64) | ((b[at + 5] as u64) << 16u64) | ((
    b[at + 6] as u64) << 8u64) | (b[at + 7] as u64)
}

/// The bytes at `at` are those of the word read there.
proof fn lemma_read_word(x: Seq<u8>, at: int)
    requires
        0 <= at,
        at + 8 <= x.len(),
    ensures
        x.subrange(at, at + 8) == u64_bytes(
            be_word(x[at], x[at + 1], x[at + 2], x[at + 3], x[at + 4], x[at + 5], x[at + 6], x[at + 7]),
        ),
{
    lemma_bytes_of_word(x[at], x[at + 1], x[at + 2], x[at + 3], x[at + 4], x[at + 5], x[at + 6], x[at + 7]);
    assert(x.subrange(at, at + 8) =~= seq![x[at], x[at + 1], x[at + 2], x[at + 3], x[at + 4], x[at + 5], x[at + 6], x[at + 7]]);
}

/// Read an address back from its XDR: `Some(a)` exactly when `bytes` is
/// the XDR of `a`, so decoding an encoding gives back its address.
pub fn address_from_xdr(bytes: &Vec<u8>) -> (r: Option<Address>)
    ensures
        r matches Some(a) ==> address_xdr(a) == bytes@,
        r is None ==> forall|a: Address| address_xdr(a) != bytes@,
        forall|a: Address| #[trigger] address_xdr(a) == bytes@ ==> r == Some(a),
{
    let n = bytes.len();
    let contract = if n == 40 {
        true
    } else if n == 44 {
        false
    } else {
        proof {
            assert forall|a: Address| address_xdr(a) != bytes@ by {
                lemma_address_xdr_layout(a);
            }
        }
        return None;
    };
    let kind_ok = if contract {
        tag_at(bytes, 0, 18) && tag_at(bytes, 4, 1)
    } else {
        tag_at(bytes, 0, 18) && tag_at(bytes, 4, 0) && tag_at(bytes, 8, 0)
    };
    if !kind_ok {
        proof {
            assert forall|a: Address| address_xdr(a) != bytes@ by {
                lemma_address_xdr_layout(a);
                if address_xdr(a) == bytes@ {
                    assert(a.contract == contract);
                }
            }
        }
        return None;
    }
    let o: usize = if contract {
        8
    } else {
        12
    };
    let a = Address {
        contract,
        key0: word_at(bytes, o),
        key1: word_at(bytes, o + 8),
        key2: word_at(bytes, o + 16),
        key3: word_at(bytes, o + 24),
    };
    proof {
        let x = bytes@;
        lemma_read_word(x, o as int);
        lemma_read_word(x, o + 8);
        lemma_read_word(x, o + 16);
        lemma_read_word(x, o + 24);
        lemma_address_xdr_layout(a);
        let y = address_xdr(a);
        assert(y.len() == x.len());
        assert forall|i: int| 0 <= i < x.len() implies y[i] == x[i] by {
            if i < 4 {
                assert(y.subrange(0, 4)[i] == x.subrange(0, 4)[i]);
            } else if i < 8 {
                assert(y.subrange(4, 8)[i - 4] == x.subrange(4, 8)[i - 4]);
            } else if i < o {
                assert(y.subrange(8, 12)[i - 8] == x.subrange(8, 12)[i - 8]);
            } else if i < o + 8 {
                assert(y.subrange(o as int, o + 8)[i - o] == x.subrange(o as int, o + 8)[i - o]);
            } else if i < o + 16 {
                assert(y.subrange(o + 8, o + 16)[i - o - 8] == x.subrange(o + 8, o + 16)[i - o - 8]);
            } else if i < o + 24 {
                assert(y.subrange(o + 16, o + 24)[i - o - 16] == x.subrange(o + 16, o + 24)[i - o
                    - 16]);
            } else {
                assert(y.subrange(o + 24, o + 32)[i - o - 24] == x.subrange(o + 24, o + 32)[i - o
                    - 24]);
            }
        }
        assert(y =~= x);
        assert forall|b: Address| #[trigger] address_xdr(b) == bytes@ implies Some(a) == Some(b) by {
            lemma_address_xdr_injective(a, b);
        }
    }
    Some(a)
}

} // verus!
