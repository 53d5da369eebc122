//! Decoding of the attributes of citizen NFTs: fixed-width big-endian
//! integers followed by length-prefixed byte buffers, nothing left over.

use vstd::prelude::*;
use vstd::slice::slice_subrange;

use crate::error::ContractError;
use crate::structs::CitizenAttributes;

verus! {

/// `256` to the power `n`.
pub open spec fn pow256(n: nat) -> nat
    decreases n,
{
    if n == 0 {
        1
    } else {
        256 * pow256((n - 1) as nat)
    }
}

/// The number that the bytes `s` write, most significant byte first.
pub open spec fn be_value(s: Seq<u8>) -> nat
    decreases s.len(),
{
    if s.len() == 0 {
        0
    } else {
        be_value(s.drop_last()) * 256 + s.last() as nat
    }
}

/// The `n` low bytes of `v`, most significant first.
pub open spec fn be_bytes(v: nat, n: nat) -> Seq<u8>
    decreases n,
{
    if n == 0 {
        Seq::empty()
    } else {
        be_bytes(v / 256, (n - 1) as nat).push((v % 256) as u8)
    }
}

pub proof fn lemma_be_value_of_bytes(v: nat, n: nat)
    ensures
        be_bytes(v, n).len() == n,
        be_value(be_bytes(v, n)) == v % pow256(n),
    decreases n,
{
    if n > 0 {
        let b = be_bytes((v / 256) as nat, (n - 1) as nat);
        lemma_be_value_of_bytes((v / 256) as nat, (n - 1) as nat);
        assert(be_bytes(v, n).drop_last() =~= b);
        assert(pow256((n - 1) as nat) > 0) by {
            lemma_pow256_positive((n - 1) as nat);
        }
        vstd::arithmetic::div_mod::lemma_mod_breakdown(v as int, 256, pow256((n - 1) as nat) as int);
    }
}

pub proof fn lemma_pow256_positive(n: nat)
    ensures
        pow256(n) > 0,
    decreases n,
{
    if n > 0 {
        lemma_pow256_positive((n - 1) as nat);
    }
}

pub proof fn lemma_be_bytes_of_value(s: Seq<u8>)
    ensures
        be_bytes(be_value(s), s.len()) == s,
    decreases s.len(),
{
    if s.len() > 0 {
        let t = s.drop_last();
        lemma_be_bytes_of_value(t);
        let x = be_value(s);
        vstd::arithmetic::div_mod::lemma_fundamental_div_mod_converse(
            x as int,
            256,
            be_value(t) as int,
            s.last() as int,
        );
        assert(be_bytes(x, s.len()) =~= t.push(s.last()));
        assert(t.push(s.last()) =~= s);
    }
}

/// The nested encoding of a 64-bit number: eight bytes, big-endian.
pub open spec fn encode_u64(v: u64) -> Seq<u8> {
    be_bytes(v as nat, 8)
}

/// The nested encoding of a byte buffer: its length in four big-endian
/// bytes, then its bytes.
pub open spec fn encode_buffer(b: Seq<u8>) -> Seq<u8> {
    be_bytes(b.len(), 4) + b
}

/// The encoding of citizen attributes: the three numbers, then the twelve
/// buffers, in the order of the fields.
pub open spec fn encode_citizen_attributes(a: CitizenAttributes) -> Seq<u8> {
    encode_u64(a.id) + encode_u64(a.rank) + encode_u64(a.rarity_level) + encode_buffer(a.job@)
        + encode_buffer(a.building@) + encode_buffer(a.face@) + encode_buffer(a.hair@)
        + encode_buffer(a.top@) + encode_buffer(a.over_clothe@) + encode_buffer(a.bottom@)
        + encode_buffer(a.hat@) + encode_buffer(a.held_item@) + encode_buffer(a.eyes_object@)
        + encode_buffer(a.mouth_object@) + encode_buffer(a.extra@)
}

/// The `i`-th buffer field of the attributes, in field order.
pub open spec fn buffer_field(a: CitizenAttributes, i: int) -> Seq<u8> {
    if i == 0 {
        a.job@
    } else if i == 1 {
        a.building@
    } else if i == 2 {
        a.face@
    } else if i == 3 {
        a.hair@
    } else if i == 4 {
        a.top@
    } else if i == 5 {
        a.over_clothe@
    } else if i == 6 {
        a.bottom@
    } else if i == 7 {
        a.hat@
    } else if i == 8 {
        a.held_item@
    } else if i == 9 {
        a.eyes_object@
    } else if i == 10 {
        a.mouth_object@
    } else {
        a.extra@
    }
}

/// `bytes` is the encoding of `a`, each buffer short enough for its length
/// to fit in four bytes.
pub open spec fn encodes_citizen_attributes(a: CitizenAttributes, bytes: Seq<u8>) -> bool {
    &&& forall|i: int| 0 <= i < 12 ==> buffer_field(a, i).len() <= u32::MAX
    &&& encode_citizen_attributes(a) == bytes
}

/// `bytes` encodes some citizen attributes.
pub open spec fn citizen_attributes_decodable(bytes: Seq<u8>) -> bool {
    exists|a: CitizenAttributes| encodes_citizen_attributes(a, bytes)
}

/// The rarity level that decodable attribute bytes hold: the third number.
pub open spec fn encoded_rarity_level(bytes: Seq<u8>) -> nat {
    be_value(bytes.subrange(16, 24))
}

/// The decode error of the codec crate.
#[verifier::external_type_specification]
#[verifier::external_body]
pub struct ExDecodeError(multiversx_sc::codec::DecodeError);

/// Calls the codec's nested decoding of a `u64` on `input`: it reads the first
/// eight bytes as a big-endian number, and fails where there are fewer.
#[verifier::external_body]
fn nested_decode_u64(input: &[u8]) -> (r: Result<u64, multiversx_sc::codec::DecodeError>)
    ensures
        (r is Ok) == (input@.len() >= 8),
        r matches Ok(v) ==> v as nat == be_value(input@.subrange(0, 8)),
{
    let mut cursor: &[u8] = input;
    <u64 as multiversx_sc::codec::NestedDecode>::dep_decode(&mut cursor)
}

/// Calls the codec's nested decoding of a `u32` on `input`: it reads the first
/// four bytes as a big-endian number, and fails where there are fewer.
#[verifier::external_body]
fn nested_decode_u32(input: &[u8]) -> (r: Result<u32, multiversx_sc::codec::DecodeError>)
    ensures
        (r is Ok) == (input@.len() >= 4),
        r matches Ok(v) ==> v as nat == be_value(input@.subrange(0, 4)),
{
    let mut cursor: &[u8] = input;
    <u32 as multiversx_sc::codec::NestedDecode>::dep_decode(&mut cursor)
}

/// Calls the codec's nested decoding of a byte buffer on `input`: a length
/// in four big-endian bytes, then that many bytes. The codec makes room for
/// the stated length before it reads, so the length is required to fit in
/// the input; then it returns those bytes.
#[verifier::external_body]
fn nested_decode_buffer(input: &[u8]) -> (r: Result<Vec<u8>, multiversx_sc::codec::DecodeError>)
    requires
        input@.len() >= 4,
        4 + be_value(input@.subrange(0, 4)) <= input@.len(),
    ensures
        r is Ok,
        r is Ok ==> r->Ok_0@ == input@.subrange(4, 4 + be_value(input@.subrange(0, 4)) as int),
{
    let mut cursor: &[u8] = input;
    <Vec<u8> as multiversx_sc::codec::NestedDecode>::dep_decode(&mut cursor)
}

/// Reads a 64-bit number at `pos`.
fn read_u64_at(bytes: &[u8], pos: usize) -> (r: Option<(u64, usize)>)
    requires
        pos <= bytes@.len(),
    ensures
        (r is Some) == (pos + 8 <= bytes@.len()),
        r matches Some((v, p)) ==> p == pos + 8 && p <= bytes@.len() && bytes@.subrange(pos as int, p as int)
            == encode_u64(v),
{
    let rest = slice_subrange(bytes, pos, bytes.len());
    match nested_decode_u64(rest) {
        Ok(v) => {
            proof {
                let piece = bytes@.subrange(pos as int, pos + 8);
                assert(rest@.subrange(0, 8) =~= piece);
                lemma_be_bytes_of_value(piece);
            }
            Some((v, pos + 8))
        },
        Err(_) => None,
    }
}

/// Reads a length-prefixed buffer at `pos`.
fn read_buffer_at(bytes: &[u8], pos: usize) -> (r: Option<(Vec<u8>, usize)>)
    requires
        pos <= bytes@.len(),
    ensures
        (r is Some) == (pos + 4 <= bytes@.len() && pos + 4 + be_value(
            bytes@.subrange(pos as int, pos + 4),
        ) <= bytes@.len()),
        r matches Some((b, p)) ==> p == pos + 4 + b@.len() && p <= bytes@.len() && b@.len() <= u32::MAX
            && bytes@.subrange(pos as int, p as int) == encode_buffer(b@),
{
    let rest = slice_subrange(bytes, pos, bytes.len());
    match nested_decode_u32(rest) {
        Ok(len) => {
            let ghost lp = bytes@.subrange(pos as int, pos + 4);
            assert(rest@.subrange(0, 4) =~= lp);
            let len = len as usize;
            if len > bytes.len() - pos - 4 {
                return None;
            }
            let start = pos + 4;
            let b = match nested_decode_buffer(rest) {
                Ok(v) => v,
                Err(_) => {
                    return None;
                },
            };
            proof {
                lemma_be_bytes_of_value(lp);
                assert(b@ =~= bytes@.subrange(start as int, start + len));
                assert(bytes@.subrange(pos as int, start + len) =~= lp + b@);
            }
            Some((b, start + len))
        },
        Err(_) => None,
    }
}


/// The twelve buffer fields of the attributes, in field order.
pub open spec fn buffer_fields(a: CitizenAttributes) -> Seq<Seq<u8>> {
    Seq::new(12, |i: int| buffer_field(a, i))
}

/// The encodings of the first `i` buffers of `fs`, one after the other.
pub open spec fn buffers_prefix(fs: Seq<Seq<u8>>, i: nat) -> Seq<u8>
    decreases i,
{
    if i == 0 {
        Seq::empty()
    } else {
        buffers_prefix(fs, (i - 1) as nat) + encode_buffer(fs[i - 1])
    }
}

/// The three encoded numbers at the head of the attributes.
pub open spec fn numbers_prefix(id: u64, rank: u64, rarity_level: u64) -> Seq<u8> {
    encode_u64(id) + encode_u64(rank) + encode_u64(rarity_level)
}

proof fn lemma_numbers_prefix_len(id: u64, rank: u64, rarity_level: u64)
    ensures
        numbers_prefix(id, rank, rarity_level).len() == 24,
{
    lemma_be_value_of_bytes(id as nat, 8);
    lemma_be_value_of_bytes(rank as nat, 8);
    lemma_be_value_of_bytes(rarity_level as nat, 8);
}

proof fn lemma_encode_buffer_len(b: Seq<u8>)
    ensures
        encode_buffer(b).len() == 4 + b.len(),
{
    lemma_be_value_of_bytes(b.len(), 4);
}

/// The encoding is the numbers followed by the twelve buffers.
proof fn lemma_encoding_split(a: CitizenAttributes)
    ensures
        encode_citizen_attributes(a) == numbers_prefix(a.id, a.rank, a.rarity_level)
            + buffers_prefix(buffer_fields(a), 12),
{
    reveal_with_fuel(buffers_prefix, 13);
    let fs = buffer_fields(a);
    assert(fs[0] == a.job@);
    assert(fs[11] == a.extra@);
    assert(encode_citizen_attributes(a) =~= numbers_prefix(a.id, a.rank, a.rarity_level)
        + buffers_prefix(fs, 12));
}

/// A shorter prefix of buffers is a prefix of a longer one.
proof fn lemma_buffers_prefix_extends(fs: Seq<Seq<u8>>, i: nat, j: nat)
    requires
        i <= j,
    ensures
        buffers_prefix(fs, i).len() <= buffers_prefix(fs, j).len(),
        buffers_prefix(fs, j).subrange(0, buffers_prefix(fs, i).len() as int) == buffers_prefix(
            fs,
            i,
        ),
    decreases j,
{
    if i < j {
        lemma_buffers_prefix_extends(fs, i, (j - 1) as nat);
        let p = buffers_prefix(fs, (j - 1) as nat);
        let q = buffers_prefix(fs, i);
        assert(buffers_prefix(fs, j).subrange(0, q.len() as int) =~= p.subrange(0, q.len() as int));
    } else {
        assert(buffers_prefix(fs, j).subrange(0, buffers_prefix(fs, i).len() as int)
            =~= buffers_prefix(fs, i));
    }
}

/// Two lists of buffers that agree on their first `i` entries have the same
/// first `i` encodings.
proof fn lemma_buffers_prefix_agree(fs: Seq<Seq<u8>>, gs: Seq<Seq<u8>>, i: nat)
    requires
        forall|j: int| 0 <= j < i ==> fs[j] == gs[j],
    ensures
        buffers_prefix(fs, i) == buffers_prefix(gs, i),
    decreases i,
{
    if i > 0 {
        lemma_buffers_prefix_agree(fs, gs, (i - 1) as nat);
    }
}

/// Where `bytes` encodes `a`, the `i`-th buffer's encoding sits right after
/// the numbers and the buffers before it.
proof fn lemma_encoded_buffer_at(a: CitizenAttributes, bytes: Seq<u8>, i: nat)
    requires
        encodes_citizen_attributes(a, bytes),
        i < 12,
    ensures
        ({
            let fs = buffer_fields(a);
            let pos = 24 + buffers_prefix(fs, i).len();
            &&& bytes.subrange(0, pos as int) == numbers_prefix(a.id, a.rank, a.rarity_level)
                + buffers_prefix(fs, i)
            &&& pos + 4 + fs[i as int].len() <= bytes.len()
            &&& bytes.subrange(pos as int, (pos + 4 + fs[i as int].len()) as int) == encode_buffer(
                fs[i as int],
            )
        }),
{
    let fs = buffer_fields(a);
    let h = numbers_prefix(a.id, a.rank, a.rarity_level);
    lemma_encoding_split(a);
    lemma_numbers_prefix_len(a.id, a.rank, a.rarity_level);
    lemma_buffers_prefix_extends(fs, (i + 1) as nat, 12);
    lemma_encode_buffer_len(fs[i as int]);
    let p = buffers_prefix(fs, i);
    let p1 = buffers_prefix(fs, (i + 1) as nat);
    let whole = buffers_prefix(fs, 12);
    assert(p1 == p + encode_buffer(fs[i as int]));
    assert(whole.subrange(0, p1.len() as int) == p1);
    assert(bytes == h + whole);
    let pl = p.len() as int;
    let fl = fs[i as int].len() as int;
    assert(bytes.subrange(0, 24 + pl) =~= h + p) by {
        assert forall|k: int| 0 <= k < 24 + pl implies bytes.subrange(0, 24 + pl)[k] == (h
            + p)[k] by {
            if k >= 24 {
                assert(whole[k - 24] == p1[k - 24]);
            }
        }
    }
    assert(bytes.subrange(24 + pl, 24 + pl + 4 + fl) =~= encode_buffer(fs[i as int])) by {
        assert forall|k: int| 0 <= k < 4 + fl implies bytes.subrange(24 + pl, 24 + pl + 4 + fl)[k]
            == encode_buffer(fs[i as int])[k] by {
            assert(whole[pl + k] == p1[pl + k]);
        }
    }
}

/// Where `bytes` encodes `a`, the numbers come first and the buffers fill the
/// rest.
proof fn lemma_encoded_numbers(a: CitizenAttributes, bytes: Seq<u8>)
    requires
        encodes_citizen_attributes(a, bytes),
    ensures
        bytes.len() == 24 + buffers_prefix(buffer_fields(a), 12).len(),
        bytes.subrange(0, 8) == encode_u64(a.id),
        bytes.subrange(8, 16) == encode_u64(a.rank),
        bytes.subrange(16, 24) == encode_u64(a.rarity_level),
{
    lemma_encoding_split(a);
    lemma_be_value_of_bytes(a.id as nat, 8);
    lemma_be_value_of_bytes(a.rank as nat, 8);
    lemma_be_value_of_bytes(a.rarity_level as nat, 8);
    assert(bytes.subrange(0, 8) =~= encode_u64(a.id));
    assert(bytes.subrange(8, 16) =~= encode_u64(a.rank));
    assert(bytes.subrange(16, 24) =~= encode_u64(a.rarity_level));
}

/// Encoded numbers are read back as themselves.
proof fn lemma_u64_roundtrip(v: u64, w: u64)
    requires
        encode_u64(v) == encode_u64(w),
    ensures
        v == w,
{
    lemma_be_value_of_bytes(v as nat, 8);
    lemma_be_value_of_bytes(w as nat, 8);
    reveal_with_fuel(pow256, 9);
    vstd::arithmetic::div_mod::lemma_small_mod(v as nat, pow256(8));
    vstd::arithmetic::div_mod::lemma_small_mod(w as nat, pow256(8));
}

/// A buffer length encoded in four bytes is read back as itself.
proof fn lemma_length_roundtrip(n: nat, m: nat)
    requires
        n <= u32::MAX,
        m <= u32::MAX,
        be_bytes(n, 4) == be_bytes(m, 4),
    ensures
        n == m,
{
    lemma_be_value_of_bytes(n, 4);
    lemma_be_value_of_bytes(m, 4);
    reveal_with_fuel(pow256, 5);
    vstd::arithmetic::div_mod::lemma_small_mod(n, pow256(4));
    vstd::arithmetic::div_mod::lemma_small_mod(m, pow256(4));
}

/// The rarity level of encoded attributes is the third number of the
/// encoding.
pub proof fn lemma_encoded_rarity_level(a: CitizenAttributes, bytes: Seq<u8>)
    requires
        encodes_citizen_attributes(a, bytes),
    ensures
        a.rarity_level as nat == encoded_rarity_level(bytes),
{
    lemma_encoded_numbers(a, bytes);
    lemma_be_value_of_bytes(a.rarity_level as nat, 8);
    reveal_with_fuel(pow256, 9);
    vstd::arithmetic::div_mod::lemma_small_mod(a.rarity_level as nat, pow256(8));
}

proof fn lemma_buffers_agree_upto(a: CitizenAttributes, b: CitizenAttributes, bytes: Seq<u8>, i: nat)
    requires
        encodes_citizen_attributes(a, bytes),
        encodes_citizen_attributes(b, bytes),
        a.id == b.id && a.rank == b.rank && a.rarity_level == b.rarity_level,
        i <= 12,
    ensures
        forall|j: int| 0 <= j < i ==> buffer_fields(a)[j] == buffer_fields(b)[j],
    decreases i,
{
    if i > 0 {
        let k = (i - 1) as nat;
        lemma_buffers_agree_upto(a, b, bytes, k);
        let fa = buffer_fields(a);
        let fb = buffer_fields(b);
        lemma_buffers_prefix_agree(fa, fb, k);
        lemma_encoded_buffer_at(a, bytes, k);
        lemma_encoded_buffer_at(b, bytes, k);
        let pos = 24 + buffers_prefix(fa, k).len();
        let x = fa[k as int];
        let y = fb[k as int];
        assert(x == buffer_field(a, k as int));
        assert(y == buffer_field(b, k as int));
        lemma_encode_buffer_len(x);
        lemma_encode_buffer_len(y);
        let lx = pos + 4 + x.len();
        let ly = pos + 4 + y.len();
        assert(be_bytes(x.len(), 4) =~= encode_buffer(x).subrange(0, 4));
        assert(be_bytes(y.len(), 4) =~= encode_buffer(y).subrange(0, 4));
        assert(bytes.subrange(pos as int, lx as int).subrange(0, 4) =~= bytes.subrange(pos as int, (pos + 4) as int));
        assert(bytes.subrange(pos as int, ly as int).subrange(0, 4) =~= bytes.subrange(pos as int, (pos + 4) as int));
        lemma_length_roundtrip(x.len(), y.len());
        assert(x =~= encode_buffer(x).subrange(4, 4 + x.len() as int));
        assert(y =~= encode_buffer(y).subrange(4, 4 + y.len() as int));
        assert(x =~= y);
    }
}

/// Attribute bytes encode one set of attributes only.
pub proof fn lemma_citizen_encoding_injective(a: CitizenAttributes, b: CitizenAttributes, bytes: Seq<u8>)
    requires
        encodes_citizen_attributes(a, bytes),
        encodes_citizen_attributes(b, bytes),
    ensures
        a.id == b.id,
        a.rank == b.rank,
        a.rarity_level == b.rarity_level,
        buffer_fields(a) == buffer_fields(b),
{
    lemma_encoded_numbers(a, bytes);
    lemma_encoded_numbers(b, bytes);
    lemma_u64_roundtrip(a.id, b.id);
    lemma_u64_roundtrip(a.rank, b.rank);
    lemma_u64_roundtrip(a.rarity_level, b.rarity_level);
    lemma_buffers_agree_upto(a, b, bytes, 12);
    assert(buffer_fields(a) =~= buffer_fields(b));
}

/// Decodes the attributes of a citizen NFT from their encoding.
pub fn decode_citizen_attributes(bytes: &[u8]) -> (r: Result<CitizenAttributes, ContractError>)
    ensures
        (r is Ok) == citizen_attributes_decodable(bytes@),
        r matches Ok(a) ==> encodes_citizen_attributes(a, bytes@),
        r matches Ok(a) ==> a.rarity_level as nat == encoded_rarity_level(bytes@),
        r is Err ==> r == Err::<CitizenAttributes, ContractError>(
            ContractError::AttributesDecodeError,
        ),
{
    let ghost dec = citizen_attributes_decodable(bytes@);
    let ghost a0 = choose|a: CitizenAttributes| encodes_citizen_attributes(a, bytes@);
    proof {
        if dec {
            lemma_encoded_numbers(a0, bytes@);
            lemma_be_value_of_bytes(a0.id as nat, 8);
            lemma_be_value_of_bytes(a0.rank as nat, 8);
            lemma_be_value_of_bytes(a0.rarity_level as nat, 8);
        }
    }
    let (id, p1) = match read_u64_at(bytes, 0) {
        Some(x) => x,
        None => {
            return Err(ContractError::AttributesDecodeError);
        },
    };
    let (rank, p2) = match read_u64_at(bytes, p1) {
        Some(x) => x,
        None => {
            return Err(ContractError::AttributesDecodeError);
        },
    };
    let (rarity_level, p3) = match read_u64_at(bytes, p2) {
        Some(x) => x,
        None => {
            return Err(ContractError::AttributesDecodeError);
        },
    };
    let ghost head = numbers_prefix(id, rank, rarity_level);
    proof {
        lemma_numbers_prefix_len(id, rank, rarity_level);
        assert(bytes@.subrange(0, 24) =~= head);
        if dec {
            lemma_u64_roundtrip(id, a0.id);
            lemma_u64_roundtrip(rank, a0.rank);
            lemma_u64_roundtrip(rarity_level, a0.rarity_level);
        }
    }
    let mut bufs: Vec<Vec<u8>> = Vec::new();
    let mut pos: usize = p3;
    let mut i: usize = 0;
    while i < 12
        invariant
            i <= 12,
            pos <= bytes@.len(),
            bufs@.len() == i,
            head.len() == 24,
            head == numbers_prefix(id, rank, rarity_level),
            forall|j: int| 0 <= j < i ==> bufs@[j]@.len() <= u32::MAX,
            pos == 24 + buffers_prefix(bufs@.map_values(|b: Vec<u8>| b@), i as nat).len(),
            bytes@.subrange(0, pos as int) == head + buffers_prefix(
                bufs@.map_values(|b: Vec<u8>| b@),
                i as nat,
            ),
            dec == citizen_attributes_decodable(bytes@),
            dec ==> encodes_citizen_attributes(a0, bytes@),
            dec ==> id == a0.id && rank == a0.rank && rarity_level == a0.rarity_level,
            dec ==> forall|j: int| 0 <= j < i ==> bufs@[j]@ == buffer_fields(a0)[j],
        decreases 12 - i,
    {
        let ghost views = bufs@.map_values(|b: Vec<u8>| b@);
        proof {
            if dec {
                lemma_encoded_buffer_at(a0, bytes@, i as nat);
                lemma_buffers_prefix_agree(views, buffer_fields(a0), i as nat);
                let f = buffer_fields(a0)[i as int];
                assert(f == buffer_field(a0, i as int));
                assert(f.len() <= u32::MAX);
                assert(pos == 24 + buffers_prefix(buffer_fields(a0), i as nat).len());
                let lp = bytes@.subrange(pos as int, pos + 4);
                assert(lp =~= be_bytes(f.len(), 4)) by {
                    lemma_be_value_of_bytes(f.len(), 4);
                    assert(lp =~= bytes@.subrange(pos as int, pos + 4 + f.len()).subrange(0, 4));
                }
                lemma_be_value_of_bytes(f.len(), 4);
                reveal_with_fuel(pow256, 5);
                vstd::arithmetic::div_mod::lemma_small_mod(f.len(), pow256(4));
                assert(be_value(lp) == f.len());
                assert(pos + 4 + f.len() <= bytes@.len());
            }
        }
        let (b, p) = match read_buffer_at(bytes, pos) {
            Some(x) => x,
            None => {
                return Err(ContractError::AttributesDecodeError);
            },
        };
        proof {
            lemma_encode_buffer_len(b@);
            let views1 = views.push(b@);
            assert(bytes@.subrange(0, p as int) =~= bytes@.subrange(0, pos as int)
                + bytes@.subrange(pos as int, p as int));
            assert(buffers_prefix(views1, i as nat) == buffers_prefix(views, i as nat)) by {
                lemma_buffers_prefix_agree(views1, views, i as nat);
            }
            if dec {
                let f = buffer_fields(a0)[i as int];
                lemma_encode_buffer_len(f);
                let lp = bytes@.subrange(pos as int, pos + 4);
                assert(lp =~= bytes@.subrange(pos as int, p as int).subrange(0, 4));
                assert(be_bytes(b@.len(), 4) =~= encode_buffer(b@).subrange(0, 4));
                assert(be_bytes(f.len(), 4) =~= encode_buffer(f).subrange(0, 4));
                assert(lp =~= bytes@.subrange(pos as int, pos + 4 + f.len()).subrange(0, 4));
                lemma_length_roundtrip(b@.len(), f.len());
                assert(b@ =~= encode_buffer(b@).subrange(4, 4 + b@.len() as int));
                assert(f =~= encode_buffer(f).subrange(4, 4 + f.len() as int));
                assert(b@ =~= f);
            }
        }
        bufs.push(b);
        proof {
            assert(bufs@.map_values(|b: Vec<u8>| b@) =~= views.push(bufs@[i as int]@));
        }
        pos = p;
        i += 1;
    }
    let ghost views = bufs@.map_values(|b: Vec<u8>| b@);
    proof {
        if dec {
            lemma_encoded_numbers(a0, bytes@);
            lemma_buffers_prefix_agree(views, buffer_fields(a0), 12);
        }
    }
    if pos != bytes.len() {
        return Err(ContractError::AttributesDecodeError);
    }
    let extra = bufs.pop().unwrap();
    let mouth_object = bufs.pop().unwrap();
    let eyes_object = bufs.pop().unwrap();
    let held_item = bufs.pop().unwrap();
    let hat = bufs.pop().unwrap();
    let bottom = bufs.pop().unwrap();
    let over_clothe = bufs.pop().unwrap();
    let top = bufs.pop().unwrap();
    let hair = bufs.pop().unwrap();
    let face = bufs.pop().unwrap();
    let building = bufs.pop().unwrap();
    let job = bufs.pop().unwrap();
    let a = CitizenAttributes {
        id,
        rank,
        rarity_level,
        job,
        building,
        face,
        hair,
        top,
        over_clothe,
        bottom,
        hat,
        held_item,
        eyes_object,
        mouth_object,
        extra,
    };
    proof {
        let fs = buffer_fields(a);
        assert(fs =~= views);
        lemma_encoding_split(a);
        assert(bytes@ =~= bytes@.subrange(0, pos as int));
        assert(encodes_citizen_attributes(a, bytes@));
        assert(dec);
        lemma_encoded_numbers(a, bytes@);
        lemma_be_value_of_bytes(rarity_level as nat, 8);
        reveal_with_fuel(pow256, 9);
        vstd::arithmetic::div_mod::lemma_small_mod(rarity_level as nat, pow256(8));
    }
    Ok(a)
}

} // verus!
