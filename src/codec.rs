//! Canonical binary encoding of table keys (CBOR, RFC 8949), and the byte
//! order in which tables keep them.

use vstd::prelude::*;

verus! {

#[verifier::external_type_specification]
#[verifier::external_body]
pub struct ExCborError(serde_cbor::Error);

/// Byte `k` (counted from the least significant end) of `h`.
pub open spec fn byte_of(h: u64, k: u64) -> u8 {
    ((h >> (8 * k)) & 0xff) as u8
}

/// The shortest CBOR encoding of the unsigned integer `h` (major type 0).
pub open spec fn cbor_uint(h: u64) -> Seq<u8> {
    if h <= 23 {
        seq![h as u8]
    } else if h <= 0xff {
        seq![0x18u8, h as u8]
    } else if h <= 0xffff {
        seq![0x19u8, byte_of(h, 1), byte_of(h, 0)]
    } else if h <= 0xffff_ffff {
        seq![0x1au8, byte_of(h, 3), byte_of(h, 2), byte_of(h, 1), byte_of(h, 0)]
    } else {
        seq![
            0x1bu8,
            byte_of(h, 7),
            byte_of(h, 6),
            byte_of(h, 5),
            byte_of(h, 4),
            byte_of(h, 3),
            byte_of(h, 2),
            byte_of(h, 1),
            byte_of(h, 0),
        ]
    }
}

/// The CBOR encoding of the unit value: the simple value `null`.
pub open spec fn cbor_unit() -> Seq<u8> {
    seq![0xf6u8]
}

/// Relies on serde_cbor::to_vec for a `u64`: it writes the shortest head of
/// major type 0 into a `Vec`, and writing into a `Vec` never fails.
#[verifier::external_body]
fn cbor_of_u64(h: u64) -> (r: Result<Vec<u8>, serde_cbor::Error>)
    ensures
        r.is_ok(),
        r.unwrap()@ == cbor_uint(h),
{
    serde_cbor::to_vec(&h)
}

/// Relies on serde_cbor::to_vec for `()`: it writes the single byte `null`
/// into a `Vec`, and writing into a `Vec` never fails.
#[verifier::external_body]
fn cbor_of_unit() -> (r: Result<Vec<u8>, serde_cbor::Error>)
    ensures
        r.is_ok(),
        r.unwrap()@ == cbor_unit(),
{
    serde_cbor::to_vec(&())
}

/// Why a table operation did not complete.
#[derive(Debug)]
pub enum StoreError {
    /// A key or value could not be encoded.
    Encode,
}

/// Encodes a height key.
pub fn encode_key(h: u64) -> (r: Result<Vec<u8>, StoreError>)
    ensures
        r matches Ok(b) && b@ == cbor_uint(h),
{
    match cbor_of_u64(h) {
        Ok(b) => Ok(b),
        Err(_) => Err(StoreError::Encode),
    }
}

/// Encodes the empty key of a single-value cell.
pub fn encode_unit_key() -> (r: Result<Vec<u8>, StoreError>)
    ensures
        r matches Ok(b) && b@ == cbor_unit(),
{
    match cbor_of_unit() {
        Ok(b) => Ok(b),
        Err(_) => Err(StoreError::Encode),
    }
}

/// Lexicographic order on byte strings; a proper prefix comes first.
pub open spec fn lex_lt(a: Seq<u8>, b: Seq<u8>) -> bool
    decreases a.len(),
{
    if a.len() == 0 {
        b.len() > 0
    } else if b.len() == 0 {
        false
    } else if a[0] != b[0] {
        a[0] < b[0]
    } else {
        lex_lt(a.drop_first(), b.drop_first())
    }
}

/// Of two distinct byte strings exactly one comes first.
pub proof fn lemma_lex_total(a: Seq<u8>, b: Seq<u8>)
    ensures
        a != b ==> lex_lt(a, b) || lex_lt(b, a),
        !(lex_lt(a, b) && lex_lt(b, a)),
    decreases a.len(),
{
    if a.len() == 0 || b.len() == 0 {
        if a.len() == 0 && b.len() == 0 {
            assert(a =~= b);
        }
    } else if a[0] != b[0] {
    } else {
        lemma_lex_total(a.drop_first(), b.drop_first());
        if a.drop_first() == b.drop_first() {
            assert forall|i: int| 0 <= i < a.len() implies a[i] == b[i] by {
                if i > 0 {
                    assert(a[i] == a.drop_first()[i - 1]);
                    assert(b[i] == b.drop_first()[i - 1]);
                }
            }
            assert(a =~= b);
        }
    }
}

/// The order is transitive.
pub proof fn lemma_lex_trans(a: Seq<u8>, b: Seq<u8>, c: Seq<u8>)
    requires
        lex_lt(a, b),
        lex_lt(b, c),
    ensures
        lex_lt(a, c),
    decreases a.len(),
{
    if a.len() > 0 && b.len() > 0 && c.len() > 0 && a[0] == b[0] && b[0] == c[0] {
        lemma_lex_trans(a.drop_first(), b.drop_first(), c.drop_first());
    }
}

/// Byte strings that agree before index `k` and differ there are ordered by
/// their bytes at `k`.
pub proof fn lemma_lex_at(x: Seq<u8>, y: Seq<u8>, k: int)
    requires
        0 <= k < x.len(),
        k < y.len(),
        forall|i: int| 0 <= i < k ==> x[i] == y[i],
        x[k] < y[k],
    ensures
        lex_lt(x, y),
    decreases k,
{
    if k > 0 {
        assert(x[0] == y[0]);
        assert forall|i: int| 0 <= i < k - 1 implies x.drop_first()[i] == y.drop_first()[i] by {
            assert(x[i + 1] == y[i + 1]);
        }
        lemma_lex_at(x.drop_first(), y.drop_first(), k - 1);
    }
}

/// The key encoding keeps numeric order: a smaller height has an encoding
/// that comes first in byte order.
pub proof fn lemma_cbor_uint_order(a: u64, b: u64)
    requires
        a < b,
    ensures
        lex_lt(cbor_uint(a), cbor_uint(b)),
{
    let ea = cbor_uint(a);
    let eb = cbor_uint(b);
    assert(forall|x: u64, k: u64| #![auto] ((x >> k) & 0xff) <= 0xff) by (bit_vector);
    if ea[0] != eb[0] {
        assert(ea[0] < eb[0]);
        lemma_lex_at(ea, eb, 0);
    } else if b <= 23 {
        lemma_lex_at(ea, eb, 0);
    } else if b <= 0xff {
        lemma_lex_at(ea, eb, 1);
    } else if b <= 0xffff {
        assert(a > 0xff);
        assert(((a >> 8) & 0xff) < ((b >> 8) & 0xff) || (((a >> 8) & 0xff) == ((b >> 8) & 0xff)
            && ((a >> 0) & 0xff) < ((b >> 0) & 0xff))) by (bit_vector)
            requires a < b, b <= 0xffff;
        if byte_of(a, 1) < byte_of(b, 1) {
            lemma_lex_at(ea, eb, 1);
        } else {
            lemma_lex_at(ea, eb, 2);
        }
    } else if b <= 0xffff_ffff {
        assert(a > 0xffff);
        assert(((a >> 24) & 0xff) < ((b >> 24) & 0xff) || (((a >> 24) & 0xff) == ((b >> 24) & 0xff)
            && ((a >> 16) & 0xff) < ((b >> 16) & 0xff)) || (((a >> 24) & 0xff) == ((b >> 24) & 0xff)
            && ((a >> 16) & 0xff) == ((b >> 16) & 0xff) && ((a >> 8) & 0xff) < ((b >> 8) & 0xff)) || (
        ((a >> 24) & 0xff) == ((b >> 24) & 0xff) && ((a >> 16) & 0xff) == ((b >> 16) & 0xff) && ((a
            >> 8) & 0xff) == ((b >> 8) & 0xff) && ((a >> 0) & 0xff) < ((b >> 0) & 0xff))) by (bit_vector)
            requires a < b, b <= 0xffff_ffff;
        if byte_of(a, 3) < byte_of(b, 3) {
            lemma_lex_at(ea, eb, 1);
        } else if byte_of(a, 2) < byte_of(b, 2) {
            lemma_lex_at(ea, eb, 2);
        } else if byte_of(a, 1) < byte_of(b, 1) {
            lemma_lex_at(ea, eb, 3);
        } else {
            lemma_lex_at(ea, eb, 4);
        }
    } else {
        assert(a > 0xffff_ffff);
        assert(((a >> 56) & 0xff) < ((b >> 56) & 0xff) || (((a >> 56) & 0xff) == ((b >> 56) & 0xff)
            && ((a >> 48) & 0xff) < ((b >> 48) & 0xff)) || (((a >> 56) & 0xff) == ((b >> 56) & 0xff)
            && ((a >> 48) & 0xff) == ((b >> 48) & 0xff) && ((a >> 40) & 0xff) < ((b >> 40) & 0xff))
            || (((a >> 56) & 0xff) == ((b >> 56) & 0xff) && ((a >> 48) & 0xff) == ((b >> 48) & 0xff)
            && ((a >> 40) & 0xff) == ((b >> 40) & 0xff) && ((a >> 32) & 0xff) < ((b >> 32) & 0xff))
            || (((a >> 56) & 0xff) == ((b >> 56) & 0xff) && ((a >> 48) & 0xff) == ((b >> 48) & 0xff)
            && ((a >> 40) & 0xff) == ((b >> 40) & 0xff) && ((a >> 32) & 0xff) == ((b >> 32) & 0xff)
            && ((a >> 24) & 0xff) < ((b >> 24) & 0xff)) || (((a >> 56) & 0xff) == ((b >> 56) & 0xff)
            && ((a >> 48) & 0xff) == ((b >> 48) & 0xff) && ((a >> 40) & 0xff) == ((b >> 40) & 0xff)
            && ((a >> 32) & 0xff) == ((b >> 32) & 0xff) && ((a >> 24) & 0xff) == ((b >> 24) & 0xff)
            && ((a >> 16) & 0xff) < ((b >> 16) & 0xff)) || (((a >> 56) & 0xff) == ((b >> 56) & 0xff)
            && ((a >> 48) & 0xff) == ((b >> 48) & 0xff) && ((a >> 40) & 0xff) == ((b >> 40) & 0xff)
            && ((a >> 32) & 0xff) == ((b >> 32) & 0xff) && ((a >> 24) & 0xff) == ((b >> 24) & 0xff)
            && ((a >> 16) & 0xff) == ((b >> 16) & 0xff) && ((a >> 8) & 0xff) < ((b >> 8) & 0xff)) || (
        ((a >> 56) & 0xff) == ((b >> 56) & 0xff) && ((a >> 48) & 0xff) == ((b >> 48) & 0xff) && ((a
            >> 40) & 0xff) == ((b >> 40) & 0xff) && ((a >> 32) & 0xff) == ((b >> 32) & 0xff) && ((a
            >> 24) & 0xff) == ((b >> 24) & 0xff) && ((a >> 16) & 0xff) == ((b >> 16) & 0xff) && ((a
            >> 8) & 0xff) == ((b >> 8) & 0xff) && ((a >> 0) & 0xff) < ((b >> 0) & 0xff)))
            by (bit_vector)
            requires a < b;
        if byte_of(a, 7) < byte_of(b, 7) {
            lemma_lex_at(ea, eb, 1);
        } else if byte_of(a, 6) < byte_of(b, 6) {
            lemma_lex_at(ea, eb, 2);
        } else if byte_of(a, 5) < byte_of(b, 5) {
            lemma_lex_at(ea, eb, 3);
        } else if byte_of(a, 4) < byte_of(b, 4) {
            lemma_lex_at(ea, eb, 4);
        } else if byte_of(a, 3) < byte_of(b, 3) {
            lemma_lex_at(ea, eb, 5);
        } else if byte_of(a, 2) < byte_of(b, 2) {
            lemma_lex_at(ea, eb, 6);
        } else if byte_of(a, 1) < byte_of(b, 1) {
            lemma_lex_at(ea, eb, 7);
        } else {
            lemma_lex_at(ea, eb, 8);
        }
    }
}

/// Distinct heights have distinct encodings.
pub proof fn lemma_cbor_uint_injective(a: u64, b: u64)
    requires
        cbor_uint(a) == cbor_uint(b),
    ensures
        a == b,
{
    let ea = cbor_uint(a);
    let eb = cbor_uint(b);
    assert(ea[0] == eb[0]);
    assert(ea.len() == eb.len());
    assert(forall|x: u64| #![auto] (x & 0xff) <= 0xff) by (bit_vector);
    assert(forall|x: u64, k: u64| #![auto] ((x >> k) & 0xff) <= 0xff) by (bit_vector);
    if a <= 23 {
        assert(ea[0] == a as u8);
        assert(b <= 23);
        assert(eb[0] == b as u8);
    } else if a <= 0xff {
        assert(b > 23 && b <= 0xff);
        assert(ea[1] == a as u8 && eb[1] == b as u8);
    } else if a <= 0xffff {
        assert(byte_of(a, 1) == byte_of(b, 1) && byte_of(a, 0) == byte_of(b, 0));
        assert(((a >> 8) & 0xff) == ((b >> 8) & 0xff));
        assert((a >> 0) & 0xff == (b >> 0) & 0xff);
        assert(((a >> 8) & 0xff) == ((b >> 8) & 0xff) && (a >> 0) & 0xff == (b >> 0) & 0xff
            && a <= 0xffff && b <= 0xffff ==> a == b) by (bit_vector);
    } else if a <= 0xffff_ffff {
        assert(((a >> 24) & 0xff) == ((b >> 24) & 0xff));
        assert(((a >> 16) & 0xff) == ((b >> 16) & 0xff));
        assert(((a >> 8) & 0xff) == ((b >> 8) & 0xff));
        assert((a >> 0) & 0xff == (b >> 0) & 0xff);
        assert(((a >> 24) & 0xff) == ((b >> 24) & 0xff) && ((a >> 16) & 0xff) == ((b >> 16)
            & 0xff) && ((a >> 8) & 0xff) == ((b >> 8) & 0xff) && (a >> 0) & 0xff == (b >> 0)
            & 0xff && a <= 0xffff_ffff && b <= 0xffff_ffff ==> a == b) by (bit_vector);
    } else {
        assert(((a >> 56) & 0xff) == ((b >> 56) & 0xff));
        assert(((a >> 48) & 0xff) == ((b >> 48) & 0xff));
        assert(((a >> 40) & 0xff) == ((b >> 40) & 0xff));
        assert(((a >> 32) & 0xff) == ((b >> 32) & 0xff));
        assert(((a >> 24) & 0xff) == ((b >> 24) & 0xff));
        assert(((a >> 16) & 0xff) == ((b >> 16) & 0xff));
        assert(((a >> 8) & 0xff) == ((b >> 8) & 0xff));
        assert((a >> 0) & 0xff == (b >> 0) & 0xff);
        assert(((a >> 56) & 0xff) == ((b >> 56) & 0xff) && ((a >> 48) & 0xff) == ((b >> 48)
            & 0xff) && ((a >> 40) & 0xff) == ((b >> 40) & 0xff) && ((a >> 32) & 0xff) == ((b
            >> 32) & 0xff) && ((a >> 24) & 0xff) == ((b >> 24) & 0xff) && ((a >> 16) & 0xff)
            == ((b >> 16) & 0xff) && ((a >> 8) & 0xff) == ((b >> 8) & 0xff) && (a >> 0) & 0xff
            == (b >> 0) & 0xff ==> a == b) by (bit_vector);
    }
}

} // verus!
