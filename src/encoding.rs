//! The codec: big-endian, fixed-size encodings of values, length-prefixed
//! strings, and rows as the concatenation of their values.

use crate::components::{conforms, raw_type_of, DataInstance, DataInstanceRaw, DataType};
use crate::text::string_from_utf8;
use crate::tokenizer::DataTypeRaw;
use vstd::prelude::*;
use vstd::utf8::*;

verus! {

/// `256` to the power `n`.
pub open spec fn pow256(n: nat) -> nat
    decreases n,
{
    if n == 0 {
        1
    } else {
        256 * pow256((n - 1) as nat)
    }
}

/// The `n` bytes of `v`, most significant first.
pub open spec fn be_bytes(v: nat, n: nat) -> Seq<u8>
    decreases n,
{
    if n == 0 {
        Seq::empty()
    } else {
        be_bytes(v / 256, (n - 1) as nat).push((v % 256) as u8)
    }
}

/// The number that big-endian bytes stand for.
pub open spec fn be_value(bs: Seq<u8>) -> nat
    decreases bs.len(),
{
    if bs.len() == 0 {
        0
    } else {
        be_value(bs.drop_last()) * 256 + bs.last() as nat
    }
}

pub proof fn lemma_be_bytes_len(v: nat, n: nat)
    ensures
        be_bytes(v, n).len() == n,
    decreases n,
{
    if n > 0 {
        lemma_be_bytes_len(v / 256, (n - 1) as nat);
    }
}

pub proof fn lemma_pow256_positive(n: nat)
    ensures
        pow256(n) >= 1,
    decreases n,
{
    if n > 0 {
        lemma_pow256_positive((n - 1) as nat);
    }
}

/// Reading back the bytes of a number that fits gives the number.
pub proof fn lemma_be_round_trip(v: nat, n: nat)
    requires
        v < pow256(n),
    ensures
        be_value(be_bytes(v, n)) == v,
    decreases n,
{
    if n > 0 {
        let q = v / 256;
        let r = v % 256;
        assert(v == q * 256 + r && r < 256) by (nonlinear_arith)
            requires
                q == v / 256,
                r == v % 256,
        ;
        assert(q < pow256((n - 1) as nat)) by (nonlinear_arith)
            requires
                v < 256 * pow256((n - 1) as nat),
                v == q * 256 + r,
                r >= 0,
        ;
        lemma_be_round_trip(q, (n - 1) as nat);
        assert(be_bytes(v, n).drop_last() =~= be_bytes(q, (n - 1) as nat));
    }
}

/// The number that `n` bytes stand for fits in them.
pub proof fn lemma_be_value_bound(bs: Seq<u8>)
    ensures
        be_value(bs) < pow256(bs.len()),
    decreases bs.len(),
{
    if bs.len() > 0 {
        lemma_be_value_bound(bs.drop_last());
        let p = pow256((bs.len() - 1) as nat);
        let a = be_value(bs.drop_last());
        let b = bs.last() as nat;
        assert(a * 256 + b < 256 * p) by (nonlinear_arith)
            requires
                a < p,
                b < 256,
        ;
    }
}

proof fn lemma_be_bytes_one(x: u8)
    ensures
        be_bytes(x as nat, 1) == seq![x],
{
    let v = x as nat;
    assert(v % 256 == v);
    assert(be_bytes(v / 256, 0) == Seq::<u8>::empty());
    assert(be_bytes(v, 1) == be_bytes(v / 256, 0).push((v % 256) as u8));
    assert(be_bytes(v, 1) =~= seq![x]);
}

pub proof fn lemma_pow256_values()
    ensures
        pow256(1) == 0x100,
        pow256(2) == 0x1_0000,
        pow256(4) == 0x1_0000_0000,
        pow256(8) == 0x1_0000_0000_0000_0000,
        pow256(16) == 0x1_0000_0000_0000_0000_0000_0000_0000_0000,
{
    reveal_with_fuel(pow256, 17);
}

/// Writes the `n` big-endian bytes of `v` at `position`.
pub fn write_be(blob: &mut Vec<u8>, position: usize, v: u128, n: usize)
    requires
        n <= 16,
        v < pow256(n as nat),
        position + n <= old(blob)@.len(),
    ensures
        final(blob)@ == old(blob)@.take(position as int) + be_bytes(v as nat, n as nat) + old(
            blob,
        )@.skip(position + n),
{
    let ghost initial = blob@;
    let len = blob.len();
    let mut x: u128 = v;
    let mut k: usize = n;
    proof {
        lemma_be_bytes_len(v as nat, n as nat);
        assert(be_bytes(v as nat, n as nat) =~= be_bytes(x as nat, k as nat) + blob@.subrange(
            position + k,
            position + n,
        ));
    }
    while k > 0
        invariant
            k <= n,
            len == initial.len(),
            position + n <= initial.len(),
            blob@.len() == initial.len(),
            be_bytes(v as nat, n as nat) == be_bytes(x as nat, k as nat) + blob@.subrange(
                position + k,
                position + n,
            ),
            forall|i: int| 0 <= i < position + k ==> blob@[i] == initial[i],
            forall|i: int| position + n <= i < initial.len() ==> blob@[i] == initial[i],
        decreases k,
    {
        let byte = (x % 256) as u8;
        let ghost before = blob@;
        blob.set(position + k - 1, byte);
        proof {
            assert(be_bytes(x as nat, k as nat) == be_bytes((x / 256) as nat, (k - 1) as nat).push(
                byte,
            ));
            assert(blob@.subrange(position + k - 1, position + n as int) =~= seq![byte]
                + before.subrange(position + k, position + n));
        }
        x = x / 256;
        k = k - 1;
    }
    proof {
        lemma_be_bytes_len(v as nat, n as nat);
        assert(blob@ =~= initial.take(position as int) + be_bytes(v as nat, n as nat)
            + initial.skip(position + n));
    }
}

/// Reads `n` big-endian bytes at the front of `blob`.
pub fn read_be(blob: &[u8], n: usize) -> (r: u128)
    requires
        n <= 16,
        n <= blob@.len(),
    ensures
        r as nat == be_value(blob@.take(n as int)),
{
    let mut acc: u128 = 0;
    let mut j: usize = 0;
    while j < n
        invariant
            j <= n <= 16,
            n <= blob@.len(),
            acc as nat == be_value(blob@.take(j as int)),
        decreases n - j,
    {
        proof {
            lemma_be_value_bound(blob@.take(j as int));
            lemma_pow256_values();
            lemma_pow256_monotone(j as nat, 15);
            assert(blob@.take(j + 1).drop_last() =~= blob@.take(j as int));
            assert(acc * 256 + blob@[j as int] < 0x1_0000_0000_0000_0000_0000_0000_0000_0000) by (nonlinear_arith)
                requires
                    acc < pow256(15),
                    pow256(16) == 256 * pow256(15),
                    pow256(16) == 0x1_0000_0000_0000_0000_0000_0000_0000_0000,
                    blob@[j as int] < 256,
            ;
        }
        acc = acc * 256 + blob[j] as u128;
        j += 1;
    }
    acc
}

proof fn lemma_pow256_monotone(a: nat, b: nat)
    requires
        a <= b,
    ensures
        pow256(a) <= pow256(b),
    decreases b,
{
    if a < b {
        lemma_pow256_monotone(a, (b - 1) as nat);
        lemma_pow256_positive((b - 1) as nat);
    }
}

// ---------------------------------------------------------------------------
// Primitive values

/// Earliest timestamp that can be stored: the first second of year -9999.
pub const MIN_TIMESTAMP: i64 = -377705116800;

/// Latest timestamp that can be stored: the last second of year 9999.
pub const MAX_TIMESTAMP: i64 = 253402300799;

/// Relies on `time::OffsetDateTime::from_unix_timestamp`, which accepts exactly
/// the seconds from the start of year -9999 to the end of year 9999 (UTC).
#[verifier::external_body]
fn timestamp_in_range(t: i64) -> (r: bool)
    ensures
        r == (MIN_TIMESTAMP <= t && t <= MAX_TIMESTAMP),
{
    time::OffsetDateTime::from_unix_timestamp(t).is_ok()
}

/// The 64-bit two's complement bits of `t`, as a number.
pub open spec fn twos_complement(t: i64) -> nat {
    if t >= 0 {
        t as nat
    } else {
        (t + 0x1_0000_0000_0000_0000) as nat
    }
}

/// The signed number that 64 bits stand for.
pub open spec fn from_twos_complement(x: nat) -> int {
    if x < 0x8000_0000_0000_0000 {
        x as int
    } else {
        x - 0x1_0000_0000_0000_0000
    }
}

/// The bytes of a value: integers and UUIDs big-endian at their natural size, a
/// boolean as one byte (1 for true), a timestamp as its signed 64-bit seconds, a
/// string as its UTF-8 length on two bytes and then its UTF-8 bytes.
pub open spec fn raw_encoding(v: DataInstanceRaw) -> Seq<u8> {
    match v {
        DataInstanceRaw::UInt8(x) => seq![x],
        DataInstanceRaw::UInt16(x) => be_bytes(x as nat, 2),
        DataInstanceRaw::UInt32(x) => be_bytes(x as nat, 4),
        DataInstanceRaw::UInt64(x) => be_bytes(x as nat, 8),
        DataInstanceRaw::UInt128(x) => be_bytes(x as nat, 16),
        DataInstanceRaw::Bool(b) => seq![
            if b {
                1u8
            } else {
                0u8
            },
        ],
        DataInstanceRaw::Timestamp(t) => be_bytes(twos_complement(t), 8),
        DataInstanceRaw::Uuid(x) => be_bytes(x as nat, 16),
        DataInstanceRaw::String(s) => be_bytes(encode_utf8(s@).len(), 2) + encode_utf8(s@),
    }
}

/// A value that fits its encoding: a string of at most 65,535 UTF-8 bytes.
pub open spec fn raw_encodable(v: DataInstanceRaw) -> bool {
    match v {
        DataInstanceRaw::String(s) => encode_utf8(s@).len() <= 0xffff,
        _ => true,
    }
}

/// A value that can be stored and read back: encodable, and a timestamp in range.
pub open spec fn raw_valid(v: DataInstanceRaw) -> bool {
    raw_encodable(v) && match v {
        DataInstanceRaw::Timestamp(t) => MIN_TIMESTAMP <= t <= MAX_TIMESTAMP,
        _ => true,
    }
}

/// Two values are the same, strings compared by their characters.
pub open spec fn raw_same(a: DataInstanceRaw, b: DataInstanceRaw) -> bool {
    match a {
        DataInstanceRaw::String(x) => b matches DataInstanceRaw::String(y) && x@ == y@,
        _ => a == b,
    }
}

/// Width of the fixed-size types.
pub open spec fn fixed_width(t: DataTypeRaw) -> nat {
    match t {
        DataTypeRaw::UInt8 => 1,
        DataTypeRaw::UInt16 => 2,
        DataTypeRaw::UInt32 => 4,
        DataTypeRaw::UInt64 => 8,
        DataTypeRaw::UInt128 => 16,
        DataTypeRaw::Bool => 1,
        DataTypeRaw::Timestamp => 8,
        DataTypeRaw::Uuid => 16,
        DataTypeRaw::String => 2,
    }
}

/// Length of a string's UTF-8 bytes, read from the front of `bs`.
pub open spec fn string_len_at(bs: Seq<u8>) -> nat {
    be_value(bs.take(2))
}

/// A value of type `t` can be read from the front of `bs`: enough bytes, a
/// timestamp in range, a string of valid UTF-8.
pub open spec fn raw_decodable(bs: Seq<u8>, t: DataTypeRaw) -> bool {
    &&& bs.len() >= fixed_width(t)
    &&& t == DataTypeRaw::Timestamp ==> MIN_TIMESTAMP <= from_twos_complement(be_value(bs.take(8)))
        <= MAX_TIMESTAMP
    &&& t == DataTypeRaw::String ==> bs.len() >= 2 + string_len_at(bs) && valid_utf8(
        bs.subrange(2, 2 + string_len_at(bs) as int),
    )
}

/// `v` is the value of type `t` read from the front of `bs`, taking `n` bytes.
pub open spec fn raw_decoded(bs: Seq<u8>, t: DataTypeRaw, v: DataInstanceRaw, n: nat) -> bool {
    &&& raw_type_of(v) == t
    &&& n <= bs.len()
    &&& match v {
        DataInstanceRaw::UInt8(x) => n == 1 && x == bs[0],
        DataInstanceRaw::UInt16(x) => n == 2 && x as nat == be_value(bs.take(2)),
        DataInstanceRaw::UInt32(x) => n == 4 && x as nat == be_value(bs.take(4)),
        DataInstanceRaw::UInt64(x) => n == 8 && x as nat == be_value(bs.take(8)),
        DataInstanceRaw::UInt128(x) => n == 16 && x as nat == be_value(bs.take(16)),
        DataInstanceRaw::Bool(b) => n == 1 && b == (bs[0] != 0),
        DataInstanceRaw::Timestamp(x) => n == 8 && x as int == from_twos_complement(
            be_value(bs.take(8)),
        ),
        DataInstanceRaw::Uuid(x) => n == 16 && x as nat == be_value(bs.take(16)),
        DataInstanceRaw::String(s) => n == 2 + string_len_at(bs) && s@ == decode_utf8(
            bs.subrange(2, n as int),
        ),
    }
}

fn twos_complement_of(t: i64) -> (r: u64)
    ensures
        r as nat == twos_complement(t),
{
    if t >= 0 {
        t as u64
    } else {
        ((t + 0x7fff_ffff_ffff_ffff + 1) as u64) + 0x8000_0000_0000_0000
    }
}

fn from_twos_complement_of(x: u64) -> (r: i64)
    ensures
        r as int == from_twos_complement(x as nat),
{
    if x < 0x8000_0000_0000_0000 {
        x as i64
    } else {
        ((x - 0x8000_0000_0000_0000) as i64) - 0x7fff_ffff_ffff_ffff - 1
    }
}

/// Copies `bytes` into `blob` at `position`.
fn write_bytes(blob: &mut Vec<u8>, position: usize, bytes: &[u8])
    requires
        position + bytes@.len() <= old(blob)@.len(),
    ensures
        final(blob)@ == old(blob)@.take(position as int) + bytes@ + old(blob)@.skip(
            position + bytes@.len(),
        ),
{
    let ghost initial = blob@;
    let len = blob.len();
    let mut i: usize = 0;
    while i < bytes.len()
        invariant
            len == initial.len(),
            blob@.len() == initial.len(),
            position + bytes@.len() <= initial.len(),
            i <= bytes@.len(),
            forall|j: int| 0 <= j < position ==> blob@[j] == initial[j],
            forall|j: int| position <= j < position + i ==> blob@[j] == bytes@[j - position],
            forall|j: int| position + i <= j < initial.len() ==> blob@[j] == initial[j],
        decreases bytes@.len() - i,
    {
        blob.set(position + i, bytes[i]);
        i += 1;
    }
    proof {
        assert(blob@ =~= initial.take(position as int) + bytes@ + initial.skip(
            position + bytes@.len(),
        ));
    }
}

impl DataInstanceRaw {
    /// How many bytes encode this value.
    pub fn encoded_size(&self) -> (r: usize)
        requires
            raw_encodable(*self),
        ensures
            r == raw_encoding(*self).len(),
    {
        proof {
            lemma_raw_encoding_len(*self);
        }
        match self {
            DataInstanceRaw::UInt8(_) => 1,
            DataInstanceRaw::UInt16(_) => 2,
            DataInstanceRaw::UInt32(_) => 4,
            DataInstanceRaw::UInt64(_) => 8,
            DataInstanceRaw::UInt128(_) => 16,
            DataInstanceRaw::Bool(_) => 1,
            DataInstanceRaw::Timestamp(_) => 8,
            DataInstanceRaw::Uuid(_) => 16,
            DataInstanceRaw::String(s) => 2 + s.as_str().len(),
        }
    }

    /// Writes this value at `position`; returns the position just past it.
    pub fn encode(&self, blob: &mut Vec<u8>, position: usize) -> (r: usize)
        requires
            raw_encodable(*self),
            position + raw_encoding(*self).len() <= old(blob)@.len(),
        ensures
            r == position + raw_encoding(*self).len(),
            final(blob)@ == old(blob)@.take(position as int) + raw_encoding(*self) + old(blob)@.skip(
                r as int,
            ),
    {
        let blob_len = blob.len();
        proof {
            lemma_raw_encoding_len(*self);
            lemma_pow256_values();
            assert(position + raw_encoding(*self).len() <= blob_len);
        }
        match self {
            DataInstanceRaw::UInt8(x) => {
                write_be(blob, position, *x as u128, 1);
                proof {
                    lemma_be_bytes_one(*x);
                }
                position + 1
            },
            DataInstanceRaw::UInt16(x) => {
                write_be(blob, position, *x as u128, 2);
                position + 2
            },
            DataInstanceRaw::UInt32(x) => {
                write_be(blob, position, *x as u128, 4);
                position + 4
            },
            DataInstanceRaw::UInt64(x) => {
                write_be(blob, position, *x as u128, 8);
                position + 8
            },
            DataInstanceRaw::UInt128(x) => {
                write_be(blob, position, *x, 16);
                position + 16
            },
            DataInstanceRaw::Bool(b) => {
                let byte: u8 = if *b {
                    1
                } else {
                    0
                };
                write_be(blob, position, byte as u128, 1);
                proof {
                    lemma_be_bytes_one(byte);
                }
                position + 1
            },
            DataInstanceRaw::Timestamp(t) => {
                let bits = twos_complement_of(*t);
                write_be(blob, position, bits as u128, 8);
                position + 8
            },
            DataInstanceRaw::Uuid(x) => {
                write_be(blob, position, *x, 16);
                position + 16
            },
            DataInstanceRaw::String(s) => {
                let bytes = s.as_str().as_bytes();
                let len = bytes.len();
                let ghost before = blob@;
                write_be(blob, position, len as u128, 2);
                let ghost middle = blob@;
                write_bytes(blob, position + 2, bytes);
                proof {
                    lemma_be_bytes_len(len as nat, 2);
                    assert(blob@ =~= before.take(position as int) + raw_encoding(*self)
                        + before.skip(position + 2 + len));
                }
                position + 2 + len
            },
        }
    }

    /// Reads a value of type `assumption` from the front of `blob`; returns it
    /// with the bytes that follow it.
    pub fn try_decode_assume(blob: &[u8], assumption: DataTypeRaw) -> (r: Result<
        (DataInstanceRaw, &[u8]),
        String,
    >)
        ensures
            r is Ok <==> raw_decodable(blob@, assumption),
            r matches Ok((v, rest)) ==> rest@.len() <= blob@.len() && raw_decoded(
                blob@,
                assumption,
                v,
                (blob@.len() - rest@.len()) as nat,
            ) && rest@ == blob@.skip(blob@.len() - rest@.len()),
    {
        let n = blob.len();
        let width: usize = match assumption {
            DataTypeRaw::UInt8 => 1,
            DataTypeRaw::UInt16 => 2,
            DataTypeRaw::UInt32 => 4,
            DataTypeRaw::UInt64 => 8,
            DataTypeRaw::UInt128 => 16,
            DataTypeRaw::Bool => 1,
            DataTypeRaw::Timestamp => 8,
            DataTypeRaw::Uuid => 16,
            DataTypeRaw::String => 2,
        };
        if n < width {
            return Err(String::from_str("Unexpected end of data"));
        }
        let value = read_be(blob, width);
        let rest = &blob[width..n];
        proof {
            assert(rest@ =~= blob@.skip(width as int));
            lemma_be_value_bound(blob@.take(width as int));
            lemma_pow256_values();
        }
        match assumption {
            DataTypeRaw::UInt8 => Ok((DataInstanceRaw::UInt8(value as u8), rest)),
            DataTypeRaw::UInt16 => Ok((DataInstanceRaw::UInt16(value as u16), rest)),
            DataTypeRaw::UInt32 => Ok((DataInstanceRaw::UInt32(value as u32), rest)),
            DataTypeRaw::UInt64 => Ok((DataInstanceRaw::UInt64(value as u64), rest)),
            DataTypeRaw::UInt128 => Ok((DataInstanceRaw::UInt128(value), rest)),
            DataTypeRaw::Bool => Ok((DataInstanceRaw::Bool(value != 0), rest)),
            DataTypeRaw::Uuid => Ok((DataInstanceRaw::Uuid(value), rest)),
            DataTypeRaw::Timestamp => {
                let t = from_twos_complement_of(value as u64);
                if timestamp_in_range(t) {
                    Ok((DataInstanceRaw::Timestamp(t), rest))
                } else {
                    Err(String::from_str("Timestamp out of range"))
                }
            },
            DataTypeRaw::String => {
                let len = value as usize;
                if rest.len() < len {
                    return Err(String::from_str("Unexpected end of data"));
                }
                let bytes = &rest[0..len];
                let after = &rest[len..rest.len()];
                proof {
                    assert(bytes@ =~= blob@.subrange(2, 2 + len));
                    assert(after@ =~= blob@.skip(2 + len));
                }
                match string_from_utf8(bytes) {
                    Some(s) => Ok((DataInstanceRaw::String(s), after)),
                    None => Err(String::from_str("Invalid UTF-8 in string")),
                }
            },
        }
    }
}

pub proof fn lemma_raw_encoding_len(v: DataInstanceRaw)
    ensures
        raw_encoding(v).len() == match v {
            DataInstanceRaw::String(s) => 2 + encode_utf8(s@).len(),
            _ => fixed_width(raw_type_of(v)),
        },
{
    match v {
        DataInstanceRaw::UInt16(x) => lemma_be_bytes_len(x as nat, 2),
        DataInstanceRaw::UInt32(x) => lemma_be_bytes_len(x as nat, 4),
        DataInstanceRaw::UInt64(x) => lemma_be_bytes_len(x as nat, 8),
        DataInstanceRaw::UInt128(x) => lemma_be_bytes_len(x as nat, 16),
        DataInstanceRaw::Timestamp(t) => lemma_be_bytes_len(twos_complement(t), 8),
        DataInstanceRaw::Uuid(x) => lemma_be_bytes_len(x as nat, 16),
        DataInstanceRaw::String(s) => lemma_be_bytes_len(encode_utf8(s@).len(), 2),
        _ => {},
    }
}

/// Bytes that a value of type `t` takes at the front of `bs`.
pub open spec fn raw_decode_len(bs: Seq<u8>, t: DataTypeRaw) -> nat {
    if t == DataTypeRaw::String {
        2 + string_len_at(bs)
    } else {
        fixed_width(t)
    }
}

proof fn lemma_take_of_prefix(a: Seq<u8>, rest: Seq<u8>, k: int)
    requires
        0 <= k <= a.len(),
    ensures
        (a + rest).take(k) == a.take(k),
{
    assert((a + rest).take(k) =~= a.take(k));
}

/// A stored value reads back as itself, taking exactly its encoding, whatever
/// bytes follow it.
pub proof fn lemma_raw_round_trip(v: DataInstanceRaw, rest: Seq<u8>)
    requires
        raw_valid(v),
    ensures
        raw_decodable(raw_encoding(v) + rest, raw_type_of(v)),
        raw_decode_len(raw_encoding(v) + rest, raw_type_of(v)) == raw_encoding(v).len(),
        forall|w: DataInstanceRaw, n: nat|
            #[trigger] raw_decoded(raw_encoding(v) + rest, raw_type_of(v), w, n) ==> raw_same(w, v)
                && n == raw_encoding(v).len(),
{
    let e = raw_encoding(v);
    let bs = e + rest;
    let t = raw_type_of(v);
    lemma_raw_encoding_len(v);
    lemma_pow256_values();
    match v {
        DataInstanceRaw::UInt8(x) => {
            assert(bs[0] == x);
        },
        DataInstanceRaw::UInt16(x) => {
            lemma_take_of_prefix(e, rest, 2);
            assert(e.take(2) =~= e);
            lemma_be_round_trip(x as nat, 2);
        },
        DataInstanceRaw::UInt32(x) => {
            lemma_take_of_prefix(e, rest, 4);
            assert(e.take(4) =~= e);
            lemma_be_round_trip(x as nat, 4);
        },
        DataInstanceRaw::UInt64(x) => {
            lemma_take_of_prefix(e, rest, 8);
            assert(e.take(8) =~= e);
            lemma_be_round_trip(x as nat, 8);
        },
        DataInstanceRaw::UInt128(x) => {
            lemma_take_of_prefix(e, rest, 16);
            assert(e.take(16) =~= e);
            lemma_be_round_trip(x as nat, 16);
        },
        DataInstanceRaw::Bool(b) => {
            assert(bs[0] == e[0]);
        },
        DataInstanceRaw::Timestamp(x) => {
            lemma_take_of_prefix(e, rest, 8);
            assert(e.take(8) =~= e);
            lemma_be_round_trip(twos_complement(x), 8);
            assert forall|w: DataInstanceRaw, n: nat|
                #[trigger] raw_decoded(bs, t, w, n) implies raw_same(w, v) && n == e.len() by {
                if let DataInstanceRaw::Timestamp(y) = w {
                    assert(y as int == x as int);
                }
            }
        },
        DataInstanceRaw::Uuid(x) => {
            lemma_take_of_prefix(e, rest, 16);
            assert(e.take(16) =~= e);
            lemma_be_round_trip(x as nat, 16);
        },
        DataInstanceRaw::String(s) => {
            let u = encode_utf8(s@);
            let l = u.len();
            lemma_be_bytes_len(l, 2);
            assert(bs.take(2) =~= be_bytes(l, 2));
            lemma_be_round_trip(l, 2);
            assert(bs.subrange(2, 2 + l as int) =~= u);
            encode_utf8_valid_utf8(s@);
            encode_utf8_decode_utf8(s@);
        },
    }
}

// ---------------------------------------------------------------------------
// Column values

/// The bytes of a column value: in a nullable column a leading byte, 1 for
/// NULL and 0 before a value; in a non-nullable column the value alone.
pub open spec fn instance_encoding(d: DataInstance) -> Seq<u8> {
    match d {
        DataInstance::Direct(r) => raw_encoding(r),
        DataInstance::Nullable(r) => seq![0u8] + raw_encoding(r),
        DataInstance::Null => seq![1u8],
    }
}

pub open spec fn instance_encodable(d: DataInstance) -> bool {
    match d {
        DataInstance::Direct(r) => raw_encodable(r),
        DataInstance::Nullable(r) => raw_encodable(r),
        DataInstance::Null => true,
    }
}

pub open spec fn instance_valid(d: DataInstance) -> bool {
    match d {
        DataInstance::Direct(r) => raw_valid(r),
        DataInstance::Nullable(r) => raw_valid(r),
        DataInstance::Null => true,
    }
}

pub open spec fn instance_same(a: DataInstance, b: DataInstance) -> bool {
    match (a, b) {
        (DataInstance::Direct(x), DataInstance::Direct(y)) => raw_same(x, y),
        (DataInstance::Nullable(x), DataInstance::Nullable(y)) => raw_same(x, y),
        (DataInstance::Null, DataInstance::Null) => true,
        _ => false,
    }
}

/// Bytes that a value of a column of type `t` takes at the front of `bs`.
pub open spec fn instance_decode_len(bs: Seq<u8>, t: DataType) -> nat {
    if t.is_nullable {
        if bs[0] != 0 {
            1
        } else {
            1 + raw_decode_len(bs.skip(1), t.raw_type)
        }
    } else {
        raw_decode_len(bs, t.raw_type)
    }
}

pub open spec fn instance_decodable(bs: Seq<u8>, t: DataType) -> bool {
    if t.is_nullable {
        bs.len() >= 1 && (bs[0] != 0 || raw_decodable(bs.skip(1), t.raw_type))
    } else {
        raw_decodable(bs, t.raw_type)
    }
}

/// `d` is the value of a column of type `t` read from the front of `bs`.
pub open spec fn instance_decoded(bs: Seq<u8>, t: DataType, d: DataInstance) -> bool {
    if t.is_nullable {
        bs.len() >= 1 && if bs[0] != 0 {
            d == DataInstance::Null
        } else {
            d matches DataInstance::Nullable(r) && raw_decoded(
                bs.skip(1),
                t.raw_type,
                r,
                raw_decode_len(bs.skip(1), t.raw_type),
            )
        }
    } else {
        d matches DataInstance::Direct(r) && raw_decoded(
            bs,
            t.raw_type,
            r,
            raw_decode_len(bs, t.raw_type),
        )
    }
}

proof fn lemma_raw_decoded_len(bs: Seq<u8>, t: DataTypeRaw, v: DataInstanceRaw, n: nat)
    requires
        raw_decoded(bs, t, v, n),
    ensures
        n == raw_decode_len(bs, t),
{
}

impl DataInstance {
    pub fn encoded_size(&self) -> (r: usize)
        requires
            instance_encodable(*self),
        ensures
            r == instance_encoding(*self).len(),
    {
        match self {
            DataInstance::Direct(v) => v.encoded_size(),
            DataInstance::Nullable(v) => {
                proof {
                    lemma_raw_encoding_len(*v);
                }
                1 + v.encoded_size()
            },
            DataInstance::Null => 1,
        }
    }

    /// Writes this value at `position`; returns the position just past it.
    pub fn encode(&self, blob: &mut Vec<u8>, position: usize) -> (r: usize)
        requires
            instance_encodable(*self),
            position + instance_encoding(*self).len() <= old(blob)@.len(),
        ensures
            r == position + instance_encoding(*self).len(),
            final(blob)@ == old(blob)@.take(position as int) + instance_encoding(*self) + old(
                blob,
            )@.skip(r as int),
    {
        let ghost before = blob@;
        let blob_len = blob.len();
        proof {
            assert(position + instance_encoding(*self).len() <= blob_len);
        }
        match self {
            DataInstance::Direct(v) => v.encode(blob, position),
            DataInstance::Nullable(v) => {
                blob.set(position, 0);
                let ghost middle = blob@;
                let r = v.encode(blob, position + 1);
                proof {
                    assert(blob@ =~= before.take(position as int) + instance_encoding(*self)
                        + before.skip(r as int));
                }
                r
            },
            DataInstance::Null => {
                blob.set(position, 1);
                proof {
                    assert(blob@ =~= before.take(position as int) + instance_encoding(*self)
                        + before.skip(position + 1));
                }
                position + 1
            },
        }
    }

    /// Reads the value of a column of type `assumption` from the front of `blob`.
    pub fn try_decode_assume<'b>(blob: &'b [u8], assumption: &DataType) -> (r: Result<
        (DataInstance, &'b [u8]),
        String,
    >)
        ensures
            r is Ok <==> instance_decodable(blob@, *assumption),
            r matches Ok((d, rest)) ==> instance_decoded(blob@, *assumption, d)
                && instance_decode_len(blob@, *assumption) <= blob@.len() && rest@ == blob@.skip(
                instance_decode_len(blob@, *assumption) as int,
            ),
    {
        if assumption.is_nullable {
            if blob.len() == 0 {
                return Err(String::from_str("Unexpected end of data"));
            }
            let tail = &blob[1..blob.len()];
            proof {
                assert(tail@ =~= blob@.skip(1));
            }
            if blob[0] != 0 {
                return Ok((DataInstance::Null, tail));
            }
            match DataInstanceRaw::try_decode_assume(tail, assumption.raw_type) {
                Ok((v, rest)) => {
                    proof {
                        let n = (tail@.len() - rest@.len()) as nat;
                        lemma_raw_decoded_len(tail@, assumption.raw_type, v, n);
                        assert(instance_decode_len(blob@, *assumption) == 1 + n);
                        assert(rest@ == tail@.skip(n as int));
                        assert(tail@.skip(n as int) =~= blob@.skip(1 + n as int));
                    }
                    Ok((DataInstance::Nullable(v), rest))
                },
                Err(e) => Err(e),
            }
        } else {
            match DataInstanceRaw::try_decode_assume(blob, assumption.raw_type) {
                Ok((v, rest)) => {
                    proof {
                        let n = (blob@.len() - rest@.len()) as nat;
                        lemma_raw_decoded_len(blob@, assumption.raw_type, v, n);
                        assert(instance_decode_len(blob@, *assumption) == n);
                    }
                    Ok((DataInstance::Direct(v), rest))
                },
                Err(e) => Err(e),
            }
        }
    }
}

/// A stored column value reads back as itself, taking exactly its encoding.
pub proof fn lemma_instance_round_trip(d: DataInstance, t: DataType, rest: Seq<u8>)
    requires
        conforms(d, t),
        instance_valid(d),
    ensures
        instance_decodable(instance_encoding(d) + rest, t),
        instance_decode_len(instance_encoding(d) + rest, t) == instance_encoding(d).len(),
        forall|w: DataInstance|
            #[trigger] instance_decoded(instance_encoding(d) + rest, t, w) ==> instance_same(w, d),
{
    let bs = instance_encoding(d) + rest;
    match d {
        DataInstance::Direct(r) => {
            lemma_raw_round_trip(r, rest);
            assert forall|w: DataInstance| #[trigger] instance_decoded(bs, t, w) implies instance_same(
                w,
                d,
            ) by {
                if let DataInstance::Direct(x) = w {
                    assert(raw_decoded(raw_encoding(r) + rest, raw_type_of(r), x, raw_decode_len(bs, t.raw_type)));
                }
            }
        },
        DataInstance::Nullable(r) => {
            lemma_raw_round_trip(r, rest);
            assert(bs.skip(1) =~= raw_encoding(r) + rest);
            assert(bs[0] == 0);
            assert forall|w: DataInstance| #[trigger] instance_decoded(bs, t, w) implies instance_same(
                w,
                d,
            ) by {
                if let DataInstance::Nullable(x) = w {
                    assert(raw_decoded(raw_encoding(r) + rest, raw_type_of(r), x, raw_decode_len(bs.skip(1), t.raw_type)));
                }
            }
        },
        DataInstance::Null => {
            assert(bs[0] == 1);
        },
    }
}

// ---------------------------------------------------------------------------
// Rows

/// The values of a row, in the order of the table's columns.
#[derive(Debug, PartialEq, Eq, Clone)]
pub struct Row(pub Vec<DataInstance>);

/// A row is stored as the concatenation of its values, with no header.
pub open spec fn row_encoding(vs: Seq<DataInstance>) -> Seq<u8>
    decreases vs.len(),
{
    if vs.len() == 0 {
        Seq::empty()
    } else {
        row_encoding(vs.drop_last()) + instance_encoding(vs.last())
    }
}

pub open spec fn row_encodable(vs: Seq<DataInstance>) -> bool {
    forall|i: int| 0 <= i < vs.len() ==> instance_encodable(#[trigger] vs[i])
}

/// The values conform to the column types and can be stored and read back.
pub open spec fn row_conforms(vs: Seq<DataInstance>, ts: Seq<DataType>) -> bool {
    &&& vs.len() == ts.len()
    &&& forall|i: int| 0 <= i < vs.len() ==> conforms(#[trigger] vs[i], ts[i]) && instance_valid(vs[i])
}

/// Where the value of column `i` starts when a row of types `ts` is read from `bs`.
pub open spec fn row_offset(bs: Seq<u8>, ts: Seq<DataType>, i: nat) -> nat
    decreases i,
{
    if i == 0 {
        0
    } else {
        let o = row_offset(bs, ts, (i - 1) as nat);
        o + instance_decode_len(bs.skip(o as int), ts[i - 1])
    }
}

/// The first `k` values of a row of types `ts` can be read from `bs`.
pub open spec fn row_decodable_upto(bs: Seq<u8>, ts: Seq<DataType>, k: nat) -> bool
    decreases k,
{
    if k == 0 {
        true
    } else {
        let o = row_offset(bs, ts, (k - 1) as nat);
        &&& row_decodable_upto(bs, ts, (k - 1) as nat)
        &&& o <= bs.len()
        &&& instance_decodable(bs.skip(o as int), ts[k - 1])
        &&& row_offset(bs, ts, k) <= bs.len()
    }
}

proof fn lemma_row_decodable_shrinks(bs: Seq<u8>, ts: Seq<DataType>, a: nat, b: nat)
    requires
        a <= b,
        row_decodable_upto(bs, ts, b),
    ensures
        row_decodable_upto(bs, ts, a),
    decreases b - a,
{
    if a < b {
        lemma_row_decodable_shrinks(bs, ts, a, (b - 1) as nat);
    }
}

/// `vs` are the values of a row of types `ts` read from the front of `bs`.
pub open spec fn row_decoded(bs: Seq<u8>, ts: Seq<DataType>, vs: Seq<DataInstance>) -> bool {
    &&& vs.len() == ts.len()
    &&& forall|i: int|
        0 <= i < ts.len() ==> instance_decoded(
            bs.skip(row_offset(bs, ts, i as nat) as int),
            ts[i],
            #[trigger] vs[i],
        )
}

impl Row {
    pub fn encoded_size(&self) -> (r: usize)
        requires
            row_encodable(self.0@),
            row_encoding(self.0@).len() <= usize::MAX,
        ensures
            r == row_encoding(self.0@).len(),
    {
        let mut total: usize = 0;
        let mut i: usize = 0;
        while i < self.0.len()
            invariant
                i <= self.0@.len(),
                row_encodable(self.0@),
                row_encoding(self.0@).len() <= usize::MAX,
                total == row_encoding(self.0@.take(i as int)).len(),
            decreases self.0@.len() - i,
        {
            proof {
                assert(self.0@.take(i + 1).drop_last() =~= self.0@.take(i as int));
                lemma_row_encoding_prefix(self.0@, i + 1);
            }
            total = total + self.0[i].encoded_size();
            i += 1;
        }
        proof {
            assert(self.0@.take(i as int) =~= self.0@);
        }
        total
    }

    /// Writes the row at `position`; returns the position just past it.
    pub fn encode(&self, blob: &mut Vec<u8>, position: usize) -> (r: usize)
        requires
            row_encodable(self.0@),
            position + row_encoding(self.0@).len() <= old(blob)@.len(),
        ensures
            r == position + row_encoding(self.0@).len(),
            final(blob)@ == old(blob)@.take(position as int) + row_encoding(self.0@) + old(
                blob,
            )@.skip(r as int),
    {
        let ghost initial = blob@;
        let blob_len = blob.len();
        let mut cursor = position;
        let mut i: usize = 0;
        proof {
            assert(self.0@.take(0) =~= Seq::<DataInstance>::empty());
            assert(initial =~= initial.take(position as int) + row_encoding(self.0@.take(0))
                + initial.skip(position as int));
        }
        while i < self.0.len()
            invariant
                i <= self.0@.len(),
                row_encodable(self.0@),
                blob_len == initial.len(),
                position + row_encoding(self.0@).len() <= initial.len(),
                cursor == position + row_encoding(self.0@.take(i as int)).len(),
                blob@ == initial.take(position as int) + row_encoding(self.0@.take(i as int))
                    + initial.skip(cursor as int),
            decreases self.0@.len() - i,
        {
            let ghost before = blob@;
            proof {
                assert(self.0@.take(i + 1).drop_last() =~= self.0@.take(i as int));
                lemma_row_encoding_prefix(self.0@, i + 1);
            }
            let next = self.0[i].encode(blob, cursor);
            proof {
                assert(blob@ =~= initial.take(position as int) + row_encoding(self.0@.take(i + 1))
                    + initial.skip(next as int));
            }
            cursor = next;
            i += 1;
        }
        proof {
            assert(self.0@.take(i as int) =~= self.0@);
        }
        cursor
    }

    /// Writes the row so that it ends at `position`; returns where it starts.
    pub fn encode_back(&self, blob: &mut Vec<u8>, position: usize) -> (r: usize)
        requires
            row_encodable(self.0@),
            row_encoding(self.0@).len() <= position <= old(blob)@.len(),
        ensures
            r == position - row_encoding(self.0@).len(),
            final(blob)@ == old(blob)@.take(r as int) + row_encoding(self.0@) + old(blob)@.skip(
                position as int,
            ),
    {
        let size = self.encoded_size();
        let start = position - size;
        self.encode(blob, start);
        start
    }

    /// Reads a row of the given column types from the front of `blob`.
    pub fn try_decode_assume<'b>(blob: &'b [u8], data_types: &[DataType]) -> (r: Result<
        (Row, &'b [u8]),
        String,
    >)
        ensures
            r is Ok <==> row_decodable_upto(blob@, data_types@, data_types@.len()),
            r matches Ok((row, rest)) ==> row_decoded(blob@, data_types@, row.0@) && rest@
                == blob@.skip(row_offset(blob@, data_types@, data_types@.len()) as int),
    {
        let ghost bs = blob@;
        let ghost ts = data_types@;
        let mut values: Vec<DataInstance> = Vec::new();
        let mut rest = blob;
        let mut i: usize = 0;
        while i < data_types.len()
            invariant
                bs == blob@,
                ts == data_types@,
                i <= ts.len(),
                row_offset(bs, ts, i as nat) <= bs.len(),
                rest@ == bs.skip(row_offset(bs, ts, i as nat) as int),
                row_decodable_upto(bs, ts, i as nat),
                values@.len() == i,
                forall|j: int|
                    0 <= j < i ==> instance_decoded(
                        bs.skip(row_offset(bs, ts, j as nat) as int),
                        ts[j],
                        #[trigger] values@[j],
                    ),
            decreases ts.len() - i,
        {
            let ghost o = row_offset(bs, ts, i as nat);
            match DataInstance::try_decode_assume(rest, &data_types[i]) {
                Ok((value, after)) => {
                    proof {
                        assert(row_offset(bs, ts, (i + 1) as nat) == o + instance_decode_len(
                            rest@,
                            ts[i as int],
                        ));
                        assert(after@ =~= bs.skip(row_offset(bs, ts, (i + 1) as nat) as int));
                        assert(instance_decodable(rest@, ts[i as int]));
                        assert(row_decodable_upto(bs, ts, (i + 1) as nat));
                    }
                    values.push(value);
                    rest = after;
                },
                Err(e) => {
                    proof {
                        assert(!instance_decodable(rest@, ts[i as int]));
                        if row_decodable_upto(bs, ts, ts.len()) {
                            lemma_row_decodable_shrinks(bs, ts, (i + 1) as nat, ts.len());
                        }
                    }
                    return Err(e);
                },
            }
            i += 1;
        }
        Ok((Row(values), rest))
    }
}

/// The encoding of the first `j` values is a prefix of the row's encoding.
pub proof fn lemma_row_encoding_prefix(vs: Seq<DataInstance>, j: int)
    requires
        0 <= j <= vs.len(),
    ensures
        row_encoding(vs.take(j)).len() <= row_encoding(vs).len(),
        row_encoding(vs).take(row_encoding(vs.take(j)).len() as int) == row_encoding(vs.take(j)),
        j > 0 ==> row_encoding(vs.take(j)) == row_encoding(vs.take(j - 1)) + instance_encoding(
            vs[j - 1],
        ),
    decreases vs.len() - j,
{
    if j > 0 {
        assert(vs.take(j).drop_last() =~= vs.take(j - 1));
    }
    if j == vs.len() {
        assert(vs.take(j) =~= vs);
        assert(row_encoding(vs).take(row_encoding(vs).len() as int) =~= row_encoding(vs));
    } else {
        lemma_row_encoding_prefix(vs, j + 1);
        assert(vs.take(j + 1).drop_last() =~= vs.take(j));
        let a = row_encoding(vs.take(j));
        let b = row_encoding(vs.take(j + 1));
        assert(b.take(a.len() as int) =~= a);
        assert(row_encoding(vs).take(a.len() as int) =~= a);
    }
}

proof fn lemma_row_offsets(vs: Seq<DataInstance>, ts: Seq<DataType>, rest: Seq<u8>, i: nat)
    requires
        row_conforms(vs, ts),
        i <= vs.len(),
    ensures
        row_offset(row_encoding(vs) + rest, ts, i) == row_encoding(vs.take(i as int)).len(),
        row_decodable_upto(row_encoding(vs) + rest, ts, i),
    decreases i,
{
    let bs = row_encoding(vs) + rest;
    if i > 0 {
        let j = (i - 1) as nat;
        lemma_row_offsets(vs, ts, rest, j);
        lemma_row_encoding_prefix(vs, i as int);
        lemma_row_encoding_prefix(vs, j as int);
        let a = row_encoding(vs.take(j as int));
        let b = row_encoding(vs.take(i as int));
        let e = instance_encoding(vs[j as int]);
        assert(b == a + e);
        assert(bs.skip(a.len() as int) =~= e + bs.skip(b.len() as int)) by {
            assert(row_encoding(vs).take(b.len() as int) == b);
            assert(bs.take(b.len() as int) =~= b);
            assert(bs =~= b + bs.skip(b.len() as int));
        }
        lemma_instance_round_trip(vs[j as int], ts[j as int], bs.skip(b.len() as int));
    }
}

/// A stored row reads back as itself under its table's column types, taking
/// exactly its encoding, whatever bytes follow it.
pub proof fn lemma_row_round_trip(vs: Seq<DataInstance>, ts: Seq<DataType>, rest: Seq<u8>)
    requires
        row_conforms(vs, ts),
    ensures
        row_decodable_upto(row_encoding(vs) + rest, ts, ts.len()),
        row_offset(row_encoding(vs) + rest, ts, ts.len()) == row_encoding(vs).len(),
        forall|ws: Seq<DataInstance>|
            #[trigger] row_decoded(row_encoding(vs) + rest, ts, ws) ==> forall|i: int|
                0 <= i < vs.len() ==> instance_same(#[trigger] ws[i], vs[i]),
{
    let bs = row_encoding(vs) + rest;
    lemma_row_offsets(vs, ts, rest, ts.len());
    assert(vs.take(vs.len() as int) =~= vs);
    assert forall|ws: Seq<DataInstance>| #[trigger] row_decoded(bs, ts, ws) implies forall|i: int|
        0 <= i < vs.len() ==> instance_same(#[trigger] ws[i], vs[i]) by {
        assert forall|i: int| 0 <= i < vs.len() implies instance_same(#[trigger] ws[i], vs[i]) by {
            lemma_row_offsets(vs, ts, rest, i as nat);
            lemma_row_offsets(vs, ts, rest, (i + 1) as nat);
            lemma_row_encoding_prefix(vs, i + 1);
            let a = row_encoding(vs.take(i));
            let b = row_encoding(vs.take(i + 1));
            assert(bs.skip(a.len() as int) =~= instance_encoding(vs[i]) + bs.skip(b.len() as int)) by {
                lemma_row_encoding_prefix(vs, i);
                assert(row_encoding(vs).take(b.len() as int) == b);
                assert(bs.take(b.len() as int) =~= b);
                assert(bs =~= b + bs.skip(b.len() as int));
            }
            lemma_instance_round_trip(vs[i], ts[i], bs.skip(b.len() as int));
            assert(instance_decoded(bs.skip(row_offset(bs, ts, i as nat) as int), ts[i], ws[i]));
        }
    }
}

} // verus!
