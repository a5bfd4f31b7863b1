//! The bytes of an index: numbers, nodes and the header.
use crate::index::error::{format_fault, ErrorView, IndexError};
use vstd::prelude::*;

verus! {

/// The length of the header.
pub const HEADER_LEN: usize = 64;

/// The header flag of an index whose prefixes are results.
pub const FLAG_IMPLICIT_PREFIXES: u32 = 1;

/// The version of the format.
pub const INDEX_VERSION: u16 = 2;

/// A number in groups of seven bits, the lowest first, each but the last
/// marked by the high bit.
pub open spec fn varint(v: nat) -> Seq<u8>
    decreases v,
{
    if v < 128 {
        seq![v as u8]
    } else {
        seq![(128 + v % 128) as u8] + varint(v / 128)
    }
}

/// Reads the rest of a number whose first `index` bytes gave `value`.
pub open spec fn varint_from(
    data: Seq<u8>,
    start: int,
    index: int,
    value: nat,
    scale: nat,
) -> Result<(nat, int), ErrorView>
    decreases 10 - index,
{
    let at = start + index;
    if index >= 10 {
        Err(format_fault(start as usize, "varint is longer than ten bytes"@))
    } else if at >= data.len() {
        Err(format_fault(start as usize, "truncated varint"@))
    } else {
        let byte = data[at] as nat;
        let next = value + (byte % 128) * scale;
        if index == 9 && byte > 1 {
            Err(format_fault(start as usize, "varint overflows u64"@))
        } else if byte >= 128 {
            varint_from(data, start, index + 1, next, scale * 128)
        } else if index > 0 && byte == 0 {
            Err(format_fault(start as usize, "non-canonical varint"@))
        } else {
            Ok((next, at + 1))
        }
    }
}

/// The number at `start`, with the place behind it.
pub open spec fn varint_at(data: Seq<u8>, start: int) -> Result<(nat, int), ErrorView> {
    varint_from(data, start, 0, 0, 1)
}

/// A power of 128.
pub open spec fn pow128(i: int) -> nat
    decreases i,
{
    if i <= 0 {
        1
    } else {
        pow128(i - 1) * 128
    }
}

proof fn lemma_pow128()
    ensures
        pow128(0) == 1,
        pow128(9) == 0x8000_0000_0000_0000,
        forall|i: int| 0 <= i < 9 ==> #[trigger] pow128(i) * 128 <= 0x8000_0000_0000_0000,
{
    reveal_with_fuel(pow128, 11);
}

/// Whatever stands behind it, a number reads back as it was written.
pub proof fn lemma_varint_from(
    data: Seq<u8>,
    start: int,
    index: int,
    value: nat,
    v: nat,
)
    requires
        0 <= index < 10,
        0 <= start,
        index > 0 ==> v > 0,
        v * pow128(index) < 0x1_0000_0000_0000_0000,
        start + index + varint(v).len() <= data.len(),
        data.subrange(start + index, start + index + varint(v).len()) == varint(v),
    ensures
        varint_from(data, start, index, value, pow128(index)) == Ok::<(nat, int), ErrorView>(
            ((value + v * pow128(index)) as nat, start + index + varint(v).len()),
        ),
    decreases v,
{
    lemma_pow128();
    let scale = pow128(index);
    let bytes = varint(v);
    let at = start + index;
    assert(data[at] == bytes[0]) by {
        assert(data.subrange(at, at + bytes.len())[0] == data[at]);
    }
    if v < 128 {
        assert(bytes.len() == 1);
        if index == 9 {
            assert(v <= 1) by (nonlinear_arith)
                requires
                    v * scale < 0x1_0000_0000_0000_0000,
                    scale == 0x8000_0000_0000_0000,
            ;
        }
        assert((bytes[0] as nat) % 128 == v);
    } else {
        let high = v / 128;
        let low = v % 128;
        assert(v == high * 128 + low);
        if index == 9 {
            assert(false) by (nonlinear_arith)
                requires
                    v * scale < 0x1_0000_0000_0000_0000,
                    scale == 0x8000_0000_0000_0000,
                    v >= 128,
            ;
        }
        assert(pow128(index + 1) == scale * 128);
        assert(high * (scale * 128) <= v * scale) by (nonlinear_arith)
            requires
                v == high * 128 + low,
                scale >= 0,
                low >= 0,
        ;
        let rest = varint(high);
        assert(bytes =~= seq![(128 + low) as u8] + rest);
        assert(data.subrange(at + 1, at + 1 + rest.len()) =~= rest) by {
            assert forall|k: int| 0 <= k < rest.len() implies data.subrange(
                at + 1,
                at + 1 + rest.len(),
            )[k] == rest[k] by {
                assert(data.subrange(at, at + bytes.len())[k + 1] == bytes[k + 1]);
            }
        }
        let byte = data[at] as nat;
        assert(byte == 128 + low);
        assert(byte % 128 == low);
        let next = value + low * scale;
        lemma_varint_from(data, start, index + 1, next, high);
        assert(next + high * (scale * 128) == value + v * scale) by (nonlinear_arith)
            requires
                next == value + low * scale,
                v == high * 128 + low,
        ;
    }
}

/// Whatever stands around it, a number reads back as it was written.
pub proof fn lemma_varint_at(data: Seq<u8>, start: int, v: u64)
    requires
        0 <= start,
        start + varint(v as nat).len() <= data.len(),
        data.subrange(start, start + varint(v as nat).len()) == varint(v as nat),
    ensures
        varint_at(data, start) == Ok::<(nat, int), ErrorView>(
            (v as nat, start + varint(v as nat).len()),
        ),
{
    lemma_pow128();
    lemma_varint_from(data, start, 0, 0, v as nat);
}

pub proof fn lemma_varint_len(v: nat)
    ensures
        varint(v).len() >= 1,
    decreases v,
{
    if v >= 128 {
        lemma_varint_len(v / 128);
    }
}

/// What a successful read says: the place moves on, and the bytes are the
/// number's own.
pub proof fn lemma_varint_from_ok(data: Seq<u8>, start: int, index: int, value: nat)
    requires
        0 <= index <= 10,
        0 <= start,
        value < pow128(index),
        varint_from(data, start, index, value, pow128(index)) is Ok,
    ensures
        ({
            let (v, next) = varint_from(data, start, index, value, pow128(index))->Ok_0;
            &&& start + index < next <= data.len()
            &&& value <= v <= u64::MAX
            &&& next <= start + 10
            &&& v % pow128(index) == value
            &&& data.subrange(start + index, next) == varint(v / pow128(index))
            &&& index > 0 ==> v / pow128(index) > 0
        }),
    decreases 10 - index,
{
    lemma_pow128();
    let scale = pow128(index);
    let at = start + index;
    let byte = data[at] as nat;
    let low = byte % 128;
    let next_value = value + low * scale;
    let (v, next) = varint_from(data, start, index, value, scale)->Ok_0;
    assert(low * scale <= 127 * scale) by (nonlinear_arith)
        requires
            low <= 127,
            scale >= 0,
    ;
    if byte >= 128 {
        assert(index < 9);
        assert(pow128(index + 1) == scale * 128);
        lemma_varint_from_ok(data, start, index + 1, next_value);
        let big = scale * 128;
        let high = v / big;
        assert(v == high * big + next_value) by {
            vstd::arithmetic::div_mod::lemma_fundamental_div_mod(v as int, big as int);
            assert(big * high == high * big) by (nonlinear_arith);
        }
        assert(v == (high * 128 + low) * scale + value) by (nonlinear_arith)
            requires
                v == high * big + next_value,
                big == scale * 128,
                next_value == value + low * scale,
        ;
        vstd::arithmetic::div_mod::lemma_fundamental_div_mod_converse(
            v as int,
            scale as int,
            (high * 128 + low) as int,
            value as int,
        );
        let q = high * 128 + low;
        assert(v / scale == q);
        assert(q >= 128);
        assert(q / 128 == high && q % 128 == low);
        assert(data.subrange(at, next) =~= seq![data[at]] + data.subrange(at + 1, next));
        assert(data[at] == (128 + q % 128) as u8);
    } else {
        assert(v == low * scale + value);
        vstd::arithmetic::div_mod::lemma_fundamental_div_mod_converse(
            v as int,
            scale as int,
            low as int,
            value as int,
        );
        assert(data.subrange(at, next) =~= seq![data[at]]);
        if index == 9 {
            assert(low * scale <= scale) by (nonlinear_arith)
                requires
                    low <= 1,
                    scale >= 0,
            ;
        } else {
            assert(low * scale + value < scale * 128) by (nonlinear_arith)
                requires
                    low <= 127,
                    value < scale,
            ;
        }
    }
}

/// A number is read only from the bytes that write it.
pub proof fn lemma_varint_at_ok(data: Seq<u8>, start: int)
    requires
        0 <= start,
        varint_at(data, start) is Ok,
    ensures
        ({
            let (v, next) = varint_at(data, start)->Ok_0;
            &&& start < next <= data.len()
            &&& next <= start + 10
            &&& v <= u64::MAX
            &&& data.subrange(start, next) == varint(v)
        }),
{
    lemma_pow128();
    lemma_varint_from_ok(data, start, 0, 0);
    let (v, next) = varint_at(data, start)->Ok_0;
    assert(v / 1 == v);
}

/// Writes a number.
pub(crate) fn write_varint(out: &mut Vec<u8>, value: u64)
    ensures
        final(out)@ == old(out)@ + varint(value as nat),
{
    let mut left: u64 = value;
    while left >= 128
        invariant
            out@ + varint(left as nat) == old(out)@ + varint(value as nat),
        decreases left,
    {
        let ghost before = out@;
        let byte: u8 = (128 + left % 128) as u8;
        out.push(byte);
        proof {
            let rest = varint((left / 128) as nat);
            assert(varint(left as nat) == seq![byte] + rest);
            assert(before + (seq![byte] + rest) =~= out@ + rest);
        }
        left = left / 128;
    }
    let ghost before = out@;
    out.push(left as u8);
    proof {
        assert(out@ =~= before + varint(left as nat));
    }
}

/// Reads a number.
pub(crate) fn read_varint(data: &[u8], start: usize) -> (r: Result<(u64, usize), IndexError>)
    ensures
        match (varint_at(data@, start as int), r) {
            (Ok((v, next)), Ok((w, end))) => v == w && next == end,
            (Err(e), Err(f)) => e == f@,
            _ => false,
        },
        r matches Ok((w, end)) ==> start < end <= data@.len(),
{
    let mut value: u64 = 0;
    let mut scale: u64 = 1;
    let mut index: usize = 0;
    proof {
        lemma_pow128();
    }
    while index < 10
        invariant
            0 <= index <= 10,
            start + index <= data@.len() || index == 0,
            index < 10 ==> scale == pow128(index as int),
            index < 10 ==> value < scale,
            index < 10,
            varint_at(data@, start as int) == varint_from(
                data@,
                start as int,
                index as int,
                value as nat,
                scale as nat,
            ),
        decreases 10 - index,
    {
        proof {
            lemma_pow128();
        }
        if start >= data.len() || index >= data.len() - start {
            return Err(IndexError::format(start, "truncated varint"));
        }
        let byte: u8 = data[start + index];
        if index == 9 && byte > 1 {
            return Err(IndexError::format(start, "varint overflows u64"));
        }
        let low: u64 = (byte % 128) as u64;
        proof {
            if index == 9 {
                assert(low * scale <= scale) by (nonlinear_arith)
                    requires
                        low <= 1,
                        scale >= 0,
                ;
            } else {
                assert(low * scale + value < scale * 128) by (nonlinear_arith)
                    requires
                        low <= 127,
                        value < scale,
                ;
                assert(low * scale >= 0) by (nonlinear_arith)
                    requires
                        low >= 0,
                        scale >= 0,
                ;
            }
        }
        let next: u64 = value + low * scale;
        if byte < 128 {
            if index > 0 && byte == 0 {
                return Err(IndexError::format(start, "non-canonical varint"));
            }
            return Ok((next, start + index + 1));
        }
        value = next;
        scale = scale * 128;
        index += 1;
    }
    Err(IndexError::format(start, "varint is longer than ten bytes"))
}

} // verus!
