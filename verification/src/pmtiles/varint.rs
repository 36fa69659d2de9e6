//! Unsigned LEB128 integers, as they stand in archive directories.
use vstd::prelude::*;

verus! {

/// Why a variable-length integer could not be read.
#[derive(Debug, Clone, Copy, PartialEq, Eq, Structural)]
pub enum VarintError {
    /// The buffer ends before the last byte of the integer.
    Truncated,
    /// Ten bytes were read and the tenth still announces another one.
    TooLong,
}

/// The LEB128 form of a number: seven bits a byte, lowest first, the high bit
/// set on every byte but the last.
pub open spec fn varint(value: nat) -> Seq<u8>
    decreases value,
{
    if value < 128 {
        seq![value as u8]
    } else {
        seq![(value % 128 + 128) as u8] + varint(value / 128)
    }
}

/// The number that the low seven bits of the bytes spell, lowest byte first.
pub open spec fn septets(bytes: Seq<u8>) -> nat
    decreases bytes.len(),
{
    if bytes.len() == 0 {
        0
    } else {
        (bytes[0] % 128) as nat + 128 * septets(bytes.drop_first())
    }
}

/// How many of the leading bytes announce another one.
pub open spec fn continued(bytes: Seq<u8>) -> nat
    decreases bytes.len(),
{
    if bytes.len() == 0 || bytes[0] < 128 {
        0
    } else {
        1 + continued(bytes.drop_first())
    }
}

/// What reading one integer from the front of `bytes` gives: the value and the
/// number of bytes it took. A tenth byte contributes its lowest bit only.
pub open spec fn varint_at(bytes: Seq<u8>) -> Result<(u64, nat), VarintError> {
    let n = continued(bytes);
    if n >= 10 {
        Err(VarintError::TooLong)
    } else if n >= bytes.len() {
        Err(VarintError::Truncated)
    } else {
        Ok(((septets(bytes.take(n as int + 1)) % 0x1_0000_0000_0000_0000) as u64, n + 1))
    }
}

/// `varint_at` from a position; a position past the end reads as truncated.
pub open spec fn varint_from(bytes: Seq<u8>, pos: int) -> Result<(u64, nat), VarintError> {
    if pos < bytes.len() {
        varint_at(bytes.skip(pos))
    } else {
        Err(VarintError::Truncated)
    }
}

/// How far a failed read moves the position: over the bytes it has looked at.
pub open spec fn bytes_tried(bytes: Seq<u8>, pos: int) -> nat {
    if pos < bytes.len() {
        let n = continued(bytes.skip(pos));
        if n < 10 { n } else { 10 }
    } else {
        0
    }
}

/// Append the LEB128 form of `value`.
pub fn write_varint(out: &mut Vec<u8>, value: u64)
    ensures
        final(out)@ == old(out)@ + varint(value as nat),
{
    let mut rest: u64 = value;
    while rest >= 0x80
        invariant
            out@ + varint(rest as nat) == old(out)@ + varint(value as nat),
        decreases rest,
    {
        let ghost before = out@;
        let byte: u8 = (rest as u8) | 0x80;
        proof {
            let r = rest;
            assert(((r as u8) | 0x80u8) == ((r % 128) + 128) as u8) by (bit_vector);
            assert(r >> 7 == r / 128) by (bit_vector);
        }
        out.push(byte);
        rest = rest >> 7;
        proof {
            assert(before.push(byte) =~= before + seq![byte]);
            assert(before.push(byte) + varint(rest as nat) =~= before + (seq![byte] + varint(
                rest as nat,
            )));
        }
    }
    let ghost before = out@;
    out.push(rest as u8);
    proof {
        assert(before.push(rest as u8) =~= before + seq![rest as u8]);
    }
}

/// Read one integer at `pos` and move `pos` behind it.
pub fn read_varint(buf: &[u8], pos: &mut usize) -> (res: Result<u64, VarintError>)
    ensures
        match varint_from(buf@, *old(pos) as int) {
            Ok((value, used)) => res == Ok::<u64, VarintError>(value) && *final(pos) == *old(pos)
                + used && *final(pos) <= buf@.len(),
            Err(e) => res == Err::<u64, VarintError>(e) && *final(pos) == *old(pos) + bytes_tried(
                buf@,
                *old(pos) as int,
            ),
        },
{
    let mut result: u64 = 0;
    let mut shift: u32 = 0;
    let ghost start = *pos as int;
    let ghost all = buf@.skip(start);
    let ghost mut k: nat = 0;
    proof {
        assert(start < buf@.len() ==> all.skip(0) =~= all);
        assert(all.take(0) =~= Seq::<u8>::empty());
    }
    loop
        invariant
            start == *old(pos),
            all == buf@.skip(start),
            *pos == start + k,
            shift == 7 * k,
            k <= 9,
            k > 0 ==> start + k <= buf@.len(),
            k > 0 ==> k <= all.len(),
            k <= continued(all) || k == 0,
            start + k <= buf@.len() ==> continued(all) == k + continued(all.skip(k as int)),
            start < buf@.len() ==> result == septets(all.take(k as int)),
            k == 0 ==> result == 0,
            result < pow128(k),
        decreases 10 - k,
    {
        if *pos >= buf.len() {
            proof {
                if start < buf@.len() {
                    assert(all.skip(k as int).len() == 0);
                }
            }
            return Err(VarintError::Truncated);
        }
        let byte: u8 = buf[*pos];
        *pos = *pos + 1;
        let ghost before = result;
        let part: u64 = ((byte & 0x7f) as u64) << shift;
        proof {
            assert(all[k as int] == byte);
            assert(all.skip(k as int)[0] == byte);
            assert(all.skip(k as int).drop_first() =~= all.skip(k as int + 1));
            assert(all.take(k as int + 1).drop_last() =~= all.take(k as int));
            lemma_septets_push(all.take(k as int + 1));
            lemma_septet_or(before, byte, shift, k);
        }
        result = result | part;
        if byte & 0x80 == 0 {
            proof {
                assert((byte & 0x80 == 0) ==> byte < 128) by (bit_vector);
                assert(continued(all) == k);
            }
            return Ok(result);
        }
        proof {
            assert((byte & 0x80 != 0) ==> byte >= 128) by (bit_vector);
            assert(continued(all.skip(k as int)) == 1 + continued(all.skip(k as int + 1)));
        }
        shift = shift + 7;
        if shift > 63 {
            return Err(VarintError::TooLong);
        }
        proof {
            lemma_septets_bound(all.take(k as int + 1));
            lemma_pow128_table();
            k = k + 1;
        }
    }
}

/// Powers of 128.
pub open spec fn pow128(k: nat) -> nat
    decreases k,
{
    if k == 0 {
        1
    } else {
        128 * pow128((k - 1) as nat)
    }
}

/// The powers that the digits of an integer stand for.
pub proof fn lemma_pow128_table()
    ensures
        pow128(0) == 1,
        pow128(1) == 0x80,
        pow128(2) == 0x4000,
        pow128(3) == 0x20_0000,
        pow128(4) == 0x1000_0000,
        pow128(5) == 0x8_0000_0000,
        pow128(6) == 0x400_0000_0000,
        pow128(7) == 0x2_0000_0000_0000,
        pow128(8) == 0x100_0000_0000_0000,
        pow128(9) == 0x8000_0000_0000_0000,
{
    reveal_with_fuel(pow128, 11);
}

proof fn lemma_septets_push(bytes: Seq<u8>)
    requires
        bytes.len() > 0,
    ensures
        septets(bytes) == septets(bytes.drop_last()) + pow128((bytes.len() - 1) as nat) * (
        bytes.last() % 128),
    decreases bytes.len(),
{
    let n = (bytes.len() - 1) as nat;
    if n == 0 {
        assert(bytes.drop_first().len() == 0);
        assert(septets(bytes.drop_last()) == 0);
        assert(septets(bytes.drop_first()) == 0);
        assert(pow128(0) == 1);
    } else {
        lemma_septets_push(bytes.drop_first());
        assert(bytes.drop_first().drop_last() =~= bytes.drop_last().drop_first());
        let tail = septets(bytes.drop_last().drop_first());
        let last = (bytes.last() % 128) as nat;
        let p = pow128((n - 1) as nat);
        assert(pow128(n) == 128 * p);
        assert(bytes.drop_last()[0] == bytes[0]);
        assert(bytes.drop_first().last() == bytes.last());
        assert(128 * (tail + p * last) == 128 * tail + (128 * p) * last) by (nonlinear_arith);
    }
}

proof fn lemma_septets_bound(bytes: Seq<u8>)
    ensures
        septets(bytes) < pow128(bytes.len()),
    decreases bytes.len(),
{
    if bytes.len() > 0 {
        lemma_septets_bound(bytes.drop_first());
    }
}

/// Joining the next seven bits with `|` adds them, modulo the word size.
proof fn lemma_septet_or(before: u64, byte: u8, shift: u32, k: nat)
    requires
        k <= 9,
        shift == 7 * k,
        before < pow128(k),
    ensures
        before | (((byte & 0x7f) as u64) << shift) == (before + pow128(k) * (byte % 128))
            % 0x1_0000_0000_0000_0000,
{
    lemma_pow128_table();
    let b = (byte & 0x7f) as u64;
    assert(byte & 0x7f == byte % 128) by (bit_vector);
    assert(b < 128);
    let p: u64 = 1u64 << shift;
    assert(shift <= 63);
    if k < 9 {
        assert(shift <= 56);
        assert(before < p && p == pow128(k)) by {
            assert(1u64 << 0u32 == 1 && 1u64 << 7u32 == 0x80 && 1u64 << 14u32 == 0x4000
                && 1u64 << 21u32 == 0x20_0000 && 1u64 << 28u32 == 0x1000_0000 && 1u64 << 35u32
                == 0x8_0000_0000 && 1u64 << 42u32 == 0x400_0000_0000 && 1u64 << 49u32
                == 0x2_0000_0000_0000 && 1u64 << 56u32 == 0x100_0000_0000_0000) by (bit_vector);
        }
        assert(before | (b << shift) == before + b * p && b * p <= 0x7f00_0000_0000_0000
            && b * p + before <= 0xffff_ffff_ffff_ffff) by (bit_vector)
            requires
                shift <= 56,
                p == 1u64 << shift,
                before < p,
                b < 128,
        ;
        assert(b * p == p * b) by (nonlinear_arith);
    } else {
        assert(before < 0x8000_0000_0000_0000);
        assert(before | (b << 63u32) == before + (b & 1) * 0x8000_0000_0000_0000 && b & 1 == b % 2)
            by (bit_vector)
            requires
                before < 0x8000_0000_0000_0000,
                b < 128,
        ;
        let bi = b as int;
        assert((before + 0x8000_0000_0000_0000 * bi) % 0x1_0000_0000_0000_0000 == before + (bi % 2)
            * 0x8000_0000_0000_0000) by {
            vstd::arithmetic::div_mod::lemma_fundamental_div_mod(bi, 2);
            vstd::arithmetic::div_mod::lemma_fundamental_div_mod_converse(
                before + 0x8000_0000_0000_0000 * bi,
                0x1_0000_0000_0000_0000,
                bi / 2,
                before + (bi % 2) * 0x8000_0000_0000_0000,
            );
        }
    }
}

/// What is written is what is read: an integer followed by anything reads back
/// as itself and takes exactly its own bytes.
pub proof fn lemma_varint_round_trip(value: u64, tail: Seq<u8>)
    ensures
        varint_at(varint(value as nat) + tail) == Ok::<(u64, nat), VarintError>(
            (value, varint(value as nat).len()),
        ),
        1 <= varint(value as nat).len() <= 10,
{
    lemma_pow128_table();
    lemma_varint_shape(value as nat, 9, tail);
    let bytes = varint(value as nat) + tail;
    assert(bytes.take(varint(value as nat).len() as int) =~= varint(value as nat));
}

proof fn lemma_varint_shape(value: nat, k: nat, tail: Seq<u8>)
    requires
        value < 128 * pow128(k),
    ensures
        1 <= varint(value).len() <= k + 1,
        continued(varint(value) + tail) == varint(value).len() - 1,
        septets(varint(value)) == value,
    decreases k,
{
    let v = varint(value);
    if value < 128 {
        assert((v + tail)[0] == value as u8);
        assert(v.drop_first().len() == 0);
        assert(septets(v.drop_first()) == 0);
    } else {
        assert(k > 0) by {
            if k == 0 {
                lemma_pow128_table();
            }
        }
        lemma_varint_shape(value / 128, (k - 1) as nat, tail);
        assert((v + tail)[0] == (value % 128 + 128) as u8);
        assert((v + tail).drop_first() =~= varint(value / 128) + tail);
        assert(v.drop_first() =~= varint(value / 128));
    }
}

/// An integer that can be read from some bytes can be read in the same way from as
/// many of them as hold it, and from fewer it cannot.
pub proof fn lemma_varint_of_prefix(bytes: Seq<u8>, pos: nat, k: nat)
    requires
        k <= bytes.len(),
        varint_from(bytes, pos as int) is Ok,
    ensures
        varint_from(bytes, pos as int) matches Ok((value, used)) ==> varint_from(
            bytes.take(k as int),
            pos as int,
        ) == if pos + used <= k {
            Ok::<(u64, nat), VarintError>((value, used))
        } else {
            Err::<(u64, nat), VarintError>(VarintError::Truncated)
        },
{
    if pos < k {
        let all = bytes.skip(pos as int);
        let some = all.take(k - pos);
        let n = continued(all) as int;
        assert(bytes.take(k as int).skip(pos as int) =~= some);
        lemma_continued_of_prefix(all, (k - pos) as nat);
        if n < k - pos {
            assert(some.take(n + 1) =~= all.take(n + 1));
        }
    }
}

proof fn lemma_continued_of_prefix(bytes: Seq<u8>, k: nat)
    requires
        k <= bytes.len(),
    ensures
        continued(bytes.take(k as int)) == if continued(bytes) < k {
            continued(bytes)
        } else {
            k
        },
    decreases k,
{
    let some = bytes.take(k as int);
    if k > 0 && bytes[0] >= 128 {
        lemma_continued_of_prefix(bytes.drop_first(), (k - 1) as nat);
        assert(some.drop_first() =~= bytes.drop_first().take(k - 1));
    }
}

/// An integer is written seven bits at a time, the lowest first; a byte of 128 or
/// more announces another one.
pub proof fn lemma_varint_goes_by_sevens(n: nat, d: nat)
    requires
        d < 128,
    ensures
        varint(d).len() == 1,
        varint(d)[0] == d,
        n > 0 ==> varint(128 * n + d).len() == varint(n).len() + 1,
        n > 0 ==> varint(128 * n + d)[0] == d + 128,
        n > 0 ==> varint(128 * n + d).skip(1) == varint(n),
{
    if n > 0 {
        assert((128 * n + d) / 128 == n && (128 * n + d) % 128 == d);
        assert(varint(128 * n + d).skip(1) =~= varint(n));
    }
}

} // verus!
