use crate::error::Error;
use crate::model::{
    bound_of, continues, decode, encoding, lemma_value_below, read_len, scan, stops_at, unread,
    value_of,
};
use vstd::arithmetic::power2::{lemma2_to64, lemma_pow2_pos, lemma_pow2_strictly_increases, pow2};
use vstd::bits::{
    lemma_u64_mul_pow2_le_max_iff_max_shr, lemma_u64_pow2_no_overflow, lemma_u64_shl_is_mul,
};
use vstd::prelude::*;

verus! {

/// Appends the LEB128 encoding of `value` to `sink`.
///
/// Appending to a vector cannot fail; the `Result` is the one that writers
/// to fallible sinks return, so that callers handle both alike.
pub fn write(sink: &mut Vec<u8>, value: u64) -> (r: Result<(), Error>)
    ensures
        r is Ok,
        final(sink)@ == old(sink)@ + encoding(value as nat),
{
    let mut v: u64 = value;
    loop
        invariant
            old(sink)@ + encoding(value as nat) == sink@ + encoding(v as nat),
        decreases v,
    {
        let byte: u8 = ((v & 0x7f) | if v > 127 { 0x80 } else { 0 }) as u8;
        assert((v < 128 ==> byte == v) && (v >= 128 ==> byte == v % 128 + 128)) by (bit_vector)
            requires
                byte == ((v & 0x7f) | if v > 127 { 0x80u64 } else { 0u64 }) as u8,
        ;
        proof {
            reveal_with_fuel(encoding, 2);
        }
        sink.push(byte);
        assert(v >> 7 == v / 128) by (bit_vector);
        v = v >> 7;
        if v == 0 {
            return Ok(());
        }
    }
}

/// Placing `chunk` above the bits of `acc` adds it at that weight.
proof fn lemma_or_is_add(acc: u64, chunk: u64, shift: u64)
    requires
        shift < 64,
        acc < pow2(shift as nat),
        chunk * pow2(shift as nat) <= u64::MAX,
    ensures
        acc | (chunk << shift) == acc + chunk * pow2(shift as nat),
{
    lemma_u64_pow2_no_overflow(shift as nat);
    lemma_u64_shl_is_mul(1, shift);
    lemma_u64_shl_is_mul(chunk, shift);
    assert(acc | (chunk << shift) == acc + (chunk << shift)) by (bit_vector)
        requires
            shift < 64,
            acc < (1u64 << shift),
    ;
}

/// Reads one LEB128 value from `bytes`, starting at `*pos`, and moves `*pos`
/// past the bytes read.
///
/// The result is the value, once a byte with its continuation bit clear has
/// been read; `None` if the bytes run out before such a byte; or
/// `ResultTooLarge` as soon as the value read so far is above `upper_bound`
/// (or, with no bound, does not fit in 64 bits). Reading stops at once on
/// either of the last two.
pub fn read(bytes: &[u8], pos: &mut usize, upper_bound: Option<u64>) -> (r: Result<
    Option<u64>,
    Error,
>)
    ensures
        r == decode(unread(bytes@, *old(pos) as int), bound_of(upper_bound)),
        *old(pos) <= bytes.len() ==> *final(pos) == *old(pos) + read_len(
            unread(bytes@, *old(pos) as int),
            bound_of(upper_bound),
        ),
        *old(pos) > bytes.len() ==> *final(pos) == *old(pos),
{
    let max: u64 = match upper_bound {
        Some(m) => m,
        None => u64::MAX,
    };
    if *pos >= bytes.len() {
        proof {
            assert(unread(bytes@, *pos as int).take(0) =~= Seq::<u8>::empty());
        }
        return Ok(None);
    }
    let ghost start: int = *pos as int;
    let ghost s: Seq<u8> = unread(bytes@, start);
    let mut shift: u64 = 0;
    let mut acc: u64 = 0;
    while *pos < bytes.len()
        invariant
            0 <= start <= *pos <= bytes.len(),
            start == *old(pos),
            s == unread(bytes@, start),
            s.len() == bytes.len() - start,
            s == bytes@.subrange(start, bytes.len() as int),
            max == bound_of(upper_bound),
            acc == value_of(s.take(*pos - start)),
            acc <= max,
            shift == if *pos - start < 10 { 7 * (*pos - start) } else { 70 },
            read_len(s, max) == scan(s, max, (*pos - start) as nat),
            *pos - start > 0 ==> continues(s[*pos - start - 1]),
        decreases bytes.len() - *pos,
    {
        let ghost k: int = *pos - start;
        let ghost t: Seq<u8> = s.take(k + 1);
        let byte: u8 = bytes[*pos];
        let chunk: u64 = (byte & 0x7f) as u64;
        *pos = *pos + 1;
        proof {
            assert(chunk == byte % 128) by (bit_vector)
                requires
                    chunk == (byte & 0x7f) as u64,
            ;
            assert(t.drop_last() =~= s.take(k));
            assert(t.last() == byte);
            assert(value_of(t) == acc + chunk * pow2((7 * k) as nat));
            lemma_value_below(s.take(k));
            lemma_pow2_pos((7 * k) as nat);
        }
        if chunk != 0 && (shift >= 64 || chunk > u64::MAX >> shift) {
            proof {
                if shift >= 64 {
                    lemma2_to64();
                    lemma_pow2_strictly_increases(64, (7 * k) as nat);
                    assert(chunk * pow2((7 * k) as nat) >= pow2((7 * k) as nat)) by (nonlinear_arith)
                        requires
                            chunk >= 1,
                    ;
                } else {
                    lemma_u64_mul_pow2_le_max_iff_max_shr(chunk, shift, u64::MAX);
                }
                assert(stops_at(s, max, k));
            }
            return Err(Error::ResultTooLarge);
        }
        if shift < 64 {
            proof {
                lemma_u64_mul_pow2_le_max_iff_max_shr(chunk, shift, u64::MAX);
                lemma_or_is_add(acc, chunk, shift);
            }
            acc = acc | (chunk << shift);
        }
        if acc > max {
            return Err(Error::ResultTooLarge);
        }
        if shift < 64 {
            shift = shift + 7;
        }
        if byte & 0x80 == 0 {
            proof {
                assert(byte & 0x80 == 0 ==> byte < 128) by (bit_vector);
            }
            return Ok(Some(acc));
        }
        proof {
            assert(byte & 0x80 != 0 ==> byte >= 128) by (bit_vector);
        }
    }
    proof {
        assert(s.take(s.len() as int) =~= s);
    }
    Ok(None)
}

} // verus!
