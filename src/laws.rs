//! What holds of `write` and `read` together, stated over the model that
//! their contracts use.
use crate::error::Error;
use crate::model::{
    bound_of, continues, decode, encoding, lemma_encoding_shape, lemma_prefix_at_most,
    read_len, scan, stops_at, value_of,
};
use vstd::arithmetic::power2::{lemma2_to64, lemma_pow2_strictly_increases, pow2};
use vstd::prelude::*;

verus! {

/// Reading from byte `i` of an encoding (with anything after it), the
/// decoder stops within the encoding, and where it stops before its end the
/// value read is above the bound.
proof fn lemma_scan_encoding(v: u64, tail: Seq<u8>, max: u64, i: nat)
    requires
        i < encoding(v as nat).len(),
    ensures
        i < scan(encoding(v as nat) + tail, max, i) <= encoding(v as nat).len(),
        scan(encoding(v as nat) + tail, max, i) == encoding(v as nat).len() || value_of(
            (encoding(v as nat) + tail).take(scan(encoding(v as nat) + tail, max, i) as int),
        ) > max,
    decreases encoding(v as nat).len() - i,
{
    let e = encoding(v as nat);
    let s = e + tail;
    lemma_encoding_shape(v as nat);
    assert(s.take(i + 1 as int) =~= e.take(i + 1 as int));
    assert(s[i as int] == e[i as int]);
    if !stops_at(s, max, i as int) {
        lemma_scan_encoding(v, tail, max, i + 1);
    }
}

/// With a bound at or above `v`, decoding the encoding of `v` (and whatever
/// follows it) gives `v` back and reads exactly the encoding's bytes.
pub proof fn law_bound_accepts(v: u64, bound: u64, tail: Seq<u8>)
    requires
        v <= bound,
    ensures
        decode(encoding(v as nat) + tail, bound) == Ok::<Option<u64>, Error>(Some(v)),
        read_len(encoding(v as nat) + tail, bound) == encoding(v as nat).len(),
{
    let e = encoding(v as nat);
    let s = e + tail;
    lemma_encoding_shape(v as nat);
    lemma_scan_encoding(v, tail, bound, 0);
    let n = read_len(s, bound);
    if n < e.len() {
        lemma_prefix_at_most(e, n as int);
        assert(s.take(n as int) =~= e.take(n as int));
    }
    assert(s.take(e.len() as int) =~= e);
}

/// Decoding the encoding of any `v` with no bound gives `v` back, reading
/// exactly the encoding's bytes.
pub proof fn law_round_trip(v: u64, tail: Seq<u8>)
    ensures
        decode(encoding(v as nat) + tail, bound_of(None)) == Ok::<Option<u64>, Error>(Some(v)),
        read_len(encoding(v as nat) + tail, bound_of(None)) == encoding(v as nat).len(),
{
    law_bound_accepts(v, u64::MAX, tail);
}

/// With a bound below `v`, decoding the encoding of `v` fails with
/// `ResultTooLarge`.
pub proof fn law_bound_rejects(v: u64, bound: u64, tail: Seq<u8>)
    requires
        v > bound,
    ensures
        decode(encoding(v as nat) + tail, bound) == Err::<Option<u64>, Error>(
            Error::ResultTooLarge,
        ),
{
    let e = encoding(v as nat);
    let s = e + tail;
    lemma_encoding_shape(v as nat);
    lemma_scan_encoding(v, tail, bound, 0);
    assert(s.take(e.len() as int) =~= e);
}

/// The encoding of `v` has the fewest bytes that can hold `v` at seven bits
/// a byte (one for zero, at most ten), so it carries no needless trailing
/// continuation bytes, and decoding it reads all of it.
pub proof fn law_minimal(v: u64)
    ensures
        1 <= encoding(v as nat).len() <= 10,
        v < pow2((7 * encoding(v as nat).len()) as nat),
        encoding(v as nat).len() > 1 ==> pow2((7 * (encoding(v as nat).len() - 1)) as nat) <= v,
        read_len(encoding(v as nat), bound_of(None)) == encoding(v as nat).len(),
{
    let e = encoding(v as nat);
    lemma_encoding_shape(v as nat);
    if e.len() > 10 {
        lemma2_to64();
        lemma_pow2_strictly_increases(64, (7 * (e.len() - 1)) as nat);
    }
    law_round_trip(v, Seq::empty());
    assert(e + Seq::<u8>::empty() =~= e);
}

/// Bytes that all carry the continuation bit, and whose value stays within
/// the bound, decode to no value: they are read to the end and are not an
/// error.
pub proof fn law_incomplete(s: Seq<u8>, bound: u64)
    requires
        forall|i: int| 0 <= i < s.len() ==> continues(#[trigger] s[i]),
        value_of(s) <= bound,
    ensures
        decode(s, bound) == Ok::<Option<u64>, Error>(None),
        read_len(s, bound) == s.len(),
{
    lemma_scan_to_end(s, bound, 0);
    assert(s.take(s.len() as int) =~= s);
}

/// From byte `i` on, a decoder meets neither a last byte nor a value above
/// the bound in such bytes, and so reads to the end.
proof fn lemma_scan_to_end(s: Seq<u8>, bound: u64, i: nat)
    requires
        forall|j: int| 0 <= j < s.len() ==> continues(#[trigger] s[j]),
        value_of(s) <= bound,
        i <= s.len(),
    ensures
        scan(s, bound, i) == s.len(),
    decreases s.len() - i,
{
    if i < s.len() {
        lemma_prefix_at_most(s, i + 1 as int);
        lemma_scan_to_end(s, bound, i + 1);
    }
}

} // verus!
