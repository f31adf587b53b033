//! The mathematical model of LEB128 bytes and of the decoder's outcome, with
//! the lemmas that the codec's proofs use.
use crate::error::Error;
use vstd::arithmetic::power2::{lemma2_to64, lemma_pow2_adds, lemma_pow2_pos, pow2};
use vstd::prelude::*;

verus! {

/// The seven value bits of an encoded byte.
pub open spec fn payload(b: u8) -> nat {
    (b % 128) as nat
}

/// Whether the continuation bit (the high bit) of an encoded byte is set.
pub open spec fn continues(b: u8) -> bool {
    b >= 128
}

/// The number that a run of bytes stands for: the sum of each byte's payload
/// times 2^(7 * i), the first byte being the least significant.
pub open spec fn value_of(s: Seq<u8>) -> nat
    decreases s.len(),
{
    if s.len() == 0 {
        0
    } else {
        value_of(s.drop_last()) + payload(s.last()) * pow2((7 * (s.len() - 1)) as nat)
    }
}

/// The LEB128 encoding of `v`: seven bits per byte, least significant first,
/// the continuation bit set on every byte but the last, and no more bytes
/// than the value needs (one for zero).
pub open spec fn encoding(v: nat) -> Seq<u8>
    decreases v,
{
    if v < 128 {
        seq![v as u8]
    } else {
        seq![(v % 128 + 128) as u8] + encoding(v / 128)
    }
}

/// Whether a decoder with bound `max` stops at byte `i` of `s`: that byte
/// ends the encoding, or the value read up to it is above `max`.
pub open spec fn stops_at(s: Seq<u8>, max: u64, i: int) -> bool {
    value_of(s.take(i + 1)) > max || !continues(s[i])
}

/// How many bytes of `s` a decoder with bound `max` reads, from byte `i` on:
/// up to and including the first byte at which it stops, or to the end.
pub open spec fn scan(s: Seq<u8>, max: u64, i: nat) -> nat
    decreases s.len() - i,
{
    if i >= s.len() {
        s.len()
    } else if stops_at(s, max, i as int) {
        i + 1
    } else {
        scan(s, max, i + 1)
    }
}

/// How many bytes of `s` a decoder with bound `max` reads.
pub open spec fn read_len(s: Seq<u8>, max: u64) -> nat {
    scan(s, max, 0)
}

/// The outcome of decoding `s` with bound `max`: too large if the value read
/// is above `max`; else the value, if the last byte read ends the encoding;
/// else no value, since `s` ran out first.
pub open spec fn decode(s: Seq<u8>, max: u64) -> Result<Option<u64>, Error> {
    let t = s.take(read_len(s, max) as int);
    if value_of(t) > max {
        Err(Error::ResultTooLarge)
    } else if t.len() > 0 && !continues(t.last()) {
        Ok(Some(value_of(t) as u64))
    } else {
        Ok(None)
    }
}

/// The bytes of `bytes` from position `pos` on (none where `pos` is past
/// the end).
pub open spec fn unread(bytes: Seq<u8>, pos: int) -> Seq<u8> {
    if pos <= bytes.len() {
        bytes.subrange(pos, bytes.len() as int)
    } else {
        Seq::empty()
    }
}

/// The bound that decoding works to: the caller's, or the largest `u64`.
pub open spec fn bound_of(upper_bound: Option<u64>) -> u64 {
    match upper_bound {
        Some(m) => m,
        None => u64::MAX,
    }
}

/// `n` bytes hold a value below 2^(7 * n).
pub proof fn lemma_value_below(s: Seq<u8>)
    ensures
        value_of(s) < pow2((7 * s.len()) as nat),
    decreases s.len(),
{
    lemma_pow2_pos((7 * s.len()) as nat);
    if s.len() > 0 {
        let k = (7 * (s.len() - 1)) as nat;
        lemma_value_below(s.drop_last());
        lemma_pow2_adds(k, 7);
        lemma2_to64();
        assert(payload(s.last()) <= 127);
        assert(value_of(s) < pow2(k) + 127 * pow2(k)) by (nonlinear_arith)
            requires
                value_of(s) == value_of(s.drop_last()) + payload(s.last()) * pow2(k),
                value_of(s.drop_last()) < pow2(k),
                payload(s.last()) <= 127,
        ;
    }
}

/// The value of a prefix is at most the value of the whole.
pub proof fn lemma_prefix_at_most(s: Seq<u8>, j: int)
    requires
        0 <= j <= s.len(),
    ensures
        value_of(s.take(j)) <= value_of(s),
    decreases s.len() - j,
{
    if j < s.len() {
        let t = s.take(j + 1);
        assert(t.drop_last() =~= s.take(j));
        lemma_prefix_at_most(s, j + 1);
    } else {
        assert(s.take(j) =~= s);
    }
}

/// A byte in front of `t` is the low seven bits of the value.
pub proof fn lemma_value_prepend(b: u8, t: Seq<u8>)
    ensures
        value_of(seq![b] + t) == payload(b) + 128 * value_of(t),
    decreases t.len(),
{
    lemma2_to64();
    let u = seq![b] + t;
    assert(u.last() == if t.len() == 0 { b } else { t.last() });
    if t.len() == 0 {
        assert(u.drop_last() =~= Seq::<u8>::empty());
        assert(value_of(u.drop_last()) == 0);
        assert(value_of(u) == payload(b) * pow2(0));
    } else {
        let k = (7 * (t.len() - 1)) as nat;
        assert(u.drop_last() =~= seq![b] + t.drop_last());
        lemma_value_prepend(b, t.drop_last());
        lemma_pow2_adds(k, 7);
        let a = value_of(t.drop_last());
        let p = payload(t.last());
        assert(value_of(u) == value_of(seq![b] + t.drop_last()) + p * pow2(k + 7));
        assert(value_of(t) == a + p * pow2(k));
        assert(128 * (a + p * pow2(k)) == 128 * a + p * (pow2(k) * 128)) by (nonlinear_arith);
    }
}

/// The shape of `encoding(v)`: it stands for `v`, only its last byte ends
/// it, and it has as many bytes as `v` needs and no more.
pub proof fn lemma_encoding_shape(v: nat)
    ensures
        encoding(v).len() >= 1,
        value_of(encoding(v)) == v,
        !continues(encoding(v).last()),
        forall|j: int| 0 <= j < encoding(v).len() - 1 ==> continues(#[trigger] encoding(v)[j]),
        v < pow2((7 * encoding(v).len()) as nat),
        encoding(v).len() > 1 ==> pow2((7 * (encoding(v).len() - 1)) as nat) <= v,
    decreases v,
{
    lemma2_to64();
    let e = encoding(v);
    if v < 128 {
        assert(e.drop_last() =~= Seq::<u8>::empty());
        assert(value_of(e.drop_last()) == 0);
        assert(value_of(e) == payload(v as u8) * pow2(0));
    } else {
        let b = (v % 128 + 128) as u8;
        let rest = encoding(v / 128);
        lemma_encoding_shape(v / 128);
        lemma_value_prepend(b, rest);
        assert(e == seq![b] + rest);
        assert forall|j: int| 0 <= j < e.len() - 1 implies continues(#[trigger] e[j]) by {
            if j > 0 {
                assert(e[j] == rest[j - 1]);
            }
        }
        let n = rest.len();
        lemma_pow2_adds((7 * n) as nat, 7);
        assert(v < 128 * pow2((7 * n) as nat)) by (nonlinear_arith)
            requires
                v / 128 < pow2((7 * n) as nat),
        ;
        if n > 1 {
            lemma_pow2_adds((7 * (n - 1)) as nat, 7);
            assert(128 * pow2((7 * (n - 1)) as nat) <= v) by (nonlinear_arith)
                requires
                    pow2((7 * (n - 1)) as nat) <= v / 128,
            ;
        }
    }
}

} // verus!
