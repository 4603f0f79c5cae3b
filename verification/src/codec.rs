//! The wire form of an update event: the bare counter value as a decimal
//! integer scalar — an optional minus sign and digits with no leading
//! zero — exactly the bytes a JSON number payload carries. Encoding and
//! parsing are inverses: re-parsing an encoded value yields the identical
//! integer, with no precision loss and no coercion through another type.

use vstd::prelude::*;
use vstd::arithmetic::div_mod::lemma_fundamental_div_mod;

verus! {

/// ASCII decimal digits of `n`, most significant first, no leading zero.
pub open spec fn spec_digits(n: nat) -> Seq<u8>
    decreases n,
{
    if n < 10 {
        seq![(48 + n) as u8]
    } else {
        spec_digits(n / 10).push((48 + n % 10) as u8)
    }
}

/// The canonical payload for `v`: an optional minus sign, then digits.
pub open spec fn spec_encode_event(v: int) -> Seq<u8> {
    if v < 0 {
        seq![45u8] + spec_digits((-v) as nat)
    } else {
        spec_digits(v as nat)
    }
}

pub open spec fn is_ascii_digit(b: u8) -> bool {
    48 <= b <= 57
}

pub open spec fn all_ascii_digits(s: Seq<u8>) -> bool {
    forall|i: int| 0 <= i < s.len() ==> is_ascii_digit(#[trigger] s[i])
}

/// Digit runs the parser admits: non-empty, digits only, and no leading
/// zero unless the run is exactly "0".
pub open spec fn canonical_digits(s: Seq<u8>) -> bool {
    &&& s.len() >= 1
    &&& all_ascii_digits(s)
    &&& s.len() > 1 ==> s[0] != 48
}

/// The number a digit run denotes.
pub open spec fn digits_value(s: Seq<u8>) -> int
    decreases s.len(),
{
    if s.len() == 0 {
        0
    } else {
        digits_value(s.drop_last()) * 10 + (s.last() - 48)
    }
}

/// The integer a payload denotes, if the payload is admitted: an optional
/// minus sign, canonical digits, a value within the counter's 32-bit
/// range, and no "-0".
pub open spec fn spec_parse_event(s: Seq<u8>) -> Option<int> {
    if s.len() >= 1 && s[0] == 45 {
        let t = s.subrange(1, s.len() as int);
        if canonical_digits(t) && 0 < digits_value(t) <= 0x8000_0000 {
            Some(-digits_value(t))
        } else {
            None
        }
    } else {
        if canonical_digits(s) && digits_value(s) <= 0x7fff_ffff {
            Some(digits_value(s))
        } else {
            None
        }
    }
}

proof fn lemma_digits_shape(n: nat)
    ensures
        canonical_digits(spec_digits(n)),
        spec_digits(n)[0] == 48 <==> n == 0,
    decreases n,
{
    if n >= 10 {
        lemma_digits_shape(n / 10);
        let s = spec_digits(n / 10);
        let w = spec_digits(n);
        assert(w == s.push((48 + n % 10) as u8));
        assert(w[0] == s[0]);
        assert forall|i: int| 0 <= i < w.len() implies is_ascii_digit(#[trigger] w[i]) by {
            if i < s.len() {
                assert(is_ascii_digit(s[i]));
            }
        }
    }
}

proof fn lemma_digits_value_of_digits(n: nat)
    ensures
        digits_value(spec_digits(n)) == n,
    decreases n,
{
    if n < 10 {
        let s = spec_digits(n);
        assert(s == seq![(48 + n) as u8]);
        assert(s.drop_last() =~= Seq::<u8>::empty());
        assert(s.last() == (48 + n) as u8);
        assert(((48 + n) as u8) as int == 48 + n);
        assert(digits_value(s) == digits_value(s.drop_last()) * 10 + (s.last() - 48));
        assert(digits_value(Seq::<u8>::empty()) == 0);
    } else {
        lemma_digits_value_of_digits(n / 10);
        let s = spec_digits(n / 10);
        let d = (48 + n % 10) as u8;
        assert(d as int == 48 + n % 10);
        assert(spec_digits(n) == s.push(d));
        assert(s.push(d).drop_last() =~= s);
        assert(s.push(d).last() == d);
        assert(digits_value(spec_digits(n)) == digits_value(s) * 10 + (d - 48));
        lemma_fundamental_div_mod(n as int, 10);
        assert(n == (n / 10) * 10 + (n % 10));
    }
}

proof fn lemma_all_digits_drop_last(s: Seq<u8>)
    requires
        s.len() >= 1,
        all_ascii_digits(s),
    ensures
        all_ascii_digits(s.drop_last()),
{
    assert forall|i: int|
        0 <= i < s.drop_last().len() implies is_ascii_digit(#[trigger] s.drop_last()[i]) by {
        assert(s.drop_last()[i] == s[i]);
        assert(is_ascii_digit(s[i]));
    }
}

proof fn lemma_digits_value_nonneg(s: Seq<u8>)
    requires
        all_ascii_digits(s),
    ensures
        digits_value(s) >= 0,
    decreases s.len(),
{
    if s.len() >= 1 {
        lemma_all_digits_drop_last(s);
        lemma_digits_value_nonneg(s.drop_last());
        assert(is_ascii_digit(s[s.len() - 1]));
    }
}

/// A digit run's value is at least the value of any of its prefixes.
proof fn lemma_digits_value_prefix_mono(s: Seq<u8>, k: int)
    requires
        0 <= k <= s.len(),
        all_ascii_digits(s),
    ensures
        digits_value(s.subrange(0, k)) <= digits_value(s),
    decreases s.len() - k,
{
    if k == s.len() {
        assert(s.subrange(0, k) =~= s);
    } else {
        lemma_digits_value_prefix_mono(s, k + 1);
        let p = s.subrange(0, k);
        let q = s.subrange(0, k + 1);
        assert(q.drop_last() =~= p);
        assert(q.last() == s[k]);
        assert forall|i: int| 0 <= i < p.len() implies is_ascii_digit(#[trigger] p[i]) by {
            assert(p[i] == s[i]);
            assert(is_ascii_digit(s[i]));
        }
        lemma_digits_value_nonneg(p);
        assert(is_ascii_digit(s[k]));
        assert(digits_value(q) == digits_value(p) * 10 + (s[k] - 48));
    }
}

/// Law (round trip): re-parsing an encoded counter value yields exactly
/// that value, for every value the counter can hold.
pub proof fn lemma_event_round_trip(v: int)
    requires
        -0x8000_0000 <= v <= 0x7fff_ffff,
    ensures
        spec_parse_event(spec_encode_event(v)) == Some(v),
{
    if v < 0 {
        let m = (-v) as nat;
        lemma_digits_shape(m);
        lemma_digits_value_of_digits(m);
        let s = spec_encode_event(v);
        assert(s[0] == 45);
        assert(s.subrange(1, s.len() as int) =~= spec_digits(m));
    } else {
        let m = v as nat;
        lemma_digits_shape(m);
        lemma_digits_value_of_digits(m);
        assert(is_ascii_digit(spec_encode_event(v)[0]));
    }
}

/// Encodes a counter value as its canonical decimal payload.
pub fn encode_event(v: i32) -> (r: Vec<u8>)
    ensures
        r@ == spec_encode_event(v as int),
{
    let mut out: Vec<u8> = Vec::new();
    let m: u64 = if v < 0 {
        out.push(45);
        (-(v as i64)) as u64
    } else {
        v as u64
    };
    let ghost m0 = m as nat;
    let mut digs: Vec<u8> = Vec::new();
    if m == 0 {
        digs.push(48);
        proof {
            assert(digs@ =~= spec_digits(0));
        }
    } else {
        let mut n = m;
        proof {
            assert(spec_digits(m0) =~= spec_digits(m0) + digs@);
        }
        while n > 0
            invariant
                n > 0 ==> spec_digits(m0) == spec_digits(n as nat) + digs@,
                n == 0 ==> spec_digits(m0) == digs@,
            decreases n,
        {
            let ghost pre_digs = digs@;
            let d: u8 = 48 + (n % 10) as u8;
            digs.insert(0, d);
            proof {
                assert(digs@ =~= seq![d] + pre_digs);
                if n >= 10 {
                    assert(spec_digits(n as nat) == spec_digits((n as nat) / 10).push(d));
                    assert(spec_digits((n as nat) / 10).push(d) + pre_digs =~= spec_digits(
                        (n as nat) / 10,
                    ) + (seq![d] + pre_digs));
                    assert((n / 10) as nat == (n as nat) / 10);
                } else {
                    assert(spec_digits(n as nat) =~= seq![d]);
                    assert(spec_digits(n as nat) + pre_digs =~= seq![d] + pre_digs);
                }
            }
            n = n / 10;
        }
    }
    out.append(&mut digs);
    proof {
        if v < 0 {
            assert(m0 == (-(v as int)) as nat);
            assert(out@ =~= seq![45u8] + spec_digits(m0));
        } else {
            assert(out@ =~= spec_digits(m0));
        }
    }
    out
}

/// Parses a payload back to a counter value. Returns `Some` exactly on the
/// payloads that [`spec_parse_event`] admits — the canonical encodings of
/// the in-range integers — and `None` on everything else.
pub fn parse_event(s: &Vec<u8>) -> (r: Option<i32>)
    ensures
        match r {
            Some(v) => spec_parse_event(s@) == Some(v as int),
            None => spec_parse_event(s@) == None::<int>,
        },
{
    let n = s.len();
    let neg = n >= 1 && s[0] == 45;
    let start: usize = if neg {
        1
    } else {
        0
    };
    let ghost t = s@.subrange(start as int, n as int);
    if n == start {
        return None;
    }
    if s[start] == 48 && n - start > 1 {
        return None;
    }
    let mut acc: u64 = 0;
    let mut k = start;
    while k < n
        invariant
            start <= k <= n,
            n == s@.len(),
            n > start,
            t == s@.subrange(start as int, n as int),
            neg ==> s@[0] == 45 && start == 1,
            !neg ==> start == 0 && s@[0] != 45,
            forall|j: int| start <= j < k ==> is_ascii_digit(#[trigger] s@[j]),
            acc as int == digits_value(s@.subrange(start as int, k as int)),
            acc <= 0x8000_0000,
        decreases n - k,
    {
        let c = s[k];
        if c < 48 || c > 57 {
            proof {
                if !neg {
                    assert(t =~= s@);
                }
                assert(t[k - start] == s@[k as int]);
                assert(!canonical_digits(t));
            }
            return None;
        }
        let next: u64 = acc * 10 + (c - 48) as u64;
        proof {
            let p = s@.subrange(start as int, k as int);
            let q = s@.subrange(start as int, k + 1);
            assert(q.drop_last() =~= p);
            assert(q.last() == s@[k as int]);
        }
        if next > 0x8000_0000 {
            proof {
                if !neg {
                    assert(t =~= s@);
                }
                if all_ascii_digits(t) {
                    assert(s@.subrange(start as int, k + 1) =~= t.subrange(0, k + 1 - start));
                    lemma_digits_value_prefix_mono(t, k + 1 - start);
                    assert(digits_value(t) > 0x8000_0000);
                } else {
                    assert(!canonical_digits(t));
                }
            }
            return None;
        }
        acc = next;
        k += 1;
    }
    proof {
        if !neg {
            assert(t =~= s@);
        }
        assert(s@.subrange(start as int, k as int) =~= t);
        assert forall|j: int| 0 <= j < t.len() implies is_ascii_digit(#[trigger] t[j]) by {
            assert(t[j] == s@[j + start]);
        }
        assert(canonical_digits(t));
    }
    if neg {
        if acc == 0 {
            return None;
        }
        let v: i32 = (-(acc as i64)) as i32;
        proof {
            assert(v as int == -(acc as int));
        }
        Some(v)
    } else {
        if acc > 0x7fff_ffff {
            return None;
        }
        Some(acc as i32)
    }
}

} // verus!
