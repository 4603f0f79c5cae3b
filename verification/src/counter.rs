//! The shared counter: the single authoritative integer value.
//!
//! Overflow policy (documented choice): the counter wraps, exactly as
//! two's-complement 32-bit arithmetic does. A mutation never fails and
//! never panics; `wrap_i32` is the mathematical statement of the policy.

use vstd::prelude::*;
use vstd::arithmetic::div_mod::{
    lemma_add_mod_noop, lemma_mod_bound, lemma_mod_sub_multiples_vanish, lemma_small_mod,
};

verus! {

/// Reduction of an unbounded integer into the two's-complement 32-bit range.
pub open spec fn wrap_i32(x: int) -> int {
    let m = x % 0x1_0000_0000;
    if m >= 0x8000_0000 {
        m - 0x1_0000_0000
    } else {
        m
    }
}

pub proof fn lemma_wrap_i32_range(x: int)
    ensures
        -0x8000_0000 <= wrap_i32(x) <= 0x7fff_ffff,
{
    lemma_mod_bound(x, 0x1_0000_0000);
}

pub proof fn lemma_wrap_i32_id(x: int)
    requires
        -0x8000_0000 <= x <= 0x7fff_ffff,
    ensures
        wrap_i32(x) == x,
{
    if x >= 0 {
        lemma_small_mod(x as nat, 0x1_0000_0000);
    } else {
        lemma_mod_sub_multiples_vanish(x + 0x1_0000_0000, 0x1_0000_0000);
        lemma_small_mod((x + 0x1_0000_0000) as nat, 0x1_0000_0000);
    }
}

/// Wrapping one step at a time agrees with wrapping the whole sum once.
pub proof fn lemma_wrap_i32_add(a: int, b: int)
    ensures
        wrap_i32(wrap_i32(a) + b) == wrap_i32(a + b),
{
    let r = 0x1_0000_0000;
    let m = a % r;
    lemma_mod_bound(a, r);
    lemma_small_mod(m as nat, r as nat);
    lemma_add_mod_noop(a, b, r);
    lemma_add_mod_noop(m, b, r);
    if m >= 0x8000_0000 {
        lemma_mod_sub_multiples_vanish(m - r + b, r);
        assert((m - r + b) % r == (m + b) % r);
    }
}

/// `i32::wrapping_add` computes exactly the wrapping policy `wrap_i32`.
proof fn lemma_wrapping_add_is_wrap(x: i32, y: i32)
    ensures
        vstd::wrapping::i32_specs::wrapping_add(x, y) == wrap_i32(x as int + y as int),
{
    let r = 0x1_0000_0000int;
    let s = x as int + y as int;
    if s > 0x7fff_ffff {
        lemma_small_mod(s as nat, r as nat);
    } else if s < -0x8000_0000 {
        lemma_mod_sub_multiples_vanish(s + r, r);
        lemma_small_mod((s + r) as nat, r as nat);
    } else {
        lemma_wrap_i32_id(s);
    }
}

/// The shared counter. Exactly one logical instance exists per running
/// process; it starts at zero and is mutated only through [`Self::mutate`].
pub struct SharedCounter {
    value: i32,
}

impl SharedCounter {
    /// The mathematical value of the counter.
    pub closed spec fn spec_value(&self) -> int {
        self.value as int
    }

    /// A fresh counter holds zero.
    pub fn new() -> (c: Self)
        ensures
            c.spec_value() == 0,
    {
        SharedCounter { value: 0 }
    }

    /// A point-in-time snapshot of the current value.
    pub fn get(&self) -> (v: i32)
        ensures
            v as int == self.spec_value(),
    {
        self.value
    }

    /// Applies `delta` to the current value and returns the new value.
    /// Overflow wraps (two's-complement); the operation cannot fail.
    pub fn mutate(&mut self, delta: i32) -> (v: i32)
        ensures
            final(self).spec_value() == wrap_i32(old(self).spec_value() + delta),
            v as int == final(self).spec_value(),
    {
        proof {
            lemma_wrapping_add_is_wrap(self.value, delta);
        }
        self.value = self.value.wrapping_add(delta);
        self.value
    }
}

/// The value reached by applying a sequence of deltas, one wrapping
/// mutation per delta, in order.
pub open spec fn run_deltas(v: int, ds: Seq<int>) -> int
    decreases ds.len(),
{
    if ds.len() == 0 {
        v
    } else {
        wrap_i32(run_deltas(v, ds.drop_last()) + ds.last())
    }
}

pub open spec fn sum_of(ds: Seq<int>) -> int
    decreases ds.len(),
{
    if ds.len() == 0 {
        0
    } else {
        sum_of(ds.drop_last()) + ds.last()
    }
}

/// How many entries of `ds` equal `x`.
pub open spec fn count_of(ds: Seq<int>, x: int) -> int
    decreases ds.len(),
{
    if ds.len() == 0 {
        0
    } else {
        count_of(ds.drop_last(), x) + if ds.last() == x {
            1int
        } else {
            0int
        }
    }
}

/// Running a sequence of wrapping mutations equals wrapping the plain sum
/// once, and the result stays representable.
pub proof fn lemma_run_deltas_sum(v: int, ds: Seq<int>)
    requires
        -0x8000_0000 <= v <= 0x7fff_ffff,
    ensures
        run_deltas(v, ds) == wrap_i32(v + sum_of(ds)),
        -0x8000_0000 <= run_deltas(v, ds) <= 0x7fff_ffff,
    decreases ds.len(),
{
    lemma_wrap_i32_range(v + sum_of(ds));
    if ds.len() == 0 {
        lemma_wrap_i32_id(v);
    } else {
        lemma_run_deltas_sum(v, ds.drop_last());
        lemma_wrap_i32_add(v + sum_of(ds.drop_last()), ds.last());
    }
}

proof fn lemma_sum_of_unit_deltas(ds: Seq<int>)
    requires
        forall|i: int| 0 <= i < ds.len() ==> ds[i] == 1 || ds[i] == -1,
    ensures
        sum_of(ds) == count_of(ds, 1) - count_of(ds, -1),
    decreases ds.len(),
{
    if ds.len() > 0 {
        lemma_sum_of_unit_deltas(ds.drop_last());
    }
}

/// Law (atomicity of mutation): for any interleaving of increments and
/// decrements — any sequence whose entries are `+1` or `-1` — the final
/// counter value is the initial value plus the number of increments minus
/// the number of decrements, reduced by the wrapping policy.
pub proof fn lemma_increments_decrements_total(v: int, ds: Seq<int>)
    requires
        -0x8000_0000 <= v <= 0x7fff_ffff,
        forall|i: int| 0 <= i < ds.len() ==> ds[i] == 1 || ds[i] == -1,
    ensures
        run_deltas(v, ds) == wrap_i32(v + count_of(ds, 1) - count_of(ds, -1)),
{
    lemma_sum_of_unit_deltas(ds);
    lemma_run_deltas_sum(v, ds);
}

} // verus!
