//! Per-key aggregate state.
//!
//! A `Record` carries the representative key bytes, a batched extrema
//! buffer, and exact running `sum` and `count` fields.  Its invariant ties
//! all of them to the ghost multiset of every contributed value, so minimum,
//! maximum, sum and count are functions of that multiset alone — the fact
//! that makes folding and merging order-independent.

use crate::mset::{lemma_mset_sum_add, lemma_mset_sum_bounds, lemma_mset_sum_insert, mset_sum};
use crate::simd_buffers::SimdBuffer;
use crate::{MAX_COUNT, VALUE_MAX, VALUE_MIN};
use vstd::multiset::Multiset;
use vstd::prelude::*;

verus! {

broadcast use vstd::multiset::group_multiset_axioms;

/// Mean of a total of `count` values summing to `sum`, as a scaled value
/// rounded to the nearest representable one, ties away from zero.
pub open spec fn div_round_nearest(sum: int, count: int) -> int
    recommends
        count > 0,
{
    if sum >= 0 {
        (2 * sum + count) / (2 * count)
    } else {
        -((2 * (-sum) + count) / (2 * count))
    }
}

/// Append a value to a batch, folding the batch into its extrema first when
/// it is full, so the value is never dropped.
pub fn buf_append(buf: &mut SimdBuffer, value: i16)
    requires
        old(buf).wf(),
    ensures
        final(buf).wf(),
        final(buf).contributed() == old(buf).contributed().insert(value as int),
{
    if buf.is_full() {
        buf.simplify_and_add(value);
    } else {
        buf.add(value);
    }
}

/// Running aggregate of every value seen for one key.
pub struct Record {
    /// Representative key bytes: those of the first occurrence.
    pub city: Vec<u8>,
    /// Batched extrema buffer over all contributed values.
    pub buf: SimdBuffer,
    /// Exact total of all contributed values.
    pub sum: i64,
    /// Number of contributed values.
    pub count: u64,
}

impl Record {
    /// Every value ever folded into this record.
    pub open spec fn contributed(self) -> Multiset<int> {
        self.buf.contributed()
    }

    /// All contributed values lie in the grammar's range.
    pub open spec fn values_in_range(self) -> bool {
        forall|x: int|
            #[trigger] self.contributed().count(x) > 0 ==> VALUE_MIN as int <= x <= VALUE_MAX as int
    }

    /// `sum` and `count` are the multiset's total and size, and the buffer's
    /// extrema are the multiset's extrema.
    pub open spec fn wf(self) -> bool {
        &&& self.buf.wf()
        &&& 1 <= self.count <= MAX_COUNT
        &&& self.count as nat == self.contributed().len()
        &&& self.sum as int == mset_sum(self.contributed())
        &&& self.values_in_range()
    }

    /// Fresh record seeded with a single value.
    pub fn new(city: &[u8], value: i16) -> (r: Record)
        requires
            VALUE_MIN <= value <= VALUE_MAX,
        ensures
            r.wf(),
            r.city@ == city@,
            r.contributed() =~= Multiset::<int>::empty().insert(value as int),
            r.sum == value as i64,
            r.count == 1,
    {
        let r = Record {
            city: vstd::slice::slice_to_vec(city),
            buf: SimdBuffer::with_value(value),
            sum: value as i64,
            count: 1,
        };
        proof {
            lemma_mset_sum_insert(Multiset::<int>::empty(), value as int);
        }
        r
    }

    /// Fold one more value in.
    pub fn add(&mut self, value: i16)
        requires
            old(self).wf(),
            VALUE_MIN <= value <= VALUE_MAX,
            old(self).count < MAX_COUNT,
        ensures
            final(self).wf(),
            final(self).city == old(self).city,
            final(self).contributed() == old(self).contributed().insert(value as int),
            final(self).sum == old(self).sum + value as i64,
            final(self).count == old(self).count + 1,
    {
        proof {
            lemma_mset_sum_bounds(self.contributed(), VALUE_MIN as int, VALUE_MAX as int);
            lemma_mset_sum_insert(self.contributed(), value as int);
            assert(VALUE_MIN as int * self.contributed().len() >= VALUE_MIN as int
                * MAX_COUNT as int) by (nonlinear_arith)
                requires self.contributed().len() <= MAX_COUNT as int;
            assert(VALUE_MAX as int * self.contributed().len() <= VALUE_MAX as int
                * MAX_COUNT as int) by (nonlinear_arith)
                requires self.contributed().len() <= MAX_COUNT as int;
        }
        buf_append(&mut self.buf, value);
        self.sum = self.sum + value as i64;
        self.count = self.count + 1;
    }

    /// Fold a whole other record in: its extrema join the batch, its sum and
    /// count join the totals, and at the multiset level the two contribution
    /// multisets are united, so nothing is lost.
    pub fn merge(&mut self, other: &Record)
        requires
            old(self).wf(),
            other.wf(),
            old(self).count + other.count <= MAX_COUNT,
        ensures
            final(self).wf(),
            final(self).city == old(self).city,
            final(self).contributed() == old(self).contributed().add(other.contributed()),
            final(self).sum == old(self).sum + other.sum,
            final(self).count == old(self).count + other.count,
    {
        proof {
            lemma_mset_sum_bounds(self.contributed(), VALUE_MIN as int, VALUE_MAX as int);
            lemma_mset_sum_bounds(other.contributed(), VALUE_MIN as int, VALUE_MAX as int);
            lemma_mset_sum_add(self.contributed(), other.contributed());
            assert(VALUE_MIN as int * self.contributed().len() + VALUE_MIN as int
                * other.contributed().len() >= 2 * (VALUE_MIN as int * MAX_COUNT as int))
                by (nonlinear_arith)
                requires
                    self.contributed().len() <= MAX_COUNT as int,
                    other.contributed().len() <= MAX_COUNT as int;
            assert(VALUE_MAX as int * self.contributed().len() + VALUE_MAX as int
                * other.contributed().len() <= 2 * (VALUE_MAX as int * MAX_COUNT as int))
                by (nonlinear_arith)
                requires
                    self.contributed().len() <= MAX_COUNT as int,
                    other.contributed().len() <= MAX_COUNT as int;
        }
        self.buf.merge(&other.buf);
        self.sum = self.sum + other.sum;
        self.count = self.count + other.count;
    }

    /// True extrema over everything ever contributed to this record.
    pub fn min_max(&self) -> (r: (i16, i16))
        requires
            self.wf(),
        ensures
            crate::simd_buffers::is_min_of(r.0 as int, self.contributed()),
            crate::simd_buffers::is_max_of(r.1 as int, self.contributed()),
    {
        self.buf.min_max()
    }

    /// Mean of all contributed values, as a scaled value rounded to the
    /// nearest representable one, ties away from zero.
    pub fn avg(&self) -> (r: i16)
        requires
            self.wf(),
        ensures
            r as int == div_round_nearest(self.sum as int, self.count as int),
            VALUE_MIN <= r <= VALUE_MAX,
    {
        let ghost cnt = self.count as int;
        let ghost s = self.sum as int;
        proof {
            lemma_mset_sum_bounds(self.contributed(), VALUE_MIN as int, VALUE_MAX as int);
            assert(VALUE_MIN as int * cnt <= s <= VALUE_MAX as int * cnt);
            assert(VALUE_MAX as int * cnt <= VALUE_MAX as int * MAX_COUNT as int)
                by (nonlinear_arith)
                requires 1 <= cnt <= MAX_COUNT as int;
            assert(VALUE_MIN as int * cnt >= VALUE_MIN as int * MAX_COUNT as int)
                by (nonlinear_arith)
                requires 1 <= cnt <= MAX_COUNT as int;
        }
        let count = self.count as i64;
        let neg = self.sum < 0;
        let mag = if neg {
            -self.sum
        } else {
            self.sum
        };
        let ghost n = 2 * mag as int + cnt;
        let ghost d = 2 * cnt;
        proof {
            assert(mag as int <= VALUE_MAX as int * cnt) by (nonlinear_arith)
                requires
                    VALUE_MIN as int * cnt <= s <= VALUE_MAX as int * cnt,
                    VALUE_MIN as int == -(VALUE_MAX as int),
                    mag as int == if s < 0 { -s } else { s };
            assert(VALUE_MAX as int * cnt <= VALUE_MAX as int * MAX_COUNT as int)
                by (nonlinear_arith)
                requires 1 <= cnt <= MAX_COUNT as int;
        }
        let q = (2 * mag + count) / (2 * count);
        proof {
            vstd::arithmetic::div_mod::lemma_fundamental_div_mod(n, d);
            vstd::arithmetic::div_mod::lemma_mod_division_less_than_divisor(n, d);
            assert(d * (n / d) <= n);
            assert(n <= (2 * VALUE_MAX as int + 1) * cnt) by (nonlinear_arith)
                requires mag as int <= VALUE_MAX as int * cnt, n == 2 * mag as int + cnt;
            assert(n / d <= VALUE_MAX as int) by (nonlinear_arith)
                requires
                    d == 2 * cnt,
                    cnt >= 1,
                    d * (n / d) <= n,
                    n <= (2 * VALUE_MAX as int + 1) * cnt,
                    n >= 0,
                    n / d >= 0;
            assert(q == n / d);
        }
        if neg {
            -(q as i16)
        } else {
            q as i16
        }
    }
}

} // verus!
