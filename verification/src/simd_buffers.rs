//! Batched running-extrema buffer.
//!
//! A `SimdBuffer` holds up to sixteen raw fixed-point values that have not
//! yet been reduced to their extrema.  When the batch is full it folds into
//! its own minimum and maximum, so the true extrema of everything ever
//! contributed survive in the live batch.  The reduction here is the
//! portable scalar one, a single pass over at most sixteen lanes; a
//! wide-lane implementation of the same reduction returns bit-for-bit the
//! same pair.  A ghost multiset records every value ever contributed;
//! `min_max` is proved to return the extrema of that whole multiset, not
//! just of the live batch.

use vstd::multiset::Multiset;
use vstd::prelude::*;

verus! {

broadcast use vstd::multiset::group_multiset_axioms;

/// Capacity of one batch of raw values.
pub const BATCH_CAPACITY: usize = 16;

/// `v` is a minimum of the multiset `m`.
pub open spec fn is_min_of(v: int, m: Multiset<int>) -> bool {
    &&& m.count(v) > 0
    &&& forall|x: int| #[trigger] m.count(x) > 0 ==> v <= x
}

/// `v` is a maximum of the multiset `m`.
pub open spec fn is_max_of(v: int, m: Multiset<int>) -> bool {
    &&& m.count(v) > 0
    &&& forall|x: int| #[trigger] m.count(x) > 0 ==> x <= v
}

/// Minimum of a non-empty sequence of integers.
pub open spec fn seq_min(s: Seq<int>) -> int
    recommends
        s.len() > 0,
    decreases s.len(),
{
    if s.len() <= 1 {
        s[0]
    } else if s.last() <= seq_min(s.drop_last()) {
        s.last()
    } else {
        seq_min(s.drop_last())
    }
}

/// Maximum of a non-empty sequence of integers.
pub open spec fn seq_max(s: Seq<int>) -> int
    recommends
        s.len() > 0,
    decreases s.len(),
{
    if s.len() <= 1 {
        s[0]
    } else if s.last() >= seq_max(s.drop_last()) {
        s.last()
    } else {
        seq_max(s.drop_last())
    }
}

/// The extrema of a non-empty sequence bound every element and occur in it.
pub proof fn lemma_seq_extrema(s: Seq<int>)
    requires
        s.len() > 0,
    ensures
        forall|i: int| 0 <= i < s.len() ==> seq_min(s) <= #[trigger] s[i] <= seq_max(s),
        exists|i: int| 0 <= i < s.len() && #[trigger] s[i] == seq_min(s),
        exists|i: int| 0 <= i < s.len() && #[trigger] s[i] == seq_max(s),
        seq_min(s) <= seq_max(s),
    decreases s.len(),
{
    if s.len() == 1 {
        assert(s[0] == seq_min(s));
        assert(s[0] == seq_max(s));
    } else {
        lemma_seq_extrema(s.drop_last());
        assert(forall|i: int| 0 <= i < s.len() - 1 ==> #[trigger] s[i] == s.drop_last()[i]);
        assert(s.last() == s[s.len() - 1]);
        if s.last() <= seq_min(s.drop_last()) {
            assert(s[s.len() - 1] == seq_min(s));
        } else {
            let j = choose|i: int|
                0 <= i < s.drop_last().len() && #[trigger] s.drop_last()[i] == seq_min(
                    s.drop_last(),
                );
            assert(s[j] == seq_min(s));
        }
        if s.last() >= seq_max(s.drop_last()) {
            assert(s[s.len() - 1] == seq_max(s));
        } else {
            let j = choose|i: int|
                0 <= i < s.drop_last().len() && #[trigger] s.drop_last()[i] == seq_max(
                    s.drop_last(),
                );
            assert(s[j] == seq_max(s));
        }
    }
}

/// Extrema of a three-element sequence, by direct unfolding.
proof fn lemma_seq3_extrema(a: int, b: int, c: int)
    ensures
        seq_min(seq![a, b, c]) == vstd::math::min(vstd::math::min(a, b), c),
        seq_max(seq![a, b, c]) == vstd::math::max(vstd::math::max(a, b), c),
{
    let s = seq![a, b, c];
    assert(s.drop_last() =~= seq![a, b]);
    assert(s.drop_last().drop_last() =~= seq![a]);
    reveal_with_fuel(seq_min, 4);
    reveal_with_fuel(seq_max, 4);
}

/// Batch of raw values together with the ghost multiset of everything ever
/// contributed to it.
pub struct SimdBuffer {
    data: Vec<i16>,
    history: Ghost<Multiset<int>>,
}

impl View for SimdBuffer {
    type V = Seq<i16>;

    closed spec fn view(&self) -> Seq<i16> {
        self.data@
    }
}

impl SimdBuffer {
    /// Live batch contents as mathematical integers.
    pub open spec fn live(self) -> Seq<int> {
        self@.map(|i: int, v: i16| v as int)
    }

    /// Every value ever contributed through `with_value`, `add`,
    /// `simplify_and_add` or `merge`.
    pub closed spec fn contributed(self) -> Multiset<int> {
        self.history@
    }

    /// Well-formedness: the batch is a non-empty subset of the contributed
    /// values whose extrema are the extrema of everything contributed.
    pub open spec fn wf(self) -> bool {
        &&& 1 <= self@.len() <= BATCH_CAPACITY
        &&& forall|i: int|
            0 <= i < self.live().len() ==> self.contributed().count(#[trigger] self.live()[i]) > 0
        &&& is_min_of(seq_min(self.live()), self.contributed())
        &&& is_max_of(seq_max(self.live()), self.contributed())
    }

    /// Fresh buffer holding a single value.
    pub fn with_value(value: i16) -> (r: SimdBuffer)
        ensures
            r.wf(),
            r@ =~= seq![value],
            r.contributed() =~= Multiset::<int>::empty().insert(value as int),
    {
        let mut data: Vec<i16> = Vec::with_capacity(BATCH_CAPACITY);
        data.push(value);
        let r = SimdBuffer { data, history: Ghost(Multiset::empty().insert(value as int)) };
        proof {
            assert(r.live() =~= seq![value as int]);
        }
        r
    }

    /// Number of live values in the batch.
    pub fn len(&self) -> (r: usize)
        ensures
            r == self@.len(),
    {
        self.data.len()
    }

    /// Whether the batch holds its full sixteen values.
    pub fn is_full(&self) -> (r: bool)
        ensures
            r == (self@.len() >= BATCH_CAPACITY),
    {
        self.data.len() >= BATCH_CAPACITY
    }

    /// The live batch as a slice.
    pub fn as_slice(&self) -> (r: &[i16])
        ensures
            r@ == self@,
    {
        self.data.as_slice()
    }

    /// Append one value to the batch.  On a full batch this is a no-op and
    /// the value is not recorded; `crate::record::buf_append` folds instead.
    pub fn add(&mut self, value: i16)
        requires
            old(self).wf(),
        ensures
            final(self).wf(),
            old(self)@.len() == BATCH_CAPACITY ==> *final(self) == *old(self),
            old(self)@.len() < BATCH_CAPACITY ==> {
                &&& final(self)@ == old(self)@.push(value)
                &&& final(self).contributed() == old(self).contributed().insert(value as int)
            },
    {
        if self.data.len() < BATCH_CAPACITY {
            let ghost prev = *self;
            self.data.push(value);
            proof {
                self.history@ = self.history@.insert(value as int);
                assert(self.live() =~= prev.live().push(value as int));
                lemma_extrema_after_push(prev.live(), prev.contributed(), value as int);
            }
        }
    }

    /// True minimum and maximum over everything ever contributed.
    pub fn min_max(&self) -> (r: (i16, i16))
        requires
            self@.len() >= 1,
        ensures
            r.0 as int == seq_min(self.live()),
            r.1 as int == seq_max(self.live()),
            self.wf() ==> is_min_of(r.0 as int, self.contributed()),
            self.wf() ==> is_max_of(r.1 as int, self.contributed()),
    {
        let mut mn = self.data[0];
        let mut mx = self.data[0];
        let mut i: usize = 1;
        while i < self.data.len()
            invariant
                1 <= i <= self.live().len(),
                mn as int == seq_min(self.live().take(i as int)),
                mx as int == seq_max(self.live().take(i as int)),
            decreases self.live().len() - i,
        {
            let v = self.data[i];
            proof {
                assert(self.live().take(i + 1).drop_last() =~= self.live().take(i as int));
                assert(self.live().take(i + 1).last() == self.live()[i as int]);
            }
            if v < mn {
                mn = v;
            }
            if v > mx {
                mx = v;
            }
            i += 1;
        }
        proof {
            assert(self.live().take(self.live().len() as int) =~= self.live());
        }
        (mn, mx)
    }

    /// Fold the full batch into its extrema, then restart it as
    /// `{value, min, max}`.
    pub fn simplify_and_add(&mut self, value: i16)
        requires
            old(self).wf(),
        ensures
            final(self).wf(),
            final(self)@.len() == 3,
            final(self)@[0] == value,
            final(self)@[1] as int == seq_min(old(self).live()),
            final(self)@[2] as int == seq_max(old(self).live()),
            final(self).contributed() == old(self).contributed().insert(value as int),
    {
        let ghost prev = *self;
        let (mn, mx) = self.min_max();
        self.data.clear();
        self.data.push(value);
        self.data.push(mn);
        self.data.push(mx);
        proof {
            self.history@ = self.history@.insert(value as int);
            assert(self.live() =~= seq![value as int, mn as int, mx as int]);
            lemma_seq_extrema(prev.live());
            lemma_seq3_extrema(value as int, mn as int, mx as int);
        }
    }

    /// Merge another buffer: its extrema are folded into this batch and its
    /// whole contributed multiset joins this one's, so no value's
    /// contribution to the extrema is lost.
    pub fn merge(&mut self, other: &SimdBuffer)
        requires
            old(self).wf(),
            other.wf(),
        ensures
            final(self).wf(),
            final(self).contributed() == old(self).contributed().add(other.contributed()),
    {
        let ghost prev = *old(self);
        let (mn, mx) = other.min_max();
        self.push_folding(mn);
        let ghost mid = *self;
        self.push_folding(mx);
        proof {
            self.history@ = self.history@.add(other.contributed());
            lemma_seq_extrema(other.live());
            // Extrema of the merged live batch are the extrema of the union.
            assert(seq_min(self.live()) == if mn as int <= seq_min(prev.live()) {
                mn as int
            } else {
                seq_min(prev.live())
            });
            assert forall|x: int| #[trigger] self.contributed().count(x) > 0 implies
                seq_min(self.live()) <= x && x <= seq_max(self.live()) by {
                assert(prev.contributed().count(x) + other.contributed().count(x) > 0);
            }
        }
    }

    /// Append one value to the batch, folding the batch to its extrema first
    /// when it is full.  Purely physical: the ghost history is untouched.
    fn push_folding(&mut self, value: i16)
        requires
            1 <= old(self)@.len() <= BATCH_CAPACITY,
        ensures
            1 <= final(self)@.len() <= BATCH_CAPACITY,
            final(self).contributed() == old(self).contributed(),
            seq_min(final(self).live()) == if value as int <= seq_min(old(self).live()) {
                value as int
            } else {
                seq_min(old(self).live())
            },
            seq_max(final(self).live()) == if value as int >= seq_max(old(self).live()) {
                value as int
            } else {
                seq_max(old(self).live())
            },
            forall|i: int|
                0 <= i < final(self).live().len() ==> old(self).live().contains(
                    #[trigger] final(self).live()[i],
                ) || final(self).live()[i] == value as int,
    {
        let ghost prev = *self;
        if self.data.len() >= BATCH_CAPACITY {
            let (mn, mx) = self.min_max();
            self.data.clear();
            self.data.push(value);
            self.data.push(mn);
            self.data.push(mx);
            proof {
                assert(self.live() =~= seq![value as int, mn as int, mx as int]);
                lemma_seq_extrema(prev.live());
                lemma_seq3_extrema(value as int, mn as int, mx as int);
            }
        } else {
            self.data.push(value);
            proof {
                assert(self.live() =~= prev.live().push(value as int));
                assert(self.live().drop_last() =~= prev.live());
                assert(self.live().last() == value as int);
                lemma_seq_extrema(prev.live());
            }
        }
    }
}

/// Pushing a contributed value onto a well-formed batch keeps the batch
/// extrema equal to the contributed extrema.
proof fn lemma_extrema_after_push(live: Seq<int>, contributed: Multiset<int>, v: int)
    requires
        live.len() >= 1,
        forall|i: int| 0 <= i < live.len() ==> contributed.count(#[trigger] live[i]) > 0,
        is_min_of(seq_min(live), contributed),
        is_max_of(seq_max(live), contributed),
    ensures
        is_min_of(seq_min(live.push(v)), contributed.insert(v)),
        is_max_of(seq_max(live.push(v)), contributed.insert(v)),
        forall|i: int|
            0 <= i < live.push(v).len() ==> contributed.insert(v).count(
                #[trigger] live.push(v)[i],
            ) > 0,
{
    assert(live.push(v).drop_last() =~= live);
    assert(live.push(v).last() == v);
    lemma_seq_extrema(live);
}

} // verus!
