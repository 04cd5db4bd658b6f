//! Per-worker aggregation table.
//!
//! A table maps a precomputed 64-bit key code to the running `Record` for
//! that code.  Lookup and insertion are by code alone: two distinct keys
//! that collide on their code are deliberately folded into one record — a
//! documented throughput/correctness tradeoff, not an accident.  The table
//! also remembers the first-occurrence order of codes, so extraction is
//! deterministic.
//!
//! Merging tables is proved commutative and associative at the model level,
//! which is what lets workers fold disjoint shards in any order and
//! tree-merge the results.

use crate::record::Record;
use crate::{MAX_COUNT, VALUE_MAX, VALUE_MIN};
use std::collections::HashMap;
use vstd::multiset::Multiset;
use vstd::prelude::*;

verus! {

broadcast use {vstd::std_specs::hash::group_hash_axioms, vstd::multiset::group_multiset_axioms};

/// One measurement folded into an aggregation model.
pub open spec fn model_add(m: Map<u64, Multiset<int>>, code: u64, v: int) -> Map<
    u64,
    Multiset<int>,
> {
    m.insert(
        code,
        if m.contains_key(code) {
            m[code].insert(v)
        } else {
            Multiset::empty().insert(v)
        },
    )
}

/// First-occurrence key bytes after one measurement.
pub open spec fn keys_add(km: Map<u64, Seq<u8>>, code: u64, key: Seq<u8>) -> Map<u64, Seq<u8>> {
    if km.contains_key(code) {
        km
    } else {
        km.insert(code, key)
    }
}

/// First-occurrence code order after one measurement.
pub open spec fn codes_add(codes: Seq<u64>, code: u64) -> Seq<u64> {
    if codes.contains(code) {
        codes
    } else {
        codes.push(code)
    }
}

/// Union of two aggregation models: per code, the multisets of contributed
/// values are united.
pub open spec fn model_union(a: Map<u64, Multiset<int>>, b: Map<u64, Multiset<int>>) -> Map<
    u64,
    Multiset<int>,
> {
    Map::new(
        |c: u64| a.contains_key(c) || b.contains_key(c),
        |c: u64|
            if a.contains_key(c) && b.contains_key(c) {
                a[c].add(b[c])
            } else if a.contains_key(c) {
                a[c]
            } else {
                b[c]
            },
    )
}

/// Union of two key maps; the left side's representative key wins.
pub open spec fn keys_union(a: Map<u64, Seq<u8>>, b: Map<u64, Seq<u8>>) -> Map<u64, Seq<u8>> {
    Map::new(
        |c: u64| a.contains_key(c) || b.contains_key(c),
        |c: u64|
            if a.contains_key(c) {
                a[c]
            } else {
                b[c]
            },
    )
}

/// Code order after a merge: the left order, then the right side's new
/// codes in their order.
pub open spec fn merge_codes(a: Seq<u64>, b: Seq<u64>) -> Seq<u64>
    decreases b.len(),
{
    if b.len() == 0 {
        a
    } else {
        codes_add(merge_codes(a, b.drop_last()), b.last())
    }
}

/// Membership in a pushed sequence.
proof fn lemma_push_contains(s: Seq<u64>, x: u64)
    ensures
        forall|y: u64| #[trigger] s.push(x).contains(y) <==> s.contains(y) || y == x,
{
    assert forall|y: u64| #[trigger] s.push(x).contains(y) implies s.contains(y) || y == x by {
        let j = choose|j: int| 0 <= j < s.push(x).len() && s.push(x)[j] == y;
        if j < s.len() {
            assert(s[j] == y);
        }
    }
    assert forall|y: u64| s.contains(y) || y == x implies #[trigger] s.push(x).contains(y) by {
        if y == x {
            assert(s.push(x)[s.len() as int] == y);
        } else {
            let j = choose|j: int| 0 <= j < s.len() && s[j] == y;
            assert(s.push(x)[j] == y);
        }
    }
}

/// Pushing a fresh element keeps a sequence duplicate-free.
proof fn lemma_push_no_duplicates(s: Seq<u64>, x: u64)
    requires
        s.no_duplicates(),
        !s.contains(x),
    ensures
        s.push(x).no_duplicates(),
{
    assert forall|p: int, q: int|
        0 <= p < s.push(x).len() && 0 <= q < s.push(x).len() && p != q implies s.push(x)[p]
        != s.push(x)[q] by {
        if p < s.len() && q < s.len() {
        } else if q == s.len() {
            assert(s.contains(s[p]));
        } else {
            assert(s.contains(s[q]));
        }
    }
}

/// One more taken prefix element: the prefix set grows by exactly it.
proof fn lemma_take_step(s: Seq<u64>, i: int)
    requires
        0 <= i < s.len(),
    ensures
        s.take(i + 1) =~= s.take(i).push(s[i]),
        s.take(i + 1).to_set() =~= s.take(i).to_set().insert(s[i]),
        s.take(i + 1).drop_last() =~= s.take(i),
        s.take(i + 1).last() == s[i],
{
    assert(s.take(i + 1) =~= s.take(i).push(s[i]));
    lemma_push_contains(s.take(i), s[i]);
    assert(s.take(i + 1).to_set() =~= s.take(i).to_set().insert(s[i]));
}

/// In a duplicate-free sequence, element `i` is not among the first `i`.
proof fn lemma_no_dup_take_excludes(s: Seq<u64>, i: int)
    requires
        s.no_duplicates(),
        0 <= i < s.len(),
    ensures
        !s.take(i).contains(s[i]),
{
    if s.take(i).contains(s[i]) {
        let j = choose|j: int| 0 <= j < i && s.take(i)[j] == s[i];
        assert(s[j] == s[i]);
    }
}

/// Extending the restricted right side of a model union by one code is the
/// same as inserting that code's united multiset.
proof fn lemma_union_restrict_step(
    am: Map<u64, Multiset<int>>,
    bm: Map<u64, Multiset<int>>,
    taken: Set<u64>,
    code: u64,
    post_m: Map<u64, Multiset<int>>,
)
    requires
        bm.contains_key(code),
        !taken.contains(code),
        post_m == model_union(am, bm.restrict(taken)).insert(
            code,
            if am.contains_key(code) {
                am[code].add(bm[code])
            } else {
                bm[code]
            },
        ),
    ensures
        post_m == model_union(am, bm.restrict(taken.insert(code))),
{
    let taken1 = taken.insert(code);
    assert forall|c: u64|
        #[trigger] post_m.contains_key(c) <==> model_union(
        am,
        bm.restrict(taken1),
    ).contains_key(c) by {
        if c == code {
            assert(bm.restrict(taken1).contains_key(code));
        } else {
            assert(bm.restrict(taken1).contains_key(c) <==> bm.restrict(taken).contains_key(c));
        }
    }
    assert forall|c: u64| post_m.contains_key(c) implies post_m[c] == model_union(
        am,
        bm.restrict(taken1),
    )[c] by {
        if c == code {
            assert(bm.restrict(taken1)[code] == bm[code]);
        } else {
            assert(bm.restrict(taken1).contains_key(c) <==> bm.restrict(taken).contains_key(c));
            if bm.restrict(taken).contains_key(c) {
                assert(bm.restrict(taken1)[c] == bm.restrict(taken)[c]);
            }
        }
    }
    assert(post_m =~= model_union(am, bm.restrict(taken1)));
}

/// The same step for the representative-key map.
proof fn lemma_keys_restrict_step(
    akm: Map<u64, Seq<u8>>,
    bkm: Map<u64, Seq<u8>>,
    taken: Set<u64>,
    code: u64,
    post_m: Map<u64, Seq<u8>>,
)
    requires
        bkm.contains_key(code),
        !taken.contains(code),
        post_m == keys_union(akm, bkm.restrict(taken)).insert(
            code,
            if akm.contains_key(code) {
                akm[code]
            } else {
                bkm[code]
            },
        ),
    ensures
        post_m == keys_union(akm, bkm.restrict(taken.insert(code))),
{
    let taken1 = taken.insert(code);
    assert forall|c: u64|
        #[trigger] post_m.contains_key(c) <==> keys_union(
        akm,
        bkm.restrict(taken1),
    ).contains_key(c) by {
        if c == code {
            assert(bkm.restrict(taken1).contains_key(code));
        } else {
            assert(bkm.restrict(taken1).contains_key(c) <==> bkm.restrict(taken).contains_key(c));
        }
    }
    assert forall|c: u64| post_m.contains_key(c) implies post_m[c] == keys_union(
        akm,
        bkm.restrict(taken1),
    )[c] by {
        if c == code {
            assert(bkm.restrict(taken1)[code] == bkm[code]);
        } else {
            assert(bkm.restrict(taken1).contains_key(c) <==> bkm.restrict(taken).contains_key(c));
            if bkm.restrict(taken).contains_key(c) {
                assert(bkm.restrict(taken1)[c] == bkm.restrict(taken)[c]);
            }
        }
    }
    assert(post_m =~= keys_union(akm, bkm.restrict(taken1)));
}

/// Law: merging aggregation models is commutative, so per-worker tables may
/// be combined in either order.
pub proof fn lemma_model_union_commutes(a: Map<u64, Multiset<int>>, b: Map<u64, Multiset<int>>)
    ensures
        model_union(a, b) =~~= model_union(b, a),
{
    assert forall|c: u64| model_union(a, b).contains_key(c) implies model_union(a, b)[c]
        =~= model_union(b, a)[c] by {
        if a.contains_key(c) && b.contains_key(c) {
            assert(a[c].add(b[c]) =~= b[c].add(a[c]));
        }
    }
}

/// Law: merging aggregation models is associative, so any tree of pairwise
/// merges folds to the same model.
pub proof fn lemma_model_union_assoc(
    a: Map<u64, Multiset<int>>,
    b: Map<u64, Multiset<int>>,
    c: Map<u64, Multiset<int>>,
)
    ensures
        model_union(model_union(a, b), c) =~~= model_union(a, model_union(b, c)),
{
    assert forall|k: u64|
        model_union(model_union(a, b), c).contains_key(k) implies model_union(
        model_union(a, b),
        c,
    )[k] =~= model_union(a, model_union(b, c))[k] by {}
}

/// Law: the empty model is a unit for merging.
pub proof fn lemma_model_union_empty(a: Map<u64, Multiset<int>>)
    ensures
        model_union(a, Map::<u64, Multiset<int>>::empty()) =~~= a,
        model_union(Map::<u64, Multiset<int>>::empty(), a) =~~= a,
{
}

/// Law: folding one measurement into the right side of a merge is the same
/// as folding it into the merged model.
pub proof fn lemma_model_union_add(
    a: Map<u64, Multiset<int>>,
    b: Map<u64, Multiset<int>>,
    code: u64,
    v: int,
)
    ensures
        model_union(a, model_add(b, code, v)) =~~= model_add(model_union(a, b), code, v),
{
    assert forall|c: u64|
        model_union(a, model_add(b, code, v)).contains_key(c) implies model_union(
        a,
        model_add(b, code, v),
    )[c] =~= model_add(model_union(a, b), code, v)[c] by {
        if c == code {
            if a.contains_key(c) && b.contains_key(c) {
                assert(a[c].add(b[c].insert(v)) =~= a[c].add(b[c]).insert(v));
            } else if a.contains_key(c) {
                assert(a[c].add(Multiset::empty().insert(v)) =~= a[c].insert(v));
            }
        }
    }
}

/// Mapping from precomputed key codes to running records.
pub struct AggregationTable {
    map: HashMap<u64, Record>,
    order: Vec<u64>,
    total: u64,
}

impl AggregationTable {
    /// Contributed values per code.
    pub closed spec fn model(self) -> Map<u64, Multiset<int>> {
        Map::new(|c: u64| self.map@.contains_key(c), |c: u64| self.map@[c].contributed())
    }

    /// Representative (first-occurrence) key bytes per code.
    pub closed spec fn keys_model(self) -> Map<u64, Seq<u8>> {
        Map::new(|c: u64| self.map@.contains_key(c), |c: u64| self.map@[c].city@)
    }

    /// Codes in first-occurrence order.
    pub closed spec fn codes(self) -> Seq<u64> {
        self.order@
    }

    /// Number of measurements folded in so far.
    pub closed spec fn total_count(self) -> u64 {
        self.total
    }

    /// The map, the order and the totals agree, and every record is sound.
    pub closed spec fn wf(self) -> bool {
        &&& self.order@.no_duplicates()
        &&& forall|c: u64| #[trigger] self.map@.contains_key(c) <==> self.order@.contains(c)
        &&& forall|c: u64| self.map@.contains_key(c) ==> (#[trigger] self.map@[c]).wf()
        &&& forall|c: u64|
            self.map@.contains_key(c) ==> (#[trigger] self.map@[c]).contributed().len()
                <= self.total
        &&& self.total <= MAX_COUNT
    }

    /// Fresh empty table.
    pub fn new() -> (r: AggregationTable)
        ensures
            r.wf(),
            r.model() =~= Map::<u64, Multiset<int>>::empty(),
            r.keys_model() =~= Map::<u64, Seq<u8>>::empty(),
            r.codes() =~= Seq::<u64>::empty(),
            r.total_count() == 0,
    {
        AggregationTable { map: HashMap::new(), order: Vec::new(), total: 0 }
    }

    /// Number of measurements folded in so far.
    pub fn total(&self) -> (r: u64)
        ensures
            r == self.total_count(),
    {
        self.total
    }

    /// Number of distinct codes.
    pub fn len(&self) -> (r: usize)
        ensures
            r == self.codes().len(),
    {
        self.order.len()
    }

    /// The record for a code, if any.
    pub fn get(&self, code: u64) -> (r: Option<&Record>)
        requires
            self.wf(),
        ensures
            match r {
                Some(rec) => {
                    &&& self.model().contains_key(code)
                    &&& rec.wf()
                    &&& rec.contributed() == self.model()[code]
                    &&& rec.city@ == self.keys_model()[code]
                },
                None => !self.model().contains_key(code),
            },
    {
        self.map.get(&code)
    }

    /// Fold one measurement in.  If the code is new, a record seeded with
    /// this key and value is created; otherwise the value joins the existing
    /// record — by code alone, without comparing key bytes.
    pub fn add_measurement(&mut self, code: u64, key: &[u8], value: i16)
        requires
            old(self).wf(),
            VALUE_MIN <= value <= VALUE_MAX,
            old(self).total_count() < MAX_COUNT,
        ensures
            final(self).wf(),
            final(self).total_count() == old(self).total_count() + 1,
            final(self).model() == model_add(old(self).model(), code, value as int),
            final(self).keys_model() == keys_add(old(self).keys_model(), code, key@),
            final(self).codes() == codes_add(old(self).codes(), code),
    {
        let existing = self.map.remove(&code);
        match existing {
            Some(mut rec) => {
                proof {
                    assert(old(self).map@.contains_key(code));
                    assert(rec == old(self).map@[code]);
                    assert(rec.contributed().len() <= old(self).total_count());
                }
                rec.add(value);
                self.map.insert(code, rec);
                proof {
                    assert(self.map@ =~= old(self).map@.insert(code, rec));
                    assert(old(self).codes().contains(code));
                }
            },
            None => {
                proof {
                    assert(!old(self).map@.contains_key(code));
                    assert(!old(self).codes().contains(code));
                }
                let rec = Record::new(key, value);
                self.map.insert(code, rec);
                self.order.push(code);
                proof {
                    assert(self.map@ =~= old(self).map@.insert(code, rec));
                    lemma_push_contains(old(self).order@, code);
                    lemma_push_no_duplicates(old(self).order@, code);
                }
            },
        }
        self.total = self.total + 1;
        proof {
            assert(self.model() =~~= model_add(old(self).model(), code, value as int));
            assert(self.keys_model() =~~= keys_add(old(self).keys_model(), code, key@));
        }
    }

    /// Merge another table in: per code, records are united; codes new to
    /// this table keep their relative first-occurrence order.
    pub fn merge(&mut self, other: AggregationTable)
        requires
            old(self).wf(),
            other.wf(),
            old(self).total_count() + other.total_count() <= MAX_COUNT,
        ensures
            final(self).wf(),
            final(self).total_count() == old(self).total_count() + other.total_count(),
            final(self).model() == model_union(old(self).model(), other.model()),
            final(self).keys_model() == keys_union(old(self).keys_model(), other.keys_model()),
            final(self).codes() == merge_codes(old(self).codes(), other.codes()),
    {
        let ghost am = old(self).model();
        let ghost akm = old(self).keys_model();
        let ghost acodes = old(self).codes();
        let ghost bm = other.model();
        let ghost bkm = other.keys_model();
        let ghost bcodes = other.codes();
        let ghost bmap0 = other.map@;
        let ghost ta = old(self).total_count();
        let ghost tb = other.total_count();
        let mut other = other;
        self.total = self.total + other.total;
        let n = other.order.len();
        let mut i: usize = 0;
        proof {
            assert(bcodes.take(0).to_set() =~= Set::<u64>::empty());
            assert(other.map@ =~= bmap0.remove_keys(bcodes.take(0).to_set()));
            assert(self.model() =~~= model_union(am, bm.restrict(bcodes.take(0).to_set())));
            assert(self.keys_model() =~~= keys_union(akm, bkm.restrict(bcodes.take(0).to_set())));
        }
        while i < n
            invariant
                0 <= i <= n,
                n == bcodes.len(),
                other.order@ == bcodes,
                other.map@ == bmap0.remove_keys(bcodes.take(i as int).to_set()),
                bcodes.no_duplicates(),
                forall|c: u64| #[trigger] bmap0.contains_key(c) <==> bcodes.contains(c),
                forall|c: u64|
                    bmap0.contains_key(c) ==> bm.contains_key(c) && bkm.contains_key(c) && bm[c]
                        == (#[trigger] bmap0[c]).contributed() && bkm[c] == bmap0[c].city@
                        && bmap0[c].wf() && bmap0[c].contributed().len() <= tb,
                forall|c: u64| #[trigger] bm.contains_key(c) ==> bmap0.contains_key(c),
                forall|c: u64| #[trigger] am.contains_key(c) ==> am[c].len() <= ta,
                ta + tb <= MAX_COUNT,
                self.wf(),
                self.total_count() == ta + tb,
                self.model() == model_union(am, bm.restrict(bcodes.take(i as int).to_set())),
                self.keys_model() == keys_union(akm, bkm.restrict(bcodes.take(i as int).to_set())),
                self.codes() == merge_codes(acodes, bcodes.take(i as int)),
            decreases n - i,
        {
            let code = other.order[i];
            let ghost taken = bcodes.take(i as int).to_set();
            let ghost taken1 = bcodes.take(i as int + 1).to_set();
            proof {
                lemma_take_step(bcodes, i as int);
                lemma_no_dup_take_excludes(bcodes, i as int);
                assert(taken1 =~= taken.insert(code));
                assert(!taken.contains(code));
                assert(bcodes.contains(code)) by {
                    assert(bcodes[i as int] == code);
                }
                assert(bmap0.contains_key(code));
                assert(other.map@.contains_key(code));
            }
            let ghost pre = *self;
            let rec_opt = other.map.remove(&code);
            match rec_opt {
                Some(rec) => {
                    proof {
                        assert(rec == bmap0[code]);
                        assert(rec.contributed() == bm[code]);
                        assert(other.map@ =~= bmap0.remove_keys(taken1));
                    }
                    let mine_opt = self.map.remove(&code);
                    match mine_opt {
                        Some(mut mine) => {
                            proof {
                                assert(pre.model().contains_key(code));
                                assert(mine == pre.map@[code]);
                                assert(mine.contributed() == pre.model()[code]);
                                assert(!bm.restrict(taken).contains_key(code));
                                assert(pre.model()[code] == am[code]);
                                assert(am.contains_key(code));
                                assert(mine.contributed().len() <= ta);
                                assert(rec.contributed().len() <= tb);
                            }
                            mine.merge(&rec);
                            self.map.insert(code, mine);
                            proof {
                                assert(self.map@ =~= pre.map@.insert(code, mine));
                                assert(pre.codes().contains(code));
                                assert(mine.contributed() == am[code].add(bm[code]));
                                assert(self.model() =~= pre.model().insert(
                                    code,
                                    mine.contributed(),
                                ));
                                lemma_union_restrict_step(am, bm, taken, code, self.model());
                                assert(self.keys_model() =~= keys_union(
                                    akm,
                                    bkm.restrict(taken),
                                ).insert(code, mine.city@));
                                assert(mine.city@ == pre.keys_model()[code]);
                                assert(akm.contains_key(code));
                                assert(mine.city@ == akm[code]);
                                lemma_keys_restrict_step(akm, bkm, taken, code, self.keys_model());
                                assert(self.codes() =~= merge_codes(
                                    acodes,
                                    bcodes.take(i as int + 1),
                                ));
                            }
                        },
                        None => {
                            proof {
                                assert(!pre.model().contains_key(code));
                                assert(!am.contains_key(code));
                                assert(!pre.codes().contains(code));
                            }
                            self.map.insert(code, rec);
                            self.order.push(code);
                            proof {
                                assert(self.map@ =~= pre.map@.insert(code, rec));
                                lemma_push_contains(pre.order@, code);
                                lemma_push_no_duplicates(pre.order@, code);
                                assert(bm.contains_key(code));
                                assert(rec.contributed() == bm[code]);
                                assert(self.model() =~= pre.model().insert(
                                    code,
                                    rec.contributed(),
                                ));
                                lemma_union_restrict_step(am, bm, taken, code, self.model());
                                assert(rec.city@ == bkm[code]);
                                assert(self.keys_model() =~= keys_union(
                                    akm,
                                    bkm.restrict(taken),
                                ).insert(code, rec.city@));
                                lemma_keys_restrict_step(akm, bkm, taken, code, self.keys_model());
                                assert(self.codes() =~= merge_codes(
                                    acodes,
                                    bcodes.take(i as int + 1),
                                ));
                            }
                        },
                    }
                },
                None => {
                    proof {
                        assert(false);
                    }
                },
            }
            i = i + 1;
        }
        proof {
            assert(bcodes.take(n as int) =~= bcodes);
            assert(bm.restrict(bcodes.to_set()) =~= bm) by {
                assert forall|c: u64| bm.contains_key(c) implies bcodes.to_set().contains(c) by {
                    assert(bmap0.contains_key(c));
                }
            }
            assert(bkm.restrict(bcodes.to_set()) =~= bkm) by {
                assert forall|c: u64| bkm.contains_key(c) implies bcodes.to_set().contains(c) by {
                    assert(bmap0.contains_key(c));
                }
            }
        }
    }

    /// Take all records out, in first-occurrence code order.
    pub fn into_records(self) -> (r: Vec<Record>)
        requires
            self.wf(),
        ensures
            r@.len() == self.codes().len(),
            forall|j: int|
                0 <= j < r@.len() ==> {
                    &&& (#[trigger] r@[j]).wf()
                    &&& r@[j].contributed() == self.model()[self.codes()[j]]
                    &&& r@[j].city@ == self.keys_model()[self.codes()[j]]
                },
    {
        let mut table = self;
        let mut out: Vec<Record> = Vec::new();
        let n = table.order.len();
        let mut i: usize = 0;
        while i < n
            invariant
                0 <= i <= n,
                n == self.codes().len(),
                table.order@ == self.codes(),
                self.codes().no_duplicates(),
                forall|c: u64| #[trigger] table.map@.contains_key(c) ==> self.model().contains_key(
                    c,
                ) && table.map@[c].contributed() == self.model()[c] && table.map@[c].city@
                    == self.keys_model()[c] && table.map@[c].wf(),
                forall|j: int| i <= j < n ==> table.map@.contains_key(#[trigger] self.codes()[j]),
                out@.len() == i,
                forall|j: int|
                    0 <= j < i ==> {
                        &&& (#[trigger] out@[j]).wf()
                        &&& out@[j].contributed() == self.model()[self.codes()[j]]
                        &&& out@[j].city@ == self.keys_model()[self.codes()[j]]
                    },
            decreases n - i,
        {
            let code = table.order[i];
            let rec_opt = table.map.remove(&code);
            match rec_opt {
                Some(rec) => {
                    out.push(rec);
                },
                None => {
                    proof {
                        assert(false);
                    }
                },
            }
            proof {
                assert forall|j: int| i + 1 <= j < n implies table.map@.contains_key(
                    #[trigger] self.codes()[j],
                ) by {
                    assert(self.codes()[j] != code);
                }
            }
            i = i + 1;
        }
        out
    }
}

} // verus!
