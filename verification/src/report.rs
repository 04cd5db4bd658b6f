//! Reporter: sorting and serialization of the merged table.
//!
//! Records are sorted by key-byte lexicographic order (not by code, which
//! has no meaningful order) and rendered as
//! `{k1=min1/mean1/max1, k2=min2/mean2/max2, ...}` followed by one newline,
//! every numeric with exactly one fractional digit.

use crate::mset::mset_sum;
use crate::parse::{DASH, DOT};
use crate::record::{div_round_nearest, Record};
use crate::simd_buffers::{is_max_of, is_min_of};
use crate::table::AggregationTable;
use crate::{NL, VALUE_MAX, VALUE_MIN};
use vstd::multiset::Multiset;
use vstd::prelude::*;

verus! {

/// The entry separator `=`.
pub const EQ: u8 = 0x3d;

/// The field separator `/`.
pub const SLASH: u8 = 0x2f;

/// The opening brace `{`.
pub const LBRACE: u8 = 0x7b;

/// The closing brace `}`.
pub const RBRACE: u8 = 0x7d;

/// The entry delimiter `,`.
pub const COMMA: u8 = 0x2c;

/// The space after the entry delimiter.
pub const SPACE: u8 = 0x20;

/// Lexicographic byte order, shorter prefix first.
pub open spec fn lex_le(a: Seq<u8>, b: Seq<u8>) -> bool
    decreases a.len(),
{
    if a.len() == 0 {
        true
    } else if b.len() == 0 {
        false
    } else if a[0] < b[0] {
        true
    } else if a[0] > b[0] {
        false
    } else {
        lex_le(a.skip(1), b.skip(1))
    }
}

/// Equal prefixes do not decide the order.
proof fn lemma_lex_skip(a: Seq<u8>, b: Seq<u8>, i: int)
    requires
        0 <= i <= a.len(),
        i <= b.len(),
        forall|j: int| 0 <= j < i ==> a[j] == b[j],
    ensures
        lex_le(a, b) == lex_le(a.skip(i), b.skip(i)),
    decreases i,
{
    if i > 0 {
        assert(a[0] == b[0]);
        assert(forall|j: int| 0 <= j < i - 1 ==> a.skip(1)[j] == a[j + 1]);
        assert(forall|j: int| 0 <= j < i - 1 ==> b.skip(1)[j] == b[j + 1]);
        lemma_lex_skip(a.skip(1), b.skip(1), i - 1);
        assert(a.skip(1).skip(i - 1) =~= a.skip(i));
        assert(b.skip(1).skip(i - 1) =~= b.skip(i));
        assert(a.skip(0) =~= a);
        assert(b.skip(0) =~= b);
    } else {
        assert(a.skip(0) =~= a);
        assert(b.skip(0) =~= b);
    }
}

/// Compare two keys in lexicographic byte order.
pub fn lex_le_bytes(a: &[u8], b: &[u8]) -> (r: bool)
    ensures
        r == lex_le(a@, b@),
{
    let mut i: usize = 0;
    while i < a.len() && i < b.len()
        invariant
            0 <= i <= a@.len(),
            i <= b@.len(),
            forall|j: int| 0 <= j < i ==> a@[j] == b@[j],
        decreases a@.len() - i,
    {
        let x = a[i];
        let y = b[i];
        if x < y {
            proof {
                lemma_lex_skip(a@, b@, i as int);
                assert(a@.skip(i as int)[0] == a@[i as int]);
                assert(b@.skip(i as int)[0] == b@[i as int]);
            }
            return true;
        }
        if x > y {
            proof {
                lemma_lex_skip(a@, b@, i as int);
                assert(a@.skip(i as int)[0] == a@[i as int]);
                assert(b@.skip(i as int)[0] == b@[i as int]);
            }
            return false;
        }
        i = i + 1;
    }
    proof {
        lemma_lex_skip(a@, b@, i as int);
    }
    i >= a.len()
}

/// What rendering needs from one record: its key bytes and its multiset of
/// contributed values.
pub open spec fn rec_entry(r: Record) -> (Seq<u8>, Multiset<int>) {
    (r.city@, r.contributed())
}

/// Entry views of a record sequence.
pub open spec fn entry_seq(s: Seq<Record>) -> Seq<(Seq<u8>, Multiset<int>)> {
    s.map(|i: int, r: Record| rec_entry(r))
}

/// The entries of a table, in first-occurrence code order.
pub open spec fn entries_of(
    codes: Seq<u64>,
    keys: Map<u64, Seq<u8>>,
    model: Map<u64, Multiset<int>>,
) -> Seq<(Seq<u8>, Multiset<int>)> {
    Seq::new(codes.len(), |i: int| (keys[codes[i]], model[codes[i]]))
}

/// Insertion of one entry into a key-sorted entry sequence.
pub open spec fn sorted_insert_entry(
    s: Seq<(Seq<u8>, Multiset<int>)>,
    e: (Seq<u8>, Multiset<int>),
) -> Seq<(Seq<u8>, Multiset<int>)>
    decreases s.len(),
{
    if s.len() == 0 {
        seq![e]
    } else if lex_le(s.last().0, e.0) {
        s.push(e)
    } else {
        sorted_insert_entry(s.drop_last(), e).push(s.last())
    }
}

/// Insertion sort of entries by key bytes.
pub open spec fn sort_entries(s: Seq<(Seq<u8>, Multiset<int>)>) -> Seq<(Seq<u8>, Multiset<int>)>
    decreases s.len(),
{
    if s.len() == 0 {
        Seq::empty()
    } else {
        sorted_insert_entry(sort_entries(s.drop_last()), s.last())
    }
}

/// Decimal digits of a natural number, most significant first.
pub open spec fn dec_digits(n: nat) -> Seq<u8>
    decreases n,
    via dec_digits_decreases
{
    if n < 10 {
        seq![(0x30 + n) as u8]
    } else {
        dec_digits(n / 10).push((0x30 + n % 10) as u8)
    }
}

#[via_fn]
proof fn dec_digits_decreases(n: nat) {
    if n >= 10 {
        assert(n / 10 < n) by (nonlinear_arith)
            requires n >= 10;
    }
}

/// Rendering of a scaled value with exactly one fractional digit.
pub open spec fn render_scaled(v: int) -> Seq<u8> {
    let mag = if v < 0 {
        -v
    } else {
        v
    };
    (if v < 0 {
        seq![DASH]
    } else {
        Seq::<u8>::empty()
    }) + dec_digits((mag / 10) as nat) + seq![DOT, (0x30 + mag % 10) as u8]
}

/// The unique minimum of a non-empty multiset.
pub open spec fn mset_min(m: Multiset<int>) -> int {
    choose|v: int| is_min_of(v, m)
}

/// The unique maximum of a non-empty multiset.
pub open spec fn mset_max(m: Multiset<int>) -> int {
    choose|v: int| is_max_of(v, m)
}

/// Any minimum witness is the minimum.
pub proof fn lemma_min_unique(m: Multiset<int>, v: int)
    requires
        is_min_of(v, m),
    ensures
        mset_min(m) == v,
{
    let w = mset_min(m);
    assert(is_min_of(w, m));
}

/// Any maximum witness is the maximum.
pub proof fn lemma_max_unique(m: Multiset<int>, v: int)
    requires
        is_max_of(v, m),
    ensures
        mset_max(m) == v,
{
    let w = mset_max(m);
    assert(is_max_of(w, m));
}

/// Rendering of one entry: `key=min/mean/max`.
pub open spec fn render_entry(key: Seq<u8>, m: Multiset<int>) -> Seq<u8> {
    key + seq![EQ] + render_scaled(mset_min(m)) + seq![SLASH] + render_scaled(
        div_round_nearest(mset_sum(m), m.len() as int),
    ) + seq![SLASH] + render_scaled(mset_max(m))
}

/// Rendering of a sequence of entries, joined by `, `.
pub open spec fn render_entries(s: Seq<(Seq<u8>, Multiset<int>)>) -> Seq<u8>
    decreases s.len(),
{
    if s.len() == 0 {
        Seq::empty()
    } else if s.len() == 1 {
        render_entry(s[0].0, s[0].1)
    } else {
        render_entries(s.drop_last()) + seq![COMMA, SPACE] + render_entry(s.last().0, s.last().1)
    }
}

/// The whole output: braces around the entries, one trailing newline.
pub open spec fn render_output(s: Seq<(Seq<u8>, Multiset<int>)>) -> Seq<u8> {
    seq![LBRACE] + render_entries(s) + seq![RBRACE, NL]
}

/// Append the decimal digits of `n`.
fn push_decimal(out: &mut Vec<u8>, n: u64)
    ensures
        final(out)@ == old(out)@ + dec_digits(n as nat),
    decreases n,
{
    if n < 10 {
        out.push(0x30 + n as u8);
        proof {
            assert(out@ =~= old(out)@ + dec_digits(n as nat));
        }
    } else {
        let q = n / 10;
        let d = n % 10;
        push_decimal(out, q);
        out.push(0x30 + d as u8);
        proof {
            assert(out@ =~= old(out)@ + dec_digits(n as nat));
        }
    }
}

/// Append a scaled value with one fractional digit.
fn push_scaled(out: &mut Vec<u8>, v: i16)
    requires
        VALUE_MIN <= v <= VALUE_MAX,
    ensures
        final(out)@ == old(out)@ + render_scaled(v as int),
{
    let mag: i16 = if v < 0 {
        out.push(DASH);
        -v
    } else {
        v
    };
    let ip = (mag / 10) as u64;
    let fd = (mag % 10) as u8;
    push_decimal(out, ip);
    out.push(DOT);
    out.push(0x30 + fd);
    proof {
        assert(out@ =~= old(out)@ + render_scaled(v as int));
    }
}

/// Append one rendered entry: `key=min/mean/max`.
fn push_entry(out: &mut Vec<u8>, rec: &Record)
    requires
        rec.wf(),
    ensures
        final(out)@ == old(out)@ + render_entry(rec.city@, rec.contributed()),
{
    let klen = rec.city.len();
    let mut j: usize = 0;
    while j < klen
        invariant
            0 <= j <= klen,
            klen == rec.city@.len(),
            out@ == old(out)@ + rec.city@.take(j as int),
        decreases klen - j,
    {
        out.push(rec.city[j]);
        proof {
            assert(out@ =~= old(out)@ + rec.city@.take(j as int + 1));
        }
        j = j + 1;
    }
    proof {
        assert(rec.city@.take(klen as int) =~= rec.city@);
    }
    out.push(EQ);
    let (mn, mx) = rec.min_max();
    proof {
        lemma_min_unique(rec.contributed(), mn as int);
        lemma_max_unique(rec.contributed(), mx as int);
    }
    push_scaled(out, mn);
    out.push(SLASH);
    let mean = rec.avg();
    push_scaled(out, mean);
    out.push(SLASH);
    push_scaled(out, mx);
    proof {
        assert(out@ =~= old(out)@ + render_entry(rec.city@, rec.contributed()));
    }
}

/// Insert a record into a key-sorted vector, keeping it sorted.
fn insert_sorted(v: &mut Vec<Record>, rec: Record)
    requires
        forall|j: int| 0 <= j < old(v)@.len() ==> (#[trigger] old(v)@[j]).wf(),
        rec.wf(),
    ensures
        entry_seq(final(v)@) == sorted_insert_entry(entry_seq(old(v)@), rec_entry(rec)),
        forall|j: int| 0 <= j < final(v)@.len() ==> (#[trigger] final(v)@[j]).wf(),
        final(v)@.len() == old(v)@.len() + 1,
    decreases old(v)@.len(),
{
    if v.len() == 0 {
        v.push(rec);
        proof {
            assert(entry_seq(old(v)@).len() == 0);
            assert(entry_seq(v@) =~= seq![rec_entry(rec)]);
        }
    } else {
        let last_le = lex_le_bytes(v[v.len() - 1].city.as_slice(), rec.city.as_slice());
        proof {
            assert(v@[v@.len() - 1].city@ == entry_seq(v@).last().0);
        }
        if last_le {
            v.push(rec);
            proof {
                assert(entry_seq(v@) =~= entry_seq(old(v)@).push(rec_entry(rec)));
            }
        } else {
            let tail_opt = v.pop();
            match tail_opt {
                Some(tail) => {
                    proof {
                        assert(v@ =~= old(v)@.drop_last());
                        assert(entry_seq(v@) =~= entry_seq(old(v)@).drop_last());
                    }
                    insert_sorted(v, rec);
                    v.push(tail);
                    proof {
                        assert(entry_seq(v@) =~= sorted_insert_entry(
                            entry_seq(old(v)@).drop_last(),
                            rec_entry(rec),
                        ).push(entry_seq(old(v)@).last()));
                    }
                },
                None => {
                    proof {
                        assert(false);
                    }
                },
            }
        }
    }
}

/// Sort the merged table's records by key bytes and serialize them as
/// `{key=min/mean/max, ...}` with one trailing newline.
pub fn render_summary(table: AggregationTable) -> (out: Vec<u8>)
    requires
        table.wf(),
    ensures
        out@ == render_output(
            sort_entries(entries_of(table.codes(), table.keys_model(), table.model())),
        ),
{
    let ghost entries = entries_of(table.codes(), table.keys_model(), table.model());
    let mut records = table.into_records();
    proof {
        assert(entry_seq(records@) =~= entries);
    }
    let ghost all = records@;
    let n_all = records.len();
    let mut sorted: Vec<Record> = Vec::new();
    let mut taken: usize = 0;
    proof {
        assert(entries.take(0) =~= Seq::<(Seq<u8>, Multiset<int>)>::empty());
    }
    while records.len() > 0
        invariant
            all.len() == n_all,
            taken + records@.len() == all.len(),
            records@ =~= all.skip(taken as int),
            entry_seq(all) == entries,
            forall|j: int| 0 <= j < all.len() ==> (#[trigger] all[j]).wf(),
            entry_seq(sorted@) == sort_entries(entries.take(taken as int)),
            forall|j: int| 0 <= j < sorted@.len() ==> (#[trigger] sorted@[j]).wf(),
        decreases records@.len(),
    {
        let rec = records.remove(0);
        proof {
            assert(rec == all[taken as int]);
            assert(records@ =~= all.skip(taken as int + 1));
            assert(rec_entry(rec) == entries[taken as int]);
            assert(entries.take(taken as int + 1).drop_last() =~= entries.take(taken as int));
            assert(entries.take(taken as int + 1).last() == entries[taken as int]);
        }
        insert_sorted(&mut sorted, rec);
        taken = taken + 1;
    }
    proof {
        assert(entries.take(all.len() as int) =~= entries);
    }
    let ghost sorted_entries = sort_entries(entries);
    let mut out: Vec<u8> = Vec::new();
    out.push(LBRACE);
    let n = sorted.len();
    let mut j: usize = 0;
    proof {
        assert(out@ =~= seq![LBRACE] + render_entries(sorted_entries.take(0)));
    }
    while j < n
        invariant
            0 <= j <= n,
            n == sorted@.len(),
            entry_seq(sorted@) == sorted_entries,
            forall|k: int| 0 <= k < sorted@.len() ==> (#[trigger] sorted@[k]).wf(),
            out@ == seq![LBRACE] + render_entries(sorted_entries.take(j as int)),
        decreases n - j,
    {
        if j > 0 {
            out.push(COMMA);
            out.push(SPACE);
        }
        proof {
            assert(sorted_entries.take(j as int + 1).drop_last() =~= sorted_entries.take(j as int));
            assert(sorted_entries.take(j as int + 1).last() == sorted_entries[j as int]);
            assert(rec_entry(sorted@[j as int]) == sorted_entries[j as int]);
        }
        let ghost before = out@;
        push_entry(&mut out, &sorted[j]);
        proof {
            if j == 0 {
                assert(sorted_entries.take(1)[0] == sorted_entries[0]);
                assert(out@ =~= seq![LBRACE] + render_entries(sorted_entries.take(1)));
            } else {
                assert(out@ =~= seq![LBRACE] + render_entries(sorted_entries.take(j as int + 1)));
            }
        }
        j = j + 1;
    }
    proof {
        assert(sorted_entries.take(n as int) =~= sorted_entries);
    }
    out.push(RBRACE);
    out.push(NL);
    proof {
        assert(out@ =~= render_output(sorted_entries));
    }
    out
}

} // verus!
