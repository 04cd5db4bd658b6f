//! Record splitting and the ingestion fold.
//!
//! A region of the mapped buffer holding whole newline-separated records is
//! split into lines and folded into an aggregation table: per line, the key
//! is hashed and the parsed value joins the record for that code.  The fold
//! over a concatenation of shards is proved to equal the merge of the
//! shards' folds, so workers may process any partition of the region in any
//! order and tree-merge their tables.

use crate::hashing::{fx_hash64_of, key_code};
use crate::parse::{fast_parse_line, line_key, line_value, valid_line};
use crate::report::render_summary;
use crate::table::{
    codes_add, keys_add, lemma_model_union_add, lemma_model_union_empty, model_add, model_union,
    AggregationTable,
};
use crate::{MAX_COUNT, NL};
use vstd::multiset::Multiset;
use vstd::prelude::*;
use vstd::slice::slice_subrange;

verus! {

/// A line that does not match the record grammar, at the byte offset where
/// it starts.
#[derive(Clone, Copy, Debug, PartialEq, Eq, Structural)]
pub struct ParseError {
    /// Byte offset of the start of the offending line.
    pub offset: usize,
}

/// Why no summary was produced.
#[derive(Clone, Copy, Debug, PartialEq, Eq, Structural)]
pub enum SummaryError {
    /// The input does not end with exactly one trailing newline.
    MissingNewline,
    /// A line violates the record grammar.
    Grammar(ParseError),
}

/// Position of the first newline, or the length if there is none.
pub open spec fn first_nl(data: Seq<u8>) -> nat
    decreases data.len(),
{
    if data.len() == 0 {
        0
    } else if data[0] == NL {
        0
    } else {
        1 + first_nl(data.skip(1))
    }
}

/// A position with no newline before it and a newline (or the end) at it is
/// the first newline.
proof fn lemma_first_nl_at(data: Seq<u8>, i: int)
    requires
        0 <= i <= data.len(),
        forall|j: int| 0 <= j < i ==> data[j] != NL,
        i < data.len() ==> data[i] == NL,
    ensures
        first_nl(data) == i,
    decreases i,
{
    if i == 0 {
    } else {
        assert(data[0] != NL);
        assert(forall|j: int| 0 <= j < i - 1 ==> #[trigger] data.skip(1)[j] == data[j + 1]);
        lemma_first_nl_at(data.skip(1), i - 1);
    }
}

/// The lines of a region: maximal newline-free runs, with the newlines as
/// separators.  The region itself carries no trailing newline.
pub open spec fn split_lines(data: Seq<u8>) -> Seq<Seq<u8>>
    decreases data.len(),
{
    let i = first_nl(data);
    if i >= data.len() {
        seq![data]
    } else {
        seq![data.take(i as int)] + split_lines(data.skip(i as int + 1))
    }
}

/// Every line matches the record grammar.
pub open spec fn all_valid(lines: Seq<Seq<u8>>) -> bool {
    forall|k: int| 0 <= k < lines.len() ==> valid_line(#[trigger] lines[k])
}

/// Offset, relative to the region start, of the first line that does not
/// match the grammar.
pub open spec fn first_bad_offset(data: Seq<u8>) -> int
    decreases data.len(),
{
    let i = first_nl(data);
    if i >= data.len() {
        0
    } else if !valid_line(data.take(i as int)) {
        0
    } else {
        i + 1 + first_bad_offset(data.skip(i as int + 1))
    }
}

/// The aggregation code of a line: the hash of its key bytes.
pub open spec fn line_code(l: Seq<u8>) -> u64 {
    fx_hash64_of(line_key(l))
}

/// Model of folding a sequence of lines into a base model.
pub open spec fn fold_model(m: Map<u64, Multiset<int>>, lines: Seq<Seq<u8>>) -> Map<
    u64,
    Multiset<int>,
>
    decreases lines.len(),
{
    if lines.len() == 0 {
        m
    } else {
        model_add(
            fold_model(m, lines.drop_last()),
            line_code(lines.last()),
            line_value(lines.last()),
        )
    }
}

/// Representative keys after folding a sequence of lines.
pub open spec fn fold_keys(km: Map<u64, Seq<u8>>, lines: Seq<Seq<u8>>) -> Map<u64, Seq<u8>>
    decreases lines.len(),
{
    if lines.len() == 0 {
        km
    } else {
        keys_add(fold_keys(km, lines.drop_last()), line_code(lines.last()), line_key(lines.last()))
    }
}

/// First-occurrence code order after folding a sequence of lines.
pub open spec fn fold_codes(cs: Seq<u64>, lines: Seq<Seq<u8>>) -> Seq<u64>
    decreases lines.len(),
{
    if lines.len() == 0 {
        cs
    } else {
        codes_add(fold_codes(cs, lines.drop_last()), line_code(lines.last()))
    }
}

/// Law: folding lines shard after shard is folding their concatenation.
pub proof fn lemma_fold_model_concat(
    m: Map<u64, Multiset<int>>,
    l1: Seq<Seq<u8>>,
    l2: Seq<Seq<u8>>,
)
    ensures
        fold_model(m, l1 + l2) == fold_model(fold_model(m, l1), l2),
    decreases l2.len(),
{
    if l2.len() == 0 {
        assert(l1 + l2 =~= l1);
    } else {
        assert((l1 + l2).drop_last() =~= l1 + l2.drop_last());
        assert((l1 + l2).last() == l2.last());
        lemma_fold_model_concat(m, l1, l2.drop_last());
    }
}

/// Law: folding lines into a base model merges the base with the fold from
/// the empty model.
pub proof fn lemma_fold_model_merge(m: Map<u64, Multiset<int>>, lines: Seq<Seq<u8>>)
    ensures
        fold_model(m, lines) == model_union(m, fold_model(Map::<u64, Multiset<int>>::empty(), lines)),
    decreases lines.len(),
{
    let empty = Map::<u64, Multiset<int>>::empty();
    if lines.len() == 0 {
        lemma_model_union_empty(m);
    } else {
        let prev = lines.drop_last();
        let code = line_code(lines.last());
        let v = line_value(lines.last());
        lemma_fold_model_merge(m, prev);
        lemma_model_union_add(m, fold_model(empty, prev), code, v);
    }
}

/// Law (order independence): folding any split of the records and merging
/// the two partial models equals folding the whole sequence at once.
pub proof fn lemma_fold_model_split(l1: Seq<Seq<u8>>, l2: Seq<Seq<u8>>)
    ensures
        fold_model(Map::<u64, Multiset<int>>::empty(), l1 + l2) == model_union(
            fold_model(Map::<u64, Multiset<int>>::empty(), l1),
            fold_model(Map::<u64, Multiset<int>>::empty(), l2),
        ),
{
    let empty = Map::<u64, Multiset<int>>::empty();
    lemma_fold_model_concat(empty, l1, l2);
    lemma_fold_model_merge(fold_model(empty, l1), l2);
}

/// Find the next record separator at or after `start`, up to `end`.
pub fn find_newline(data: &[u8], start: usize, end: usize) -> (r: usize)
    requires
        start <= end <= data@.len(),
    ensures
        start <= r <= end,
        r - start == first_nl(data@.subrange(start as int, end as int)),
{
    let mut i = start;
    while i < end
        invariant
            start <= i <= end <= data@.len(),
            forall|j: int| start <= j < i ==> data@[j] != NL,
        decreases end - i,
    {
        if data[i] == NL {
            proof {
                let sub = data@.subrange(start as int, end as int);
                assert(forall|j: int| 0 <= j < sub.len() ==> sub[j] == data@[start + j]);
                lemma_first_nl_at(sub, i - start);
            }
            return i;
        }
        i = i + 1;
    }
    proof {
        let sub = data@.subrange(start as int, end as int);
        assert(forall|j: int| 0 <= j < sub.len() ==> sub[j] == data@[start + j]);
        lemma_first_nl_at(sub, end - start);
    }
    end
}

/// Fold every record of `data[start..end)` into the table.  The region must
/// hold whole lines with no trailing newline.  On the first line that
/// violates the grammar, stop with its byte offset; nothing of the grammar
/// is guessed at, so a malformed line can never contribute a wrong value.
#[verifier::rlimit(100)]
pub fn aggregate_range(
    data: &[u8],
    start: usize,
    end: usize,
    table: &mut AggregationTable,
) -> (r: Result<(), ParseError>)
    requires
        start < end <= data@.len(),
        old(table).wf(),
        old(table).total_count() + (end - start) <= MAX_COUNT,
    ensures
        final(table).wf(),
        r is Ok ==> all_valid(split_lines(data@.subrange(start as int, end as int))),
        r is Ok ==> final(table).model() == fold_model(
            old(table).model(),
            split_lines(data@.subrange(start as int, end as int)),
        ),
        r is Ok ==> final(table).keys_model() == fold_keys(
            old(table).keys_model(),
            split_lines(data@.subrange(start as int, end as int)),
        ),
        r is Ok ==> final(table).codes() == fold_codes(
            old(table).codes(),
            split_lines(data@.subrange(start as int, end as int)),
        ),
        r is Ok ==> final(table).total_count() == old(table).total_count() + split_lines(
            data@.subrange(start as int, end as int),
        ).len(),
        r is Err ==> !all_valid(split_lines(data@.subrange(start as int, end as int))),
        r is Err ==> r->Err_0.offset == start + first_bad_offset(
            data@.subrange(start as int, end as int),
        ),
{
    let ghost region = data@.subrange(start as int, end as int);
    let ghost m0 = old(table).model();
    let ghost km0 = old(table).keys_model();
    let ghost cs0 = old(table).codes();
    let ghost t0 = old(table).total_count();
    let ghost mut done: Seq<Seq<u8>> = Seq::empty();
    let mut p = start;
    proof {
        assert(region.skip(0) =~= region);
        assert(split_lines(region) =~= done + split_lines(region.skip(p - start)));
    }
    loop
        invariant
            start <= p <= end <= data@.len(),
            region == data@.subrange(start as int, end as int),
            m0 == old(table).model(),
            km0 == old(table).keys_model(),
            cs0 == old(table).codes(),
            t0 == old(table).total_count(),
            table.wf(),
            table.model() == fold_model(m0, done),
            table.keys_model() == fold_keys(km0, done),
            table.codes() == fold_codes(cs0, done),
            table.total_count() == t0 + done.len(),
            t0 + done.len() + (end - p) <= MAX_COUNT,
            all_valid(done),
            split_lines(region) == done + split_lines(region.skip(p - start)),
            !all_valid(split_lines(region.skip(p - start))) ==> first_bad_offset(region) == (p
                - start) + first_bad_offset(region.skip(p - start)),
        decreases end - p,
    {
        let nl = find_newline(data, p, end);
        let ghost rem = region.skip(p - start);
        proof {
            assert(rem =~= data@.subrange(p as int, end as int));
            assert(first_nl(rem) == nl - p);
        }
        let line = slice_subrange(data, p, nl);
        proof {
            if nl < end {
                assert(line@ =~= rem.take(nl - p));
            } else {
                assert(line@ =~= rem);
                assert(split_lines(rem) =~= seq![rem]);
            }
        }
        let parsed = fast_parse_line(line);
        match parsed {
            None => {
                proof {
                    if nl < end {
                        assert(split_lines(rem)[0] == line@);
                    } else {
                        assert(split_lines(rem)[0] == line@);
                    }
                    assert(!all_valid(split_lines(rem)));
                    assert(first_bad_offset(rem) == 0);
                    assert(first_bad_offset(region) == (p - start) + 0);
                    assert(split_lines(region)[done.len() as int] == split_lines(rem)[0]);
                    assert(!all_valid(split_lines(region)));
                }
                return Err(ParseError { offset: p });
            },
            Some(kv) => {
                let key = slice_subrange(line, 0, kv.0);
                let code = key_code(key);
                proof {
                    assert(key@ =~= line@.take(kv.0 as int));
                    assert(key@ == line_key(line@));
                    assert(code == line_code(line@));
                    // a valid line spans at least four bytes
                    assert(line@.len() >= 4);
                    assert(end - p >= 4);
                    assert(table.total_count() < MAX_COUNT);
                }
                table.add_measurement(code, key, kv.1);
                proof {
                    let prev_done = done;
                    done = done.push(line@);
                    assert(done.drop_last() =~= prev_done);
                    assert(done.last() == line@);
                    assert(fold_model(m0, done) == model_add(
                        fold_model(m0, prev_done),
                        line_code(line@),
                        line_value(line@),
                    ));
                    assert(fold_keys(km0, done) == keys_add(
                        fold_keys(km0, prev_done),
                        line_code(line@),
                        line_key(line@),
                    ));
                    assert(fold_codes(cs0, done) == codes_add(
                        fold_codes(cs0, prev_done),
                        line_code(line@),
                    ));
                    assert forall|k: int| 0 <= k < done.len() implies valid_line(
                        #[trigger] done[k],
                    ) by {
                        if k < prev_done.len() {
                            assert(done[k] == prev_done[k]);
                        } else {
                            assert(done[k] == line@);
                        }
                    }
                }
                if nl >= end {
                    proof {
                        assert(split_lines(region) =~= done);
                        assert(table.model() == fold_model(
                            old(table).model(),
                            split_lines(data@.subrange(start as int, end as int)),
                        ));
                        assert(table.keys_model() == fold_keys(
                            old(table).keys_model(),
                            split_lines(data@.subrange(start as int, end as int)),
                        ));
                    }
                    return Ok(());
                }
                proof {
                    assert(split_lines(rem) =~= seq![line@] + split_lines(
                        rem.skip(nl - p + 1),
                    ));
                    assert(rem.skip(nl - p + 1) =~= region.skip(nl + 1 - start));
                    assert(split_lines(region) =~= done + split_lines(region.skip(nl + 1 - start)));
                    if !all_valid(split_lines(region.skip(nl + 1 - start))) {
                        let tail_lines = split_lines(rem.skip(nl - p + 1));
                        let k = choose|k: int|
                            0 <= k < tail_lines.len() && !valid_line(#[trigger] tail_lines[k]);
                        assert(split_lines(rem)[k + 1] == tail_lines[k]);
                        assert(!all_valid(split_lines(rem)));
                        assert(first_bad_offset(rem) == (nl - p) + 1 + first_bad_offset(
                            rem.skip(nl - p + 1),
                        ));
                    }
                }
                p = nl + 1;
            },
        }
    }
}

/// Compute the whole summary of a mapped input: check the trailing newline,
/// fold every record into one table, and render the sorted report.  Exactly
/// the inputs whose every line matches the grammar produce a summary.
pub fn compute_summary(data: &[u8]) -> (r: Result<Vec<u8>, SummaryError>)
    requires
        data@.len() <= MAX_COUNT,
    ensures
        ({
            let stripped = data@.drop_last();
            let lines = split_lines(stripped);
            match r {
                Ok(out) => {
                    &&& data@.len() >= 1
                    &&& data@.last() == NL
                    &&& all_valid(lines)
                    &&& out@ == crate::report::render_output(
                        crate::report::sort_entries(
                            crate::report::entries_of(
                                fold_codes(Seq::<u64>::empty(), lines),
                                fold_keys(Map::<u64, Seq<u8>>::empty(), lines),
                                fold_model(Map::<u64, Multiset<int>>::empty(), lines),
                            ),
                        ),
                    )
                },
                Err(SummaryError::MissingNewline) => data@.len() == 0 || data@.last() != NL,
                Err(SummaryError::Grammar(e)) => {
                    &&& data@.len() >= 1
                    &&& data@.last() == NL
                    &&& !all_valid(lines)
                    &&& e.offset == first_bad_offset(stripped)
                },
            }
        }),
{
    let n = data.len();
    if n == 0 || data[n - 1] != NL {
        return Err(SummaryError::MissingNewline);
    }
    let end = n - 1;
    if end == 0 {
        proof {
            let stripped = data@.drop_last();
            assert(stripped.len() == 0);
            assert(split_lines(stripped) =~= seq![stripped]);
            assert(!valid_line(stripped));
            assert(!all_valid(split_lines(stripped))) by {
                if all_valid(split_lines(stripped)) {
                    assert(valid_line(split_lines(stripped)[0]));
                }
            }
            assert(first_bad_offset(stripped) == 0);
        }
        return Err(SummaryError::Grammar(ParseError { offset: 0 }));
    }
    let mut table = AggregationTable::new();
    let res = aggregate_range(data, 0, end, &mut table);
    proof {
        assert(data@.subrange(0, end as int) =~= data@.drop_last());
    }
    match res {
        Err(e) => Err(SummaryError::Grammar(e)),
        Ok(_) => {
            let out = render_summary(table);
            Ok(out)
        },
    }
}

} // verus!
