//! The whole input, chunk by chunk: the chunks are scanned side by side, the
//! partial mappings merged in order, and the outcome is that of one linear
//! scan.

use vstd::prelude::*;
use rayon::iter::{IntoParallelRefIterator, ParallelIterator};
use crate::bytes::{lemma_position, lemma_position_is, position, NEWLINE};
use crate::chunk::{aligned, chunks, concat, lemma_chunks, slice, views};
use crate::record::{record_fields, Failure, ParseError};
use crate::scan::{
    aggregate,
    fold_records,
    lemma_fold_concat,
    lemma_fold_counts,
    lemma_fold_failure,
    lemma_records_len,
    read_stations_data_slice,
    records,
};
use crate::merge::{lemma_merge_empty, lemma_merge_fold, merge, merge_maps};
use crate::stations::{counts_within, Stations};
use crate::stats::Stats;

verus! {

/// Two outcomes as one: the first failure, or the merged mappings.
pub open spec fn merge_outcomes(
    first: Result<Map<Seq<char>, Stats>, Failure>,
    second: Result<Map<Seq<char>, Stats>, Failure>,
) -> Result<Map<Seq<char>, Stats>, Failure> {
    match first {
        Err(failure) => Err(failure),
        Ok(a) => match second {
            Err(failure) => Err(failure),
            Ok(b) => Ok(merge_maps(a, b)),
        },
    }
}

/// What scanning each chunk by itself and merging the outcomes in order
/// gives.
pub open spec fn aggregate_chunks(cs: Seq<Seq<u8>>) -> Result<Map<Seq<char>, Stats>, Failure>
    decreases cs.len(),
{
    if cs.len() == 0 {
        Ok(Map::empty())
    } else {
        merge_outcomes(aggregate_chunks(cs.drop_last()), aggregate(cs.last()))
    }
}

/// Whether `r` is what the scan of `data` gives.
pub open spec fn is_scan_of(r: Result<Stations<'_>, ParseError<'_>>, data: Seq<u8>) -> bool {
    match r {
        Ok(m) => m.wf() && aggregate(data) == Ok::<Map<Seq<char>, Stats>, Failure>(m@),
        Err(e) => aggregate(data) == Err::<Map<Seq<char>, Stats>, Failure>(e@),
    }
}

/// The records of a span that ends with a newline, followed by those of a
/// second span, are the records of the two spans joined.
pub proof fn lemma_records_concat(a: Seq<u8>, b: Seq<u8>)
    requires
        a.len() == 0 || a.last() == NEWLINE,
    ensures
        records(a + b) == records(a) + records(b),
    decreases a.len(),
{
    if a.len() == 0 {
        assert(a + b =~= b);
        assert(records(a) + records(b) =~= records(b));
    } else {
        let n = position(a, NEWLINE);
        lemma_position(a, NEWLINE);
        assert(n < a.len()) by {
            if n >= a.len() {
                assert(a[a.len() - 1] != NEWLINE);
            }
        }
        lemma_position_is(a + b, NEWLINE, n);
        let rest = a.skip(n + 1);
        assert((a + b).take(n) =~= a.take(n));
        assert((a + b).skip(n + 1) =~= rest + b);
        if rest.len() > 0 {
            assert(rest.last() == a.last());
        }
        lemma_records_concat(rest, b);
        assert(records(a + b) =~= records(a) + records(b));
    }
}

/// The records of each span in turn.
pub open spec fn records_of_each(cs: Seq<Seq<u8>>) -> Seq<Seq<u8>>
    decreases cs.len(),
{
    if cs.len() == 0 {
        Seq::empty()
    } else {
        records_of_each(cs.drop_last()) + records(cs.last())
    }
}

/// The records of spans of which every one but the last ends with a newline
/// are, in turn, the records of the spans joined.
pub proof fn lemma_records_of_each(cs: Seq<Seq<u8>>)
    requires
        aligned(cs),
    ensures
        records_of_each(cs) == records(concat(cs)),
    decreases cs.len(),
{
    if cs.len() > 0 {
        let head = cs.drop_last();
        lemma_records_of_each(head);
        lemma_concat_ends(head);
        lemma_records_concat(concat(head), cs.last());
    }
}

/// **No record is split.** Whatever the target size, the records of the
/// chunks of `data`, chunk after chunk, are exactly the records of `data`.
pub proof fn lemma_chunks_split_no_record(data: Seq<u8>, size: int)
    requires
        size >= 0,
    ensures
        records_of_each(chunks(data, size)) == records(data),
{
    lemma_chunks(data, size);
    lemma_records_of_each(chunks(data, size));
}

/// Folding records into a mapping gives what folding them into an empty
/// mapping and merging afterwards gives.
pub proof fn lemma_fold_merge(a: Map<Seq<char>, Stats>, rs: Seq<Seq<u8>>)
    ensures
        fold_records(Ok(a), rs) == merge_outcomes(Ok(a), fold_records(Ok(Map::empty()), rs)),
    decreases rs.len(),
{
    if rs.len() == 0 {
        lemma_merge_empty(a);
    } else {
        lemma_fold_merge(a, rs.drop_last());
        match fold_records(Ok(Map::empty()), rs.drop_last()) {
            Ok(b) => {
                match record_fields(rs.last()) {
                    Ok((key, value)) => {
                        lemma_merge_fold(a, b, key, Stats::single(value));
                    },
                    Err(_) => {},
                }
            },
            Err(_) => {},
        }
    }
}

/// **Merging is scanning the joined input.** The outcomes of the scans of two
/// spans, merged, are the outcome of one scan of the two spans joined, where
/// the first span ends with a newline.
pub proof fn lemma_merge_is_joined_scan(a: Seq<u8>, b: Seq<u8>)
    requires
        a.len() == 0 || a.last() == NEWLINE,
    ensures
        merge_outcomes(aggregate(a), aggregate(b)) == aggregate(a + b),
{
    lemma_records_concat(a, b);
    lemma_fold_concat(Ok(Map::empty()), records(a), records(b));
    match aggregate(a) {
        Ok(m) => {
            lemma_fold_merge(m, records(b));
        },
        Err(failure) => {
            lemma_fold_failure(failure, records(b));
        },
    }
}

/// Scanning spans one by one and merging the outcomes gives what one scan
/// of the joined spans gives, where every span but the last ends with a
/// newline.
pub proof fn lemma_aggregate_chunks(cs: Seq<Seq<u8>>)
    requires
        aligned(cs),
    ensures
        aggregate_chunks(cs) == aggregate(concat(cs)),
    decreases cs.len(),
{
    if cs.len() > 0 {
        let head = cs.drop_last();
        lemma_aggregate_chunks(head);
        lemma_concat_ends(head);
        lemma_merge_is_joined_scan(concat(head), cs.last());
    }
}

/// The join of spans that each end with a newline is empty or ends with one.
pub proof fn lemma_concat_ends(cs: Seq<Seq<u8>>)
    requires
        forall|i: int| 0 <= i < cs.len() ==> (#[trigger] cs[i]).len() > 0 && cs[i].last() == NEWLINE,
    ensures
        concat(cs).len() == 0 || concat(cs).last() == NEWLINE,
{
}

/// One scan of a span counts no key more often than the span has bytes.
pub proof fn lemma_aggregate_counts(data: Seq<u8>)
    ensures
        aggregate(data) matches Ok(m) ==> counts_within(m, data.len() as int),
{
    lemma_records_len(data);
    lemma_fold_counts(records(data));
}

/// **Chunking changes nothing.** Whatever the target size, scanning the
/// chunks of `data` one by one and merging the outcomes in order gives
/// exactly what one linear scan of `data` gives: the same keys with the same
/// statistics, or the same first failure.
pub proof fn lemma_chunked_is_linear(data: Seq<u8>, size: int)
    requires
        size >= 0,
    ensures
        aggregate_chunks(chunks(data, size)) == aggregate(data),
{
    lemma_chunks(data, size);
    lemma_aggregate_chunks(chunks(data, size));
}

/// **The outcome does not depend on the chunk size.** For any two target
/// sizes, scanning the chunks of the same input and merging the outcomes
/// gives the same keys with the same statistics, or the same first failure.
pub proof fn lemma_chunk_size_is_immaterial(data: Seq<u8>, size1: int, size2: int)
    requires
        size1 >= 0,
        size2 >= 0,
    ensures
        aggregate_chunks(chunks(data, size1)) == aggregate_chunks(chunks(data, size2)),
{
    lemma_chunked_is_linear(data, size1);
    lemma_chunked_is_linear(data, size2);
}

/// Scans every chunk with `read_stations_data_slice`, the chunks side by side
/// on rayon's thread pool (`par_iter`, `map`, `collect`), and hands back the
/// outcomes in the order of the chunks. Taken on trust of rayon: that `map`
/// calls the scan once on each chunk, and that `collect` into a `Vec` keeps
/// the items in the order of the slice they came from, as it does for every
/// parallel iterator that knows its length.
#[verifier::external_body]
fn scan_chunks<'a>(chunks: &Vec<&'a [u8]>) -> (r: Vec<Result<Stations<'a>, ParseError<'a>>>)
    ensures
        r@.len() == chunks@.len(),
        forall|i: int| 0 <= i < r@.len() ==> is_scan_of(#[trigger] r@[i], chunks@[i]@),
{
    chunks.par_iter().map(|chunk| read_stations_data_slice(*chunk)).collect()
}

/// Scans `data` chunk by chunk: cuts it into chunks of about `chunk_size`
/// bytes, scans the chunks side by side, and merges the partial mappings in
/// the order of the chunks. The outcome is that of one linear scan of `data`.
pub fn read_stations_data_chunked<'a>(data: &'a [u8], chunk_size: usize) -> (r: Result<
    Stations<'a>,
    ParseError<'a>,
>)
    ensures
        is_scan_of(r, data@),
        match r {
            Ok(m) => aggregate_chunks(chunks(data@, chunk_size as int)) == Ok::<
                Map<Seq<char>, Stats>,
                Failure,
            >(m@),
            Err(e) => aggregate_chunks(chunks(data@, chunk_size as int)) == Err::<
                Map<Seq<char>, Stats>,
                Failure,
            >(e@),
        },
{
    let len: usize = data.len();
    let spans: Vec<&'a [u8]> = slice(data, chunk_size);
    let partials: Vec<Result<Stations<'a>, ParseError<'a>>> = scan_chunks(&spans);
    let ghost cs = views(spans@);
    let mut acc: Stations<'a> = Stations::new();
    let mut i: usize = 0;
    proof {
        lemma_chunked_is_linear(data@, chunk_size as int);
        assert(cs.take(0) =~= Seq::<Seq<u8>>::empty());
    }
    while i < partials.len()
        invariant
            i <= partials@.len(),
            partials@.len() == spans@.len(),
            len == data@.len(),
            cs == views(spans@),
            cs == chunks(data@, chunk_size as int),
            aligned(cs),
            concat(cs) == data@,
            forall|j: int| 0 <= j < partials@.len() ==> is_scan_of(#[trigger] partials@[j], cs[j]),
            acc.wf(),
            aggregate_chunks(cs.take(i as int)) == Ok::<Map<Seq<char>, Stats>, Failure>(acc@),
            aggregate_chunks(cs) == aggregate(data@),
        decreases partials@.len() - i,
    {
        let ghost head = cs.take(i as int);
        let ghost next = cs.take(i + 1);
        proof {
            assert(next.drop_last() =~= head);
            assert(next.last() == cs[i as int]);
            assert(is_scan_of(partials@[i as int], cs[i as int]));
        }
        match &partials[i] {
            Ok(m) => {
                proof {
                    lemma_prefix_aligned(cs, i as int);
                    lemma_prefix_aligned(cs, i + 1);
                    lemma_aggregate_chunks(head);
                    lemma_aggregate_counts(concat(head));
                    lemma_aggregate_counts(cs[i as int]);
                    lemma_concat_bound(cs, i + 1);
                    assert(concat(next) =~= concat(head) + cs[i as int]);
                    assert(counts_within(acc@, concat(head).len() as int));
                    assert(counts_within(m@, cs[i as int].len() as int));
                    assert(concat(head).len() + cs[i as int].len() <= len);
                }
                acc = merge(acc, m);
            },
            Err(e) => {
                proof {
                    lemma_take_failure(cs, i + 1, e@);
                }
                return Err(*e);
            },
        }
        i = i + 1;
    }
    proof {
        assert(cs.take(i as int) =~= cs);
    }
    Ok(acc)
}

/// A failure among the first spans is the failure of all of them.
pub proof fn lemma_take_failure(cs: Seq<Seq<u8>>, n: int, failure: Failure)
    requires
        0 <= n <= cs.len(),
        aggregate_chunks(cs.take(n)) == Err::<Map<Seq<char>, Stats>, Failure>(failure),
    ensures
        aggregate_chunks(cs) == Err::<Map<Seq<char>, Stats>, Failure>(failure),
    decreases cs.len() - n,
{
    if n < cs.len() {
        assert(cs.take(n + 1).drop_last() =~= cs.take(n));
        lemma_take_failure(cs, n + 1, failure);
    } else {
        assert(cs.take(n) =~= cs);
    }
}

/// The first spans of aligned spans are aligned.
pub proof fn lemma_prefix_aligned(cs: Seq<Seq<u8>>, n: int)
    requires
        aligned(cs),
        0 <= n <= cs.len(),
    ensures
        aligned(cs.take(n)),
{
}

/// The first spans joined are no longer than all of them joined.
pub proof fn lemma_concat_bound(cs: Seq<Seq<u8>>, n: int)
    requires
        0 <= n <= cs.len(),
    ensures
        concat(cs.take(n)).len() <= concat(cs).len(),
    decreases cs.len() - n,
{
    if n < cs.len() {
        assert(cs.take(n + 1).drop_last() =~= cs.take(n));
        lemma_concat_bound(cs, n + 1);
    } else {
        assert(cs.take(n) =~= cs);
    }
}

} // verus!
