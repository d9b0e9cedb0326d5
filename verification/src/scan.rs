//! The linear scan of a span of input: record after record, folded into one
//! mapping.

use vstd::prelude::*;
use vstd::slice::slice_subrange;
use crate::bytes::{find, lemma_position, lemma_position_is, position, DELIMITER, NEWLINE};
use crate::record::{
    fold_record,
    process_record,
    record_fields,
    ErrorKind,
    Failure,
    ParseError,
};
use crate::stations::{counts_within, observe_entry, Stations};
use crate::stats::Stats;

verus! {

/// The records of `data`: the spans that its newlines end, and what is left
/// after the last newline where that is not empty.
pub open spec fn records(data: Seq<u8>) -> Seq<Seq<u8>>
    decreases data.len(),
{
    if data.len() == 0 {
        Seq::empty()
    } else {
        let n = position(data, NEWLINE);
        if 0 <= n < data.len() {
            seq![data.take(n)] + records(data.skip(n + 1))
        } else {
            seq![data]
        }
    }
}

/// The outcome `acc` after the records `rs` were folded into it in turn.
pub open spec fn fold_records(
    acc: Result<Map<Seq<char>, Stats>, Failure>,
    rs: Seq<Seq<u8>>,
) -> Result<Map<Seq<char>, Stats>, Failure>
    decreases rs.len(),
{
    if rs.len() == 0 {
        acc
    } else {
        fold_record(fold_records(acc, rs.drop_last()), rs.last())
    }
}

/// What one linear scan of `data` gives: the mapping of all its records, or
/// the first record that was refused.
pub open spec fn aggregate(data: Seq<u8>) -> Result<Map<Seq<char>, Stats>, Failure> {
    fold_records(Ok(Map::empty()), records(data))
}

/// A span has no more records than bytes.
pub proof fn lemma_records_len(data: Seq<u8>)
    ensures
        records(data).len() <= data.len(),
    decreases data.len(),
{
    if data.len() > 0 {
        let n = position(data, NEWLINE);
        lemma_position(data, NEWLINE);
        if n < data.len() {
            lemma_records_len(data.skip(n + 1));
        }
    }
}

/// A failure stays whatever records follow.
pub proof fn lemma_fold_failure(failure: Failure, rs: Seq<Seq<u8>>)
    ensures
        fold_records(Err(failure), rs) == Err::<Map<Seq<char>, Stats>, Failure>(failure),
    decreases rs.len(),
{
    if rs.len() > 0 {
        lemma_fold_failure(failure, rs.drop_last());
    }
}

/// Folding two runs of records one after the other is folding the joined run.
pub proof fn lemma_fold_concat(
    acc: Result<Map<Seq<char>, Stats>, Failure>,
    r1: Seq<Seq<u8>>,
    r2: Seq<Seq<u8>>,
)
    ensures
        fold_records(acc, r1 + r2) == fold_records(fold_records(acc, r1), r2),
    decreases r2.len(),
{
    if r2.len() == 0 {
        assert(r1 + r2 =~= r1);
    } else {
        assert((r1 + r2).drop_last() =~= r1 + r2.drop_last());
        assert((r1 + r2).last() == r2.last());
        lemma_fold_concat(acc, r1, r2.drop_last());
    }
}

/// After `n` records no key has been counted more than `n` times.
pub proof fn lemma_fold_counts(rs: Seq<Seq<u8>>)
    ensures
        fold_records(Ok(Map::empty()), rs) matches Ok(m) ==> counts_within(m, rs.len() as int),
    decreases rs.len(),
{
    if rs.len() > 0 {
        lemma_fold_counts(rs.drop_last());
    }
}

/// The record that starts at `start`, and where the record after it starts.
fn next_record<'a>(data: &'a [u8], start: usize) -> (r: (&'a [u8], usize))
    requires
        start < data@.len(),
    ensures
        start < r.1 <= data@.len(),
        records(data@.skip(start as int)) == seq![r.0@] + records(data@.skip(r.1 as int)),
{
    let len: usize = data.len();
    let end: usize = find(data, start, NEWLINE);
    let record: &'a [u8] = slice_subrange(data, start, end);
    let next: usize = if end < len {
        end + 1
    } else {
        len
    };
    proof {
        let rest = data@.skip(start as int);
        lemma_position(rest, NEWLINE);
        if end < len {
            assert(rest.take(end - start) =~= record@);
            assert(rest.skip(end - start + 1) =~= data@.skip(next as int));
        } else {
            assert(rest =~= record@);
            assert(records(data@.skip(next as int)) =~= Seq::<Seq<u8>>::empty());
        }
    }
    (record, next)
}

/// Scans one span of input and folds each of its records into a new mapping.
/// The first record that is refused ends the scan and is reported.
pub fn read_stations_data_slice<'a>(data: &'a [u8]) -> (r: Result<Stations<'a>, ParseError<'a>>)
    ensures
        match r {
            Ok(m) => m.wf() && aggregate(data@) == Ok::<Map<Seq<char>, Stats>, Failure>(m@),
            Err(e) => aggregate(data@) == Err::<Map<Seq<char>, Stats>, Failure>(e@),
        },
{
    let len: usize = data.len();
    let mut m: Stations<'a> = Stations::new();
    let mut start: usize = 0;
    let ghost mut done: Seq<Seq<u8>> = Seq::empty();
    assert(data@.skip(0) =~= data@);
    while start < len
        invariant
            start <= len,
            len == data@.len(),
            m.wf(),
            done.len() <= start,
            records(data@) == done + records(data@.skip(start as int)),
            fold_records(Ok(Map::empty()), done) == Ok::<Map<Seq<char>, Stats>, Failure>(m@),
        decreases len - start,
    {
        let (record, next) = next_record(data, start);
        let ghost rest = records(data@.skip(next as int));
        proof {
            lemma_fold_counts(done);
            assert(done + (seq![record@] + rest) =~= done.push(record@) + rest);
            assert(done.push(record@).drop_last() =~= done);
        }
        match process_record(record, &mut m) {
            Ok(()) => {},
            Err(e) => {
                proof {
                    lemma_fold_concat(Ok(Map::empty()), done.push(record@), rest);
                    lemma_fold_failure(e@, rest);
                }
                return Err(e);
            },
        }
        proof {
            done = done.push(record@);
        }
        start = next;
    }
    proof {
        assert(records(data@.skip(start as int)) =~= Seq::<Seq<u8>>::empty());
        assert(done + Seq::<Seq<u8>>::empty() =~= done);
    }
    Ok(m)
}

/// The mapping `m` after the records `rs` were folded into it in turn, the
/// refused ones passed over.
pub open spec fn fold_records_lenient(m: Map<Seq<char>, Stats>, rs: Seq<Seq<u8>>) -> Map<
    Seq<char>,
    Stats,
>
    decreases rs.len(),
{
    if rs.len() == 0 {
        m
    } else {
        let before = fold_records_lenient(m, rs.drop_last());
        match record_fields(rs.last()) {
            Ok((key, value)) => observe_entry(before, key, value),
            Err(_) => before,
        }
    }
}

/// What one lenient scan of `data` gives: the mapping of all its records
/// that are not refused.
pub open spec fn aggregate_lenient(data: Seq<u8>) -> Map<Seq<char>, Stats> {
    fold_records_lenient(Map::empty(), records(data))
}

/// After `n` records the lenient fold has counted no key more than `n`
/// times.
pub proof fn lemma_lenient_counts(rs: Seq<Seq<u8>>)
    ensures
        counts_within(fold_records_lenient(Map::empty(), rs), rs.len() as int),
    decreases rs.len(),
{
    if rs.len() > 0 {
        lemma_lenient_counts(rs.drop_last());
    }
}

/// Where no record is refused, the lenient fold gives the mapping that the
/// strict fold gives.
pub proof fn lemma_lenient_fold(m: Map<Seq<char>, Stats>, rs: Seq<Seq<u8>>)
    ensures
        fold_records(Ok(m), rs) matches Ok(all) ==> fold_records_lenient(m, rs) == all,
    decreases rs.len(),
{
    if rs.len() > 0 {
        lemma_lenient_fold(m, rs.drop_last());
    }
}

/// **The lenient scan is the baseline of the strict one.** On input of which
/// the strict scan refuses no record, both give the same mapping.
pub proof fn lemma_lenient_is_baseline(data: Seq<u8>)
    ensures
        aggregate(data) matches Ok(m) ==> aggregate_lenient(data) == m,
{
    lemma_lenient_fold(Map::empty(), records(data));
}

/// Input without bytes has no records, and its scan gives the mapping
/// without keys.
pub proof fn lemma_aggregate_empty()
    ensures
        records(Seq::<u8>::empty()) == Seq::<Seq<u8>>::empty(),
        aggregate(Seq::<u8>::empty()) == Ok::<Map<Seq<char>, Stats>, Failure>(Map::empty()),
{
}

/// Input that is one record, with or without the newline after it, has that
/// one record. A record without bytes has to have its newline: input
/// without bytes holds no record.
pub proof fn lemma_records_single(record: Seq<u8>)
    requires
        !record.contains(NEWLINE),
    ensures
        records(record.push(NEWLINE)) == seq![record],
        record.len() > 0 ==> records(record) == seq![record],
{
    let line = record.push(NEWLINE);
    lemma_position_is(line, NEWLINE, record.len() as int);
    assert(line.take(record.len() as int) =~= record);
    assert(line.skip(record.len() as int + 1) =~= Seq::<u8>::empty());
    assert(records(Seq::<u8>::empty()) =~= Seq::<Seq<u8>>::empty());
    assert(records(line) =~= seq![record]);
    if record.len() > 0 {
        lemma_position_is(record, NEWLINE, record.len() as int);
    }
}

/// **One record, one key.** The scan of input that is one record, with or
/// without the newline after it, gives exactly the record's key, with a
/// count of one and the record's value as minimum, maximum and sum.
pub proof fn lemma_aggregate_single(record: Seq<u8>, key: Seq<char>, value: int)
    requires
        !record.contains(NEWLINE),
        record_fields(record) == Ok::<(Seq<char>, int), ErrorKind>((key, value)),
    ensures
        aggregate(record) == Ok::<Map<Seq<char>, Stats>, Failure>(
            Map::empty().insert(key, Stats::single(value)),
        ),
        aggregate(record.push(NEWLINE)) == aggregate(record),
{
    lemma_position(record, DELIMITER);
    lemma_records_single(record);
    let rs = seq![record];
    assert(rs.drop_last() =~= Seq::<Seq<u8>>::empty());
    assert(fold_records(Ok(Map::empty()), rs.drop_last()) == Ok::<Map<Seq<char>, Stats>, Failure>(
        Map::empty(),
    ));
}

/// Scans one span of input and folds into a new mapping each of its records
/// that is not refused; the others are passed over.
pub fn read_stations_data<'a>(data: &'a [u8]) -> (m: Stations<'a>)
    ensures
        m.wf(),
        m@ == aggregate_lenient(data@),
{
    let len: usize = data.len();
    let mut m: Stations<'a> = Stations::new();
    let mut start: usize = 0;
    let ghost mut done: Seq<Seq<u8>> = Seq::empty();
    assert(data@.skip(0) =~= data@);
    while start < len
        invariant
            start <= len,
            len == data@.len(),
            m.wf(),
            done.len() <= start,
            records(data@) == done + records(data@.skip(start as int)),
            fold_records_lenient(Map::empty(), done) == m@,
        decreases len - start,
    {
        let (record, next) = next_record(data, start);
        let ghost rest = records(data@.skip(next as int));
        proof {
            lemma_lenient_counts(done);
            assert(done + (seq![record@] + rest) =~= done.push(record@) + rest);
            assert(done.push(record@).drop_last() =~= done);
        }
        let _ = process_record(record, &mut m);
        proof {
            done = done.push(record@);
        }
        start = next;
    }
    proof {
        assert(records(data@.skip(start as int)) =~= Seq::<Seq<u8>>::empty());
        assert(done + Seq::<Seq<u8>>::empty() =~= done);
    }
    m
}

} // verus!
