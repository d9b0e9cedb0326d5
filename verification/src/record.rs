//! One record: a key, the delimiter, and a value.

use vstd::prelude::*;
use vstd::slice::slice_subrange;
use vstd::utf8::{decode_utf8, valid_utf8};
use crate::bytes::{find, position, DELIMITER};
use crate::stations::{observe_entry, Stations};
use crate::stats::Stats;
use crate::text::text_of;
use crate::value::{decimal_tenths, parse_value};

verus! {

/// Why a record was refused.
#[derive(Clone, Copy, Debug, PartialEq, Eq, Structural)]
pub enum ErrorKind {
    /// The key or the value is not text.
    Encoding,
    /// The value is no decimal numeral, or its tenths do not fit 64 bits.
    Format,
    /// The record holds no delimiter.
    MalformedRecord,
}

/// A refused record and why it was refused.
pub struct Failure {
    /// Why the record was refused.
    pub kind: ErrorKind,
    /// The bytes of the record, without its newline.
    pub record: Seq<u8>,
}

/// A refused record, as borrowed from the input, and why it was refused.
#[derive(Clone, Copy, Debug)]
pub struct ParseError<'a> {
    /// Why the record was refused.
    pub kind: ErrorKind,
    /// The bytes of the record, without its newline.
    pub record: &'a [u8],
}

impl<'a> View for ParseError<'a> {
    type V = Failure;

    open spec fn view(&self) -> Failure {
        Failure { kind: self.kind, record: self.record@ }
    }
}

/// The bytes of a record before its first delimiter.
pub open spec fn key_bytes(record: Seq<u8>) -> Seq<u8> {
    record.take(position(record, DELIMITER))
}

/// The bytes of a record after its first delimiter.
pub open spec fn value_bytes(record: Seq<u8>) -> Seq<u8> {
    record.skip(position(record, DELIMITER) + 1)
}

/// The key and the value, in tenths, that a record holds, or why it holds
/// none: no delimiter; a key or a value that is not text; a value that is no
/// numeral. The first of these that applies is the one reported.
pub open spec fn record_fields(record: Seq<u8>) -> Result<(Seq<char>, int), ErrorKind> {
    if position(record, DELIMITER) >= record.len() {
        Err(ErrorKind::MalformedRecord)
    } else if !valid_utf8(key_bytes(record)) || !valid_utf8(value_bytes(record)) {
        Err(ErrorKind::Encoding)
    } else {
        match decimal_tenths(value_bytes(record)) {
            Some(value) => Ok((decode_utf8(key_bytes(record)), value)),
            None => Err(ErrorKind::Format),
        }
    }
}

/// The mapping after one more record, or the first failure: a failure so far
/// stays, and a refused record becomes one.
pub open spec fn fold_record(
    acc: Result<Map<Seq<char>, Stats>, Failure>,
    record: Seq<u8>,
) -> Result<Map<Seq<char>, Stats>, Failure> {
    match acc {
        Err(failure) => Err(failure),
        Ok(m) => match record_fields(record) {
            Ok((key, value)) => Ok(observe_entry(m, key, value)),
            Err(kind) => Err(Failure { kind, record }),
        },
    }
}

/// Parts a record into its key and its value in tenths.
pub fn parse_record<'a>(record: &'a [u8]) -> (r: Result<(&'a str, i64), ParseError<'a>>)
    ensures
        match r {
            Ok((key, value)) => record_fields(record@) == Ok::<(Seq<char>, int), ErrorKind>(
                (key@, value as int),
            ),
            Err(e) => record_fields(record@) == Err::<(Seq<char>, int), ErrorKind>(e.kind)
                && e.record@ == record@,
        },
{
    let len: usize = record.len();
    let delimiter: usize = find(record, 0, DELIMITER);
    assert(record@.skip(0) =~= record@);
    if delimiter >= len {
        return Err(ParseError { kind: ErrorKind::MalformedRecord, record });
    }
    let key_span: &'a [u8] = slice_subrange(record, 0, delimiter);
    let value_span: &'a [u8] = slice_subrange(record, delimiter + 1, len);
    assert(key_span@ =~= key_bytes(record@));
    assert(value_span@ =~= value_bytes(record@));
    let key: &'a str = match text_of(key_span) {
        Some(key) => key,
        None => {
            return Err(ParseError { kind: ErrorKind::Encoding, record });
        },
    };
    if text_of(value_span).is_none() {
        return Err(ParseError { kind: ErrorKind::Encoding, record });
    }
    match parse_value(value_span) {
        Some(value) => Ok((key, value)),
        None => Err(ParseError { kind: ErrorKind::Format, record }),
    }
}

/// Folds one record into the mapping, or reports why it was refused and
/// leaves the mapping as it was.
pub fn process_record<'a>(record: &'a [u8], m: &mut Stations<'a>) -> (r: Result<
    (),
    ParseError<'a>,
>)
    requires
        old(m).wf(),
        record_fields(record@) matches Ok((key, _)) ==> !old(m)@.contains_key(key) || old(
            m,
        )@[key].count < u64::MAX,
    ensures
        final(m).wf(),
        match r {
            Ok(()) => fold_record(Ok(old(m)@), record@) == Ok::<Map<Seq<char>, Stats>, Failure>(
                final(m)@,
            ),
            Err(e) => fold_record(Ok(old(m)@), record@) == Err::<Map<Seq<char>, Stats>, Failure>(
                e@,
            ) && final(m)@ == old(m)@,
        },
{
    match parse_record(record) {
        Ok((key, value)) => {
            m.observe(key, value);
            Ok(())
        },
        Err(e) => Err(e),
    }
}

} // verus!
