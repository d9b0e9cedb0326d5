//! The report: every key with its minimum, mean and maximum, each written
//! with one digit after the point.

use vstd::prelude::*;
use vstd::utf8::encode_utf8;
use crate::bytes::lemma_position_is;
use crate::stations::{Entry, Stations};
use crate::stats::Stats;
use crate::value::{
    all_digits,
    decimal_tenths,
    digits_value,
    fraction_part,
    is_digit,
    unsigned,
    whole_part,
    MINUS,
    POINT,
    ZERO,
};

verus! {

/// Opens the report.
pub const OPEN: u8 = 0x7b;

/// Closes the report.
pub const CLOSE: u8 = 0x7d;

/// Stands between a key and its statistics.
pub const EQUALS: u8 = 0x3d;

/// Stands between minimum, mean and maximum.
pub const SLASH: u8 = 0x2f;

/// Stands, with a space after it, between two entries.
pub const COMMA: u8 = 0x2c;

/// Follows the comma between two entries.
pub const SPACE: u8 = 0x20;

/// The digit that writes `d`, a number below ten.
pub open spec fn digit(d: int) -> u8 {
    (ZERO + d) as u8
}

/// The digits that write `n` in base ten, without leading zeros.
pub open spec fn digits_of(n: nat) -> Seq<u8>
    decreases n,
{
    if n < 10 {
        seq![digit(n as int)]
    } else {
        digits_of(n / 10).push(digit(n as int % 10))
    }
}

/// The absolute value.
pub open spec fn abs(v: int) -> nat {
    if v < 0 {
        (-v) as nat
    } else {
        v as nat
    }
}

/// The text of a value in tenths: a minus sign where it is below zero, the
/// whole digits, the point, and the tenth.
pub open spec fn tenths_text(v: int) -> Seq<u8> {
    let sign = if v < 0 {
        seq![MINUS]
    } else {
        Seq::empty()
    };
    sign + digits_of(abs(v) / 10) + seq![POINT, digit(abs(v) as int % 10)]
}

/// The text of one entry: the key, and after `=` its minimum, mean and
/// maximum with `/` between them.
pub open spec fn entry_text(key: Seq<char>, s: Stats) -> Seq<u8> {
    encode_utf8(key) + seq![EQUALS] + tenths_text(s.min) + seq![SLASH] + tenths_text(s.mean())
        + seq![SLASH] + tenths_text(s.max)
}

/// The texts of the entries in order, with a comma and a space between them.
pub open spec fn entries_text(es: Seq<Entry<'_>>) -> Seq<u8>
    decreases es.len(),
{
    if es.len() == 0 {
        Seq::empty()
    } else if es.len() == 1 {
        entry_text(es[0].spec_key(), es[0].spec_data())
    } else {
        entries_text(es.drop_last()) + seq![COMMA, SPACE] + entry_text(
            es.last().spec_key(),
            es.last().spec_data(),
        )
    }
}

/// The report of a mapping: its entries in the rising order of their keys,
/// in braces.
pub open spec fn report_text(es: Seq<Entry<'_>>) -> Seq<u8> {
    seq![OPEN] + entries_text(es) + seq![CLOSE]
}

/// The digits of a number are digits, at least one, and write that number.
pub proof fn lemma_digits_of(n: nat)
    ensures
        digits_of(n).len() >= 1,
        all_digits(digits_of(n)),
        digits_value(digits_of(n)) == n,
    decreases n,
{
    if n < 10 {
        let s = digits_of(n);
        assert(s.drop_last() =~= Seq::<u8>::empty());
        assert(digits_value(s.drop_last()) == 0);
    } else {
        lemma_digits_of(n / 10);
        let s = digits_of(n);
        assert(s.drop_last() =~= digits_of(n / 10));
    }
}

/// **What is written reads back.** The text of a value in tenths is a decimal
/// numeral that stands for that value.
pub proof fn lemma_tenths_text_reads_back(v: int)
    requires
        -i64::MAX <= v <= i64::MAX,
    ensures
        decimal_tenths(tenths_text(v)) == Some(v),
{
    let m = abs(v);
    let whole = digits_of(m / 10);
    let tail = seq![POINT, digit(m as int % 10)];
    let body = whole + tail;
    let t = tenths_text(v);
    lemma_digits_of(m / 10);
    assert(is_digit(whole[0]));
    if v < 0 {
        assert(t =~= seq![MINUS] + body);
        assert(t[0] == MINUS);
        assert(t.skip(1) =~= body);
    } else {
        assert(t =~= body);
        assert(t[0] == whole[0]);
    }
    assert(unsigned(t) == body);
    assert forall|j: int| 0 <= j < whole.len() implies body[j] != POINT by {
        assert(is_digit(whole[j]));
    }
    lemma_position_is(body, POINT, whole.len() as int);
    assert(whole_part(t) =~= whole);
    assert(fraction_part(t) =~= seq![digit(m as int % 10)]);
}

/// Appends the bytes of `bytes` to `out`.
fn append(out: &mut Vec<u8>, bytes: &[u8])
    ensures
        final(out)@ == old(out)@ + bytes@,
{
    let mut i: usize = 0;
    while i < bytes.len()
        invariant
            i <= bytes@.len(),
            out@ == old(out)@ + bytes@.take(i as int),
        decreases bytes@.len() - i,
    {
        out.push(bytes[i]);
        assert(bytes@.take(i + 1) =~= bytes@.take(i as int).push(bytes@[i as int]));
        i = i + 1;
    }
    assert(bytes@.take(i as int) =~= bytes@);
}

/// Appends the digits of `n` to `out`.
fn write_digits(out: &mut Vec<u8>, n: u64)
    ensures
        final(out)@ == old(out)@ + digits_of(n as nat),
    decreases n,
{
    if n >= 10 {
        write_digits(out, n / 10);
    }
    out.push(ZERO + (n % 10) as u8);
}

/// Appends the text of a value in tenths to `out`.
pub fn write_tenths(out: &mut Vec<u8>, v: i64)
    ensures
        final(out)@ == old(out)@ + tenths_text(v as int),
{
    let m: u64 = if v < 0 {
        out.push(MINUS);
        (-(v + 1)) as u64 + 1
    } else {
        v as u64
    };
    write_digits(out, m / 10);
    out.push(POINT);
    out.push(ZERO + (m % 10) as u8);
}

/// The text of a value in tenths.
pub fn format_tenths(v: i64) -> (r: Vec<u8>)
    ensures
        r@ == tenths_text(v as int),
{
    let mut out: Vec<u8> = Vec::new();
    write_tenths(&mut out, v);
    out
}

/// Appends the text of one entry to `out`.
fn write_entry(out: &mut Vec<u8>, e: &Entry<'_>)
    requires
        e.spec_data().wf(),
    ensures
        final(out)@ == old(out)@ + entry_text(e.spec_key(), e.spec_data()),
{
    let d = e.data();
    let ghost s = e.spec_data();
    append(out, e.key().as_bytes());
    out.push(EQUALS);
    let ghost part1 = out@;
    assert(part1 =~= old(out)@ + (encode_utf8(e.spec_key()) + seq![EQUALS]));
    write_tenths(out, d.min());
    out.push(SLASH);
    let ghost part2 = out@;
    assert(part2 =~= old(out)@ + (encode_utf8(e.spec_key()) + seq![EQUALS] + tenths_text(s.min)
        + seq![SLASH]));
    write_tenths(out, d.mean());
    out.push(SLASH);
    let ghost part3 = out@;
    assert(part3 =~= old(out)@ + (encode_utf8(e.spec_key()) + seq![EQUALS] + tenths_text(s.min)
        + seq![SLASH] + tenths_text(s.mean()) + seq![SLASH]));
    write_tenths(out, d.max());
    assert(out@ =~= old(out)@ + entry_text(e.spec_key(), s));
}

/// The report of a mapping: `{key=min/mean/max, ...}`, the keys in rising
/// order and the mean rounded to the nearest tenth.
pub fn format_result(m: &Stations<'_>) -> (r: Vec<u8>)
    requires
        m.wf(),
    ensures
        r@ == report_text(m.spec_entries()),
{
    let mut out: Vec<u8> = Vec::new();
    out.push(OPEN);
    let n: usize = m.len();
    let ghost es = m.spec_entries();
    let mut i: usize = 0;
    assert(out@ =~= seq![OPEN] + entries_text(es.take(0)));
    while i < n
        invariant
            i <= n,
            n == es.len(),
            es == m.spec_entries(),
            m.wf(),
            out@ == seq![OPEN] + entries_text(es.take(i as int)),
        decreases n - i,
    {
        let e = m.entry(i);
        let ghost before = entries_text(es.take(i as int));
        let ghost text = entry_text(e.spec_key(), e.spec_data());
        proof {
            m.lemma_entry_wf(i as int);
            assert(es.take(i + 1).drop_last() =~= es.take(i as int));
            assert(es.take(i + 1).last() == es[i as int]);
            assert(es.take(i + 1)[0] == es[0]);
        }
        if i > 0 {
            out.push(COMMA);
            out.push(SPACE);
            assert(out@ =~= seq![OPEN] + (before + seq![COMMA, SPACE]));
        }
        write_entry(&mut out, &e);
        proof {
            if i > 0 {
                assert(entries_text(es.take(i + 1)) == before + seq![COMMA, SPACE] + text);
                assert(out@ =~= seq![OPEN] + (before + seq![COMMA, SPACE] + text));
            } else {
                assert(before =~= Seq::<u8>::empty());
                assert(entries_text(es.take(i + 1)) == text);
                assert(out@ =~= seq![OPEN] + text);
            }
        }
        i = i + 1;
    }
    out.push(CLOSE);
    assert(es.take(n as int) =~= es);
    out
}

} // verus!
