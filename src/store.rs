use vstd::prelude::*;
use crate::decimal::{
    decimal_text,
    is_digit,
    lemma_decimal_text,
    lemma_signed_text,
    parse_i64_field,
    parse_i64_text,
    parse_u32_field,
    parse_u32_text,
    push_decimal,
    push_signed,
    signed_text,
    MINUS,
};
use crate::reading::Reading;
use crate::split::{free_of, lemma_split_free, lemma_split_piece, split_bytes, split_on};
use crate::time::{seconds_in_range, utc_seconds_in_range};

verus! {

pub const COMMA: u8 = 44;

pub const NEWLINE: u8 = 10;

/// Why the stored readings could not be loaded.
#[derive(Clone, Copy, Debug, PartialEq, Eq, Structural)]
pub enum StoreError {
    /// The backing file does not exist yet.
    Missing,
    /// A line of the backing file is not a reading.
    Malformed,
}

/// One reading as stored, without its line end:
/// `timestamp,systolic,diastolic,pulse` in decimal.
pub open spec fn row_text(r: Reading) -> Seq<u8> {
    ((signed_text(r.timestamp as int).push(COMMA) + decimal_text(r.systolic as nat)).push(COMMA)
        + decimal_text(r.diastolic as nat)).push(COMMA) + decimal_text(r.pulse as nat)
}

pub open spec fn row_line(r: Reading) -> Seq<u8> {
    row_text(r).push(NEWLINE)
}

/// The text of a store holding `rs`, one line each, in order.
pub open spec fn store_text(rs: Seq<Reading>) -> Seq<u8>
    decreases rs.len(),
{
    if rs.len() == 0 {
        Seq::empty()
    } else {
        store_text(rs.drop_last()) + row_line(rs.last())
    }
}

/// Whether chrono can represent the reading's instant.
pub open spec fn valid_reading(r: Reading) -> bool {
    utc_seconds_in_range(r.timestamp as int)
}

/// The reading that one line holds: four comma-separated decimal fields,
/// a timestamp that chrono can represent and three values that fit in `u32`.
pub open spec fn parse_row(line: Seq<u8>) -> Option<Reading> {
    let f = split_on(line, COMMA);
    if f.len() != 4 {
        None
    } else {
        match (parse_i64_text(f[0]), parse_u32_text(f[1]), parse_u32_text(f[2]), parse_u32_text(f[3])) {
            (Some(t), Some(s), Some(d), Some(p)) => if utc_seconds_in_range(t as int) {
                Some(Reading { timestamp: t, systolic: s, diastolic: d, pulse: p })
            } else {
                None
            },
            _ => None,
        }
    }
}

/// The readings of a sequence of lines, where empty lines hold none and any
/// other line that is not a reading makes the whole sequence fail.
pub open spec fn parse_rows(lines: Seq<Seq<u8>>) -> Option<Seq<Reading>>
    decreases lines.len(),
{
    if lines.len() == 0 {
        Some(Seq::empty())
    } else {
        match parse_rows(lines.drop_last()) {
            None => None,
            Some(rs) => if lines.last().len() == 0 {
                Some(rs)
            } else {
                match parse_row(lines.last()) {
                    Some(r) => Some(rs.push(r)),
                    None => None,
                }
            },
        }
    }
}

/// The readings that a store's text holds, in the order of their lines.
pub open spec fn parse_store(text: Seq<u8>) -> Option<Seq<Reading>> {
    parse_rows(split_on(text, NEWLINE))
}

pub proof fn lemma_rows_fail_extends(lines: Seq<Seq<u8>>, k: int)
    requires
        0 <= k <= lines.len(),
        parse_rows(lines.subrange(0, k)) is None,
    ensures
        parse_rows(lines) is None,
    decreases lines.len(),
{
    if k == lines.len() {
        assert(lines.subrange(0, k) =~= lines);
    } else {
        assert(lines.drop_last().subrange(0, k) =~= lines.subrange(0, k));
        lemma_rows_fail_extends(lines.drop_last(), k);
    }
}

/// Every byte of a stored row is a digit, a minus sign or a comma, and its
/// comma-separated fields are the four numbers' texts.
proof fn lemma_row_fields(r: Reading)
    ensures
        row_text(r).len() > 0,
        free_of(row_text(r), NEWLINE),
        split_on(row_text(r), COMMA) == seq![
            signed_text(r.timestamp as int),
            decimal_text(r.systolic as nat),
            decimal_text(r.diastolic as nat),
            decimal_text(r.pulse as nat),
        ],
{
    let t = signed_text(r.timestamp as int);
    let a = decimal_text(r.systolic as nat);
    let b = decimal_text(r.diastolic as nat);
    let c = decimal_text(r.pulse as nat);
    lemma_signed_text(r.timestamp);
    lemma_decimal_text(r.systolic as nat);
    lemma_decimal_text(r.diastolic as nat);
    lemma_decimal_text(r.pulse as nat);
    assert(free_of(t, COMMA));
    assert(free_of(a, COMMA));
    assert(free_of(b, COMMA));
    assert(free_of(c, COMMA));
    lemma_split_free(t, COMMA);
    lemma_split_piece(t, a, COMMA);
    lemma_split_piece(t.push(COMMA) + a, b, COMMA);
    lemma_split_piece((t.push(COMMA) + a).push(COMMA) + b, c, COMMA);
    assert(seq![t].push(a).push(b).push(c) =~= seq![t, a, b, c]);
    let x = row_text(r);
    assert forall|i: int| 0 <= i < x.len() implies #[trigger] x[i] != NEWLINE by {
        assert(is_digit(x[i]) || x[i] == MINUS || x[i] == COMMA);
    }
}

proof fn lemma_row_parses(r: Reading)
    requires
        valid_reading(r),
    ensures
        parse_row(row_text(r)) == Some(r),
{
    lemma_row_fields(r);
    lemma_signed_text(r.timestamp);
    lemma_decimal_text(r.systolic as nat);
    lemma_decimal_text(r.diastolic as nat);
    lemma_decimal_text(r.pulse as nat);
}

proof fn lemma_store_empty()
    ensures
        parse_store(Seq::empty()) == Some(Seq::<Reading>::empty()),
{
    assert(split_on(Seq::<u8>::empty(), NEWLINE) =~= seq![Seq::<u8>::empty()]);
    assert(Seq::<Seq<u8>>::empty().push(Seq::<u8>::empty()) =~= seq![Seq::<u8>::empty()]);
    assert(parse_rows(Seq::empty()) == Some(Seq::<Reading>::empty()));
    lemma_rows_push(Seq::empty(), Seq::empty());
}

proof fn lemma_rows_push(lines: Seq<Seq<u8>>, line: Seq<u8>)
    ensures
        line.len() == 0 ==> parse_rows(lines.push(line)) == parse_rows(lines),
        line.len() > 0 && parse_rows(lines) is Some && parse_row(line) is Some
            ==> parse_rows(lines.push(line)) == Some(
            parse_rows(lines).unwrap().push(parse_row(line).unwrap()),
        ),
{
    assert(lines.push(line).drop_last() =~= lines);
}

/// A stored reading reads back as the same reading, alone or as a store of one.
pub proof fn lemma_row_round_trip(r: Reading)
    requires
        valid_reading(r),
    ensures
        parse_row(row_text(r)) == Some(r),
        parse_store(row_line(r)) == Some(seq![r]),
{
    lemma_row_parses(r);
    lemma_store_empty();
    lemma_append_then_load(Seq::empty(), Seq::empty(), r);
    assert(Seq::<u8>::empty() + row_line(r) =~= row_line(r));
    assert(Seq::<Reading>::empty().push(r) =~= seq![r]);
}

/// Appending a reading to a store that ends with a complete line leaves the
/// readings already there in place and adds the new one after them.
pub proof fn lemma_append_then_load(text: Seq<u8>, rs: Seq<Reading>, r: Reading)
    requires
        parse_store(text) == Some(rs),
        text.len() == 0 || text.last() == NEWLINE,
        valid_reading(r),
    ensures
        parse_store(text + row_line(r)) == Some(rs.push(r)),
{
    let line = row_text(r);
    lemma_row_fields(r);
    lemma_row_parses(r);
    let whole = text + row_line(r);
    assert(whole.drop_last() =~= text + line);
    assert(whole.last() == NEWLINE);
    let ls = split_on(whole, NEWLINE);
    if text.len() == 0 {
        assert(text + line =~= line);
        lemma_split_free(line, NEWLINE);
        lemma_store_empty();
        assert(text =~= Seq::<u8>::empty());
        assert(ls == seq![line].push(Seq::<u8>::empty()));
        lemma_rows_push(seq![line], Seq::empty());
        lemma_rows_push(Seq::empty(), line);
        assert(Seq::<Seq<u8>>::empty().push(line) =~= seq![line]);
    } else {
        let y = text.drop_last();
        assert(y.push(NEWLINE) =~= text);
        let before = split_on(y, NEWLINE);
        assert(split_on(text, NEWLINE) == before.push(Seq::<u8>::empty()));
        lemma_rows_push(before, Seq::empty());
        lemma_split_piece(y, line, NEWLINE);
        assert(y.push(NEWLINE) + line =~= text + line);
        assert(ls == before.push(line).push(Seq::<u8>::empty()));
        lemma_rows_push(before.push(line), Seq::empty());
        lemma_rows_push(before, line);
    }
}

/// A store written from a sequence of readings reads back as that sequence.
pub proof fn lemma_store_round_trip(rs: Seq<Reading>)
    requires
        forall|i: int| 0 <= i < rs.len() ==> valid_reading(#[trigger] rs[i]),
    ensures
        parse_store(store_text(rs)) == Some(rs),
    decreases rs.len(),
{
    if rs.len() == 0 {
        lemma_store_empty();
    } else {
        let front = rs.drop_last();
        assert forall|i: int| 0 <= i < front.len() implies valid_reading(#[trigger] front[i]) by {
            assert(front[i] == rs[i]);
        }
        lemma_store_round_trip(front);
        assert(valid_reading(rs[rs.len() - 1]));
        if front.len() > 0 {
            let t = store_text(front);
            assert(t == store_text(front.drop_last()) + row_line(front.last()));
            assert(t.last() == NEWLINE);
        }
        lemma_append_then_load(store_text(front), front, rs.last());
        assert(front.push(rs.last()) =~= rs);
    }
}

/// The stored form of one reading, with its line end.
pub fn encode_row(r: &Reading) -> (v: Vec<u8>)
    ensures
        v@ == row_line(*r),
{
    let mut v: Vec<u8> = Vec::new();
    push_signed(&mut v, r.timestamp);
    v.push(COMMA);
    push_decimal(&mut v, r.systolic as u64);
    v.push(COMMA);
    push_decimal(&mut v, r.diastolic as u64);
    v.push(COMMA);
    push_decimal(&mut v, r.pulse as u64);
    v.push(NEWLINE);
    assert(v@ =~= row_line(*r));
    v
}

/// The reading that one line (without its line end) holds, if it is one.
pub fn decode_row(line: &[u8]) -> (r: Option<Reading>)
    ensures
        r == parse_row(line@),
{
    let fields = split_bytes(line, COMMA);
    let ghost f = fields@.map_values(|v: Vec<u8>| v@);
    if fields.len() != 4 {
        return None;
    }
    assert(f[0] == fields[0]@ && f[1] == fields[1]@ && f[2] == fields[2]@ && f[3] == fields[3]@);
    let t = match parse_i64_field(&fields[0]) {
        Some(t) => t,
        None => return None,
    };
    let s = match parse_u32_field(&fields[1]) {
        Some(s) => s,
        None => return None,
    };
    let d = match parse_u32_field(&fields[2]) {
        Some(d) => d,
        None => return None,
    };
    let p = match parse_u32_field(&fields[3]) {
        Some(p) => p,
        None => return None,
    };
    if !seconds_in_range(t) {
        return None;
    }
    Some(Reading { timestamp: t, systolic: s, diastolic: d, pulse: p })
}

/// The readings that a store's text holds, if every non-empty line is one.
pub fn decode_store(text: &[u8]) -> (r: Option<Vec<Reading>>)
    ensures
        match parse_store(text@) {
            Some(rs) => r is Some && r.unwrap()@ == rs,
            None => r is None,
        },
{
    let lines = split_bytes(text, NEWLINE);
    let ghost ls = lines@.map_values(|v: Vec<u8>| v@);
    let mut out: Vec<Reading> = Vec::new();
    let mut i: usize = 0;
    assert(ls.subrange(0, 0) =~= Seq::<Seq<u8>>::empty());
    while i < lines.len()
        invariant
            i <= lines@.len(),
            ls == lines@.map_values(|v: Vec<u8>| v@),
            ls == split_on(text@, NEWLINE),
            parse_rows(ls.subrange(0, i as int)) == Some(out@),
        decreases lines@.len() - i,
    {
        let ghost prefix = ls.subrange(0, i as int + 1);
        assert(prefix.drop_last() =~= ls.subrange(0, i as int));
        assert(prefix.last() == lines[i as int]@);
        let line = lines[i].as_slice();
        if line.len() > 0 {
            match decode_row(line) {
                Some(reading) => {
                    out.push(reading);
                },
                None => {
                    proof {
                        lemma_rows_fail_extends(ls, i + 1);
                    }
                    return None;
                },
            }
        }
        i = i + 1;
    }
    assert(ls.subrange(0, i as int) =~= ls);
    Some(out)
}

/// Loads every reading of a store from the backing file's contents, `None`
/// where the file does not exist.
pub fn load_all(contents: Option<Vec<u8>>) -> (r: Result<Vec<Reading>, StoreError>)
    ensures
        contents is None ==> r == Err::<Vec<Reading>, StoreError>(StoreError::Missing),
        contents is Some ==> match parse_store(contents.unwrap()@) {
            Some(rs) => r is Ok && r.unwrap()@ == rs,
            None => r == Err::<Vec<Reading>, StoreError>(StoreError::Malformed),
        },
{
    match contents {
        None => Err(StoreError::Missing),
        Some(text) => match decode_store(text.as_slice()) {
            Some(rs) => Ok(rs),
            None => Err(StoreError::Malformed),
        },
    }
}

} // verus!
