//! The CSV payload shape.
//!
//! One `;`-delimited document, one row per reading, first row a header.
//! Decoding is tolerant per row: a row that fails any field rule is dropped,
//! and only a decode that yields no reading at all fails, as [`DecodeError::Empty`].
//! This asymmetry with the strict JSON shape is deliberate: it mirrors the
//! provider's differing data-quality guarantees per format.

use crate::DecodeError;
use crate::bytes::{spec_split, split_bytes, sub_vec};
use crate::decimal::{spec_parse_decimal, parse_decimal};
use crate::reading::{Entry, spec_parse_csv_timestamp, parse_csv_timestamp, spec_kind_of_category,
    kind_from_category};
use vstd::prelude::*;

verus! {

/// A trailing carriage return is not part of the last field.
pub open spec fn spec_strip_cr(row: Seq<u8>) -> Seq<u8> {
    if row.len() > 0 && row.last() == 13 {
        row.drop_last()
    } else {
        row
    }
}

/// What one data row denotes: timestamp, value and category separated by `;`,
/// or nothing if any field breaks its rule.
pub open spec fn spec_row_entry(row: Seq<u8>) -> Option<Entry> {
    let fields = spec_split(spec_strip_cr(row), 59);
    if fields.len() == 3 {
        match spec_parse_csv_timestamp(fields[0]) {
            Some(ts) => match spec_parse_decimal(fields[1]) {
                Some(val) => match spec_kind_of_category(fields[2]) {
                    Some(kind) => Some(Entry { date_time: ts, kwh_value: val, kind }),
                    None => None,
                },
                None => None,
            },
            None => None,
        }
    } else {
        None
    }
}

/// The readings of a row sequence, in order, rows that fail dropped.
pub open spec fn spec_decode_rows(rows: Seq<Seq<u8>>) -> Seq<Entry>
    decreases rows.len(),
{
    if rows.len() == 0 {
        Seq::<Entry>::empty()
    } else {
        spec_decode_rows(rows.drop_last()) + match spec_row_entry(rows.last()) {
            Some(e) => seq![e],
            None => Seq::<Entry>::empty(),
        }
    }
}

/// The readings of a whole CSV document: every line after the header row.
pub open spec fn spec_csv_entries(input: Seq<u8>) -> Seq<Entry> {
    spec_decode_rows(spec_split(input, 10).drop_first())
}

/// Decode one data row; `None` drops the row.
pub fn decode_row(row: &Vec<u8>) -> (r: Option<Entry>)
    ensures
        r == spec_row_entry(row@),
        r matches Some(e) ==> e.wf(),
{
    let stripped = if row.len() > 0 && row[row.len() - 1] == 13 {
        let s = sub_vec(row, 0, row.len() - 1);
        proof {
            assert(s@ =~= spec_strip_cr(row@));
        }
        s
    } else {
        let s = sub_vec(row, 0, row.len());
        proof {
            assert(s@ =~= spec_strip_cr(row@));
        }
        s
    };
    let fields = split_bytes(&stripped, 59);
    let ghost spec_fields = spec_split(stripped@, 59);
    proof {
        assert(forall|i: int|
            0 <= i < fields@.len() ==> #[trigger] spec_fields[i] == fields@.map_values(
                |p: Vec<u8>| p@,
            )[i]);
    }
    if fields.len() != 3 {
        return None;
    }
    let ts = match parse_csv_timestamp(&fields[0]) {
        Some(t) => t,
        None => {
            return None;
        },
    };
    let val = match parse_decimal(&fields[1]) {
        Some(v) => v,
        None => {
            return None;
        },
    };
    let kind = match kind_from_category(&fields[2]) {
        Some(k) => k,
        None => {
            return None;
        },
    };
    Some(Entry { date_time: ts, kwh_value: val, kind })
}

/// Decode a whole CSV payload.
///
/// Returns every reading the rows after the header yield, in document order;
/// rows that break a field rule are dropped, and a document that yields no
/// reading at all is an [`DecodeError::Empty`] failure.
pub fn parse(input: &Vec<u8>) -> (r: Result<Vec<Entry>, DecodeError>)
    ensures
        match r {
            Ok(es) => {
                &&& es@ == spec_csv_entries(input@)
                &&& es@.len() > 0
                &&& forall|i: int| 0 <= i < es@.len() ==> #[trigger] es@[i].wf()
            },
            Err(e) => {
                &&& e == DecodeError::Empty
                &&& spec_csv_entries(input@).len() == 0
            },
        },
{
    let rows = split_bytes(input, 10);
    let ghost spec_rows = spec_split(input@, 10);
    let ghost data = spec_rows.drop_first();
    proof {
        assert(forall|i: int|
            0 <= i < rows@.len() ==> #[trigger] spec_rows[i] == rows@.map_values(
                |p: Vec<u8>| p@,
            )[i]);
    }
    let mut out: Vec<Entry> = Vec::new();
    let mut i: usize = 1;
    proof {
        assert(data.take(0) =~= Seq::<Seq<u8>>::empty());
    }
    while i < rows.len()
        invariant
            1 <= i <= rows@.len(),
            spec_rows == rows@.map_values(|p: Vec<u8>| p@),
            data == spec_rows.drop_first(),
            out@ == spec_decode_rows(data.take(i - 1)),
            forall|j: int| 0 <= j < out@.len() ==> #[trigger] out@[j].wf(),
        decreases rows@.len() - i,
    {
        let ghost prefix = data.take(i - 1);
        proof {
            assert(data.take(i as int).drop_last() =~= prefix);
            assert(data.take(i as int).last() == data[i - 1]);
            assert(data[i - 1] == spec_rows[i as int]);
        }
        match decode_row(&rows[i]) {
            Some(e) => {
                out.push(e);
            },
            None => {},
        }
        i = i + 1;
    }
    proof {
        assert(data.take(rows@.len() - 1) =~= data);
    }
    if out.len() == 0 {
        Err(DecodeError::Empty)
    } else {
        Ok(out)
    }
}

} // verus!
