//! The JSON wire shape.
//!
//! One document per flow direction: an object holding a record array under
//! the fixed `dane`/`chart` key path. Every field value is a JSON string, so
//! a document is fully determined by the pieces between `"` bytes, and the
//! codec works on that quote-split: the encoder joins quote-free pieces, the
//! decoder splits and checks them. Decoding is strict per document: any
//! malformed record fails the whole document, unlike the row-tolerant CSV
//! shape.
//!
//! A record carries a `YYYY-MM-DD` date, the provider's hour label `1..=24`
//! as a numeric string, a numeric status code, the balancing flag as `T` or
//! `N`, the decimal value with a `,` separator, and zone and tariff fields
//! that are carried in the document without interpretation.

use crate::DecodeError;
use crate::bytes::{spec_split, split_bytes, seq_join, join_bytes, bytes_eq, lemma_split_of_join};
use crate::date::{Date, spec_parse_date, parse_date, encode_date};
use crate::decimal::{all_digits, digits_to_nat, digits_value, check_digits, pow10,
    spec_parse_decimal, parse_decimal, encode_decimal, u64_to_digits, lemma_len_from_bound,
    lemma_digits_no_sep};
use crate::reading::{Direction, Timestamp, Entry, spec_kind_of, kind_of, lemma_kind_of_inverse};
use vstd::prelude::*;

verus! {

/// `{` as bytes.
pub open spec fn piece_lbrace() -> Seq<u8> {
    seq![123u8]
}

/// `dane` as bytes.
pub open spec fn piece_dane() -> Seq<u8> {
    seq![100u8, 97u8, 110u8, 101u8]
}

/// `:{` as bytes.
pub open spec fn piece_obj_open() -> Seq<u8> {
    seq![58u8, 123u8]
}

/// `chart` as bytes.
pub open spec fn piece_chart() -> Seq<u8> {
    seq![99u8, 104u8, 97u8, 114u8, 116u8]
}

/// `:[{` as bytes.
pub open spec fn piece_arr_open() -> Seq<u8> {
    seq![58u8, 91u8, 123u8]
}

/// `:[]}}` as bytes.
pub open spec fn piece_arr_empty() -> Seq<u8> {
    seq![58u8, 91u8, 93u8, 125u8, 125u8]
}

/// `:` as bytes.
pub open spec fn piece_colon() -> Seq<u8> {
    seq![58u8]
}

/// `,` as bytes.
pub open spec fn piece_comma() -> Seq<u8> {
    seq![44u8]
}

/// `},{` as bytes.
pub open spec fn piece_midsep() -> Seq<u8> {
    seq![125u8, 44u8, 123u8]
}

/// `}]}}` as bytes.
pub open spec fn piece_endsep() -> Seq<u8> {
    seq![125u8, 93u8, 125u8, 125u8]
}

/// `Data` as bytes.
pub open spec fn key_data() -> Seq<u8> {
    seq![68u8, 97u8, 116u8, 97u8]
}

/// `Hour` as bytes.
pub open spec fn key_hour() -> Seq<u8> {
    seq![72u8, 111u8, 117u8, 114u8]
}

/// `Status` as bytes.
pub open spec fn key_status() -> Seq<u8> {
    seq![83u8, 116u8, 97u8, 116u8, 117u8, 115u8]
}

/// `Extra` as bytes.
pub open spec fn key_extra() -> Seq<u8> {
    seq![69u8, 120u8, 116u8, 114u8, 97u8]
}

/// `EC` as bytes.
pub open spec fn key_ec() -> Seq<u8> {
    seq![69u8, 67u8]
}

/// `Zone` as bytes.
pub open spec fn key_zone() -> Seq<u8> {
    seq![90u8, 111u8, 110u8, 101u8]
}

/// `Tariff` as bytes.
pub open spec fn key_tariff() -> Seq<u8> {
    seq![84u8, 97u8, 114u8, 105u8, 102u8, 102u8]
}

fn piece_lbrace_bytes() -> (r: Vec<u8>)
    ensures
        r@ == piece_lbrace(),
{
    let mut v: Vec<u8> = Vec::new();
    v.push(123);
    proof {
        assert(v@ =~= piece_lbrace());
    }
    v
}

fn piece_dane_bytes() -> (r: Vec<u8>)
    ensures
        r@ == piece_dane(),
{
    let mut v: Vec<u8> = Vec::new();
    v.push(100);
    v.push(97);
    v.push(110);
    v.push(101);
    proof {
        assert(v@ =~= piece_dane());
    }
    v
}

fn piece_obj_open_bytes() -> (r: Vec<u8>)
    ensures
        r@ == piece_obj_open(),
{
    let mut v: Vec<u8> = Vec::new();
    v.push(58);
    v.push(123);
    proof {
        assert(v@ =~= piece_obj_open());
    }
    v
}

fn piece_chart_bytes() -> (r: Vec<u8>)
    ensures
        r@ == piece_chart(),
{
    let mut v: Vec<u8> = Vec::new();
    v.push(99);
    v.push(104);
    v.push(97);
    v.push(114);
    v.push(116);
    proof {
        assert(v@ =~= piece_chart());
    }
    v
}

fn piece_arr_open_bytes() -> (r: Vec<u8>)
    ensures
        r@ == piece_arr_open(),
{
    let mut v: Vec<u8> = Vec::new();
    v.push(58);
    v.push(91);
    v.push(123);
    proof {
        assert(v@ =~= piece_arr_open());
    }
    v
}

fn piece_arr_empty_bytes() -> (r: Vec<u8>)
    ensures
        r@ == piece_arr_empty(),
{
    let mut v: Vec<u8> = Vec::new();
    v.push(58);
    v.push(91);
    v.push(93);
    v.push(125);
    v.push(125);
    proof {
        assert(v@ =~= piece_arr_empty());
    }
    v
}

fn piece_colon_bytes() -> (r: Vec<u8>)
    ensures
        r@ == piece_colon(),
{
    let mut v: Vec<u8> = Vec::new();
    v.push(58);
    proof {
        assert(v@ =~= piece_colon());
    }
    v
}

fn piece_comma_bytes() -> (r: Vec<u8>)
    ensures
        r@ == piece_comma(),
{
    let mut v: Vec<u8> = Vec::new();
    v.push(44);
    proof {
        assert(v@ =~= piece_comma());
    }
    v
}

fn piece_midsep_bytes() -> (r: Vec<u8>)
    ensures
        r@ == piece_midsep(),
{
    let mut v: Vec<u8> = Vec::new();
    v.push(125);
    v.push(44);
    v.push(123);
    proof {
        assert(v@ =~= piece_midsep());
    }
    v
}

fn piece_endsep_bytes() -> (r: Vec<u8>)
    ensures
        r@ == piece_endsep(),
{
    let mut v: Vec<u8> = Vec::new();
    v.push(125);
    v.push(93);
    v.push(125);
    v.push(125);
    proof {
        assert(v@ =~= piece_endsep());
    }
    v
}

fn key_data_bytes() -> (r: Vec<u8>)
    ensures
        r@ == key_data(),
{
    let mut v: Vec<u8> = Vec::new();
    v.push(68);
    v.push(97);
    v.push(116);
    v.push(97);
    proof {
        assert(v@ =~= key_data());
    }
    v
}

fn key_hour_bytes() -> (r: Vec<u8>)
    ensures
        r@ == key_hour(),
{
    let mut v: Vec<u8> = Vec::new();
    v.push(72);
    v.push(111);
    v.push(117);
    v.push(114);
    proof {
        assert(v@ =~= key_hour());
    }
    v
}

fn key_status_bytes() -> (r: Vec<u8>)
    ensures
        r@ == key_status(),
{
    let mut v: Vec<u8> = Vec::new();
    v.push(83);
    v.push(116);
    v.push(97);
    v.push(116);
    v.push(117);
    v.push(115);
    proof {
        assert(v@ =~= key_status());
    }
    v
}

fn key_extra_bytes() -> (r: Vec<u8>)
    ensures
        r@ == key_extra(),
{
    let mut v: Vec<u8> = Vec::new();
    v.push(69);
    v.push(120);
    v.push(116);
    v.push(114);
    v.push(97);
    proof {
        assert(v@ =~= key_extra());
    }
    v
}

fn key_ec_bytes() -> (r: Vec<u8>)
    ensures
        r@ == key_ec(),
{
    let mut v: Vec<u8> = Vec::new();
    v.push(69);
    v.push(67);
    proof {
        assert(v@ =~= key_ec());
    }
    v
}

fn key_zone_bytes() -> (r: Vec<u8>)
    ensures
        r@ == key_zone(),
{
    let mut v: Vec<u8> = Vec::new();
    v.push(90);
    v.push(111);
    v.push(110);
    v.push(101);
    proof {
        assert(v@ =~= key_zone());
    }
    v
}

fn key_tariff_bytes() -> (r: Vec<u8>)
    ensures
        r@ == key_tariff(),
{
    let mut v: Vec<u8> = Vec::new();
    v.push(84);
    v.push(97);
    v.push(114);
    v.push(105);
    v.push(102);
    v.push(102);
    proof {
        assert(v@ =~= key_tariff());
    }
    v
}

fn extra_true_bytes() -> (r: Vec<u8>)
    ensures
        r@ == seq![84u8],
{
    let mut v: Vec<u8> = Vec::new();
    v.push(84);
    proof {
        assert(v@ =~= seq![84u8]);
    }
    v
}

fn extra_false_bytes() -> (r: Vec<u8>)
    ensures
        r@ == seq![78u8],
{
    let mut v: Vec<u8> = Vec::new();
    v.push(78);
    proof {
        assert(v@ =~= seq![78u8]);
    }
    v
}

/// The byte strings a piece vector holds.
pub open spec fn views_of(pv: Seq<Vec<u8>>) -> Seq<Seq<u8>> {
    pv.map_values(|p: Vec<u8>| p@)
}

/// Whether a status field is a numeric string.
pub open spec fn spec_status_ok(s: Seq<u8>) -> bool {
    1 <= s.len() <= 19 && all_digits(s)
}

/// What a balancing flag field denotes: `T` or `N`, anything else rejected.
pub open spec fn spec_extra_flag(s: Seq<u8>) -> Option<bool> {
    if s == seq![84u8] {
        Some(true)
    } else if s == seq![78u8] {
        Some(false)
    } else {
        None
    }
}

/// What an hour field denotes: the provider's hour label, `1..=24`.
pub open spec fn spec_parse_hour_label(s: Seq<u8>) -> Option<nat> {
    if 1 <= s.len() <= 2 && all_digits(s) && 1 <= digits_to_nat(s) <= 24 {
        Some(digits_to_nat(s))
    } else {
        None
    }
}

/// Where an hour label puts a JSON reading: label `h` is the hour `h` itself,
/// and `24` stands for midnight of the next day.
pub open spec fn spec_json_timestamp(date: Date, h: nat) -> Option<Timestamp> {
    if 1 <= h <= 23 {
        Some(Timestamp { date, hour: h as u8 })
    } else if h == 24 {
        if date.spec_next().valid() {
            Some(Timestamp { date: date.spec_next(), hour: 0 })
        } else {
            None
        }
    } else {
        None
    }
}

/// What the 27 record pieces starting at `i` denote, for a document of the
/// given direction.
pub open spec fn spec_record_at(ps: Seq<Seq<u8>>, i: int, direction: Direction) -> Option<Entry>
    recommends
        0 <= i,
        i + 27 <= ps.len(),
{
    if ps[i] == key_data() && ps[i + 1] == piece_colon() && ps[i + 3] == piece_comma() && ps[i + 4]
        == key_hour() && ps[i + 5] == piece_colon() && ps[i + 7] == piece_comma() && ps[i + 8]
        == key_status() && ps[i + 9] == piece_colon() && ps[i + 11] == piece_comma() && ps[i + 12]
        == key_extra() && ps[i + 13] == piece_colon() && ps[i + 15] == piece_comma() && ps[i + 16]
        == key_ec() && ps[i + 17] == piece_colon() && ps[i + 19] == piece_comma() && ps[i + 20]
        == key_zone() && ps[i + 21] == piece_colon() && ps[i + 23] == piece_comma() && ps[i + 24]
        == key_tariff() && ps[i + 25] == piece_colon() && spec_status_ok(ps[i + 10])
        && spec_extra_flag(ps[i + 14]) is Some {
        match (spec_parse_date(ps[i + 2]), spec_parse_hour_label(ps[i + 6]), spec_parse_decimal(
            ps[i + 18],
        )) {
            (Some(date), Some(h), Some(ec)) => match spec_json_timestamp(date, h) {
                Some(ts) => Some(
                    Entry {
                        date_time: ts,
                        kwh_value: ec,
                        kind: spec_kind_of(direction, spec_extra_flag(ps[i + 14]) == Some(true)),
                    },
                ),
                None => None,
            },
            _ => None,
        }
    } else {
        None
    }
}

/// Two piece windows that agree element by element denote the same record.
pub proof fn lemma_record_at_agrees(
    ps1: Seq<Seq<u8>>,
    ps2: Seq<Seq<u8>>,
    i1: int,
    i2: int,
    direction: Direction,
)
    requires
        0 <= i1,
        i1 + 27 <= ps1.len(),
        0 <= i2,
        i2 + 27 <= ps2.len(),
        forall|j: int| 0 <= j < 27 ==> #[trigger] ps1[i1 + j] == ps2[i2 + j],
    ensures
        spec_record_at(ps1, i1, direction) == spec_record_at(ps2, i2, direction),
{
    assert(ps1[i1 + 0] == ps2[i2 + 0]);
    assert(ps1[i1 + 1] == ps2[i2 + 1]);
    assert(ps1[i1 + 2] == ps2[i2 + 2]);
    assert(ps1[i1 + 3] == ps2[i2 + 3]);
    assert(ps1[i1 + 4] == ps2[i2 + 4]);
    assert(ps1[i1 + 5] == ps2[i2 + 5]);
    assert(ps1[i1 + 6] == ps2[i2 + 6]);
    assert(ps1[i1 + 7] == ps2[i2 + 7]);
    assert(ps1[i1 + 8] == ps2[i2 + 8]);
    assert(ps1[i1 + 9] == ps2[i2 + 9]);
    assert(ps1[i1 + 10] == ps2[i2 + 10]);
    assert(ps1[i1 + 11] == ps2[i2 + 11]);
    assert(ps1[i1 + 12] == ps2[i2 + 12]);
    assert(ps1[i1 + 13] == ps2[i2 + 13]);
    assert(ps1[i1 + 14] == ps2[i2 + 14]);
    assert(ps1[i1 + 15] == ps2[i2 + 15]);
    assert(ps1[i1 + 16] == ps2[i2 + 16]);
    assert(ps1[i1 + 17] == ps2[i2 + 17]);
    assert(ps1[i1 + 18] == ps2[i2 + 18]);
    assert(ps1[i1 + 19] == ps2[i2 + 19]);
    assert(ps1[i1 + 20] == ps2[i2 + 20]);
    assert(ps1[i1 + 21] == ps2[i2 + 21]);
    assert(ps1[i1 + 22] == ps2[i2 + 22]);
    assert(ps1[i1 + 23] == ps2[i2 + 23]);
    assert(ps1[i1 + 24] == ps2[i2 + 24]);
    assert(ps1[i1 + 25] == ps2[i2 + 25]);
    assert(ps1[i1 + 26] == ps2[i2 + 26]);
}

/// What a record block sequence denotes: 28 pieces per record, the 28th the
/// separator, the last separator closing the document.
pub open spec fn spec_parse_records(ps: Seq<Seq<u8>>, direction: Direction) -> Option<Seq<Entry>>
    decreases ps.len(),
{
    if ps.len() == 28 && ps[27] == piece_endsep() {
        match spec_record_at(ps, 0, direction) {
            Some(e) => Some(seq![e]),
            None => None,
        }
    } else if ps.len() > 28 && ps[27] == piece_midsep() {
        match spec_record_at(ps, 0, direction) {
            Some(e) => match spec_parse_records(ps.skip(28), direction) {
                Some(rest) => Some(seq![e] + rest),
                None => None,
            },
            None => None,
        }
    } else {
        None
    }
}

/// What a whole document denotes for one direction: a non-empty record list,
/// an [`DecodeError::Empty`] document, or a malformed one.
pub open spec fn spec_decode_document(s: Seq<u8>, direction: Direction) -> Result<
    Seq<Entry>,
    DecodeError,
> {
    let ps = spec_split(s, 34);
    if ps.len() == 5 && ps[0] == piece_lbrace() && ps[1] == piece_dane() && ps[2] == piece_obj_open()
        && ps[3] == piece_chart() && ps[4] == piece_arr_empty() {
        Err(DecodeError::Empty)
    } else if ps.len() >= 33 && ps[0] == piece_lbrace() && ps[1] == piece_dane() && ps[2]
        == piece_obj_open() && ps[3] == piece_chart() && ps[4] == piece_arr_open() {
        match spec_parse_records(ps.skip(5), direction) {
            Some(es) => Ok(es),
            None => Err(DecodeError::Malformed),
        }
    } else {
        Err(DecodeError::Malformed)
    }
}

/// Decode the record whose pieces start at index `i`.
fn decode_record(pieces: &Vec<Vec<u8>>, i: usize, direction: Direction) -> (r: Option<Entry>)
    requires
        i + 27 <= pieces@.len(),
    ensures
        r == spec_record_at(views_of(pieces@), i as int, direction),
        r matches Some(e) ==> e.wf(),
{
    let ghost ps = views_of(pieces@);
    let n = pieces.len();
    proof {
        assert(i + 27 <= n);
    }
    let shape_ok = bytes_eq(&pieces[i], &key_data_bytes()) && bytes_eq(
        &pieces[i + 1],
        &piece_colon_bytes(),
    ) && bytes_eq(&pieces[i + 3], &piece_comma_bytes()) && bytes_eq(
        &pieces[i + 4],
        &key_hour_bytes(),
    ) && bytes_eq(&pieces[i + 5], &piece_colon_bytes()) && bytes_eq(
        &pieces[i + 7],
        &piece_comma_bytes(),
    ) && bytes_eq(&pieces[i + 8], &key_status_bytes()) && bytes_eq(
        &pieces[i + 9],
        &piece_colon_bytes(),
    ) && bytes_eq(&pieces[i + 11], &piece_comma_bytes()) && bytes_eq(
        &pieces[i + 12],
        &key_extra_bytes(),
    ) && bytes_eq(&pieces[i + 13], &piece_colon_bytes()) && bytes_eq(
        &pieces[i + 15],
        &piece_comma_bytes(),
    ) && bytes_eq(&pieces[i + 16], &key_ec_bytes()) && bytes_eq(
        &pieces[i + 17],
        &piece_colon_bytes(),
    ) && bytes_eq(&pieces[i + 19], &piece_comma_bytes()) && bytes_eq(
        &pieces[i + 20],
        &key_zone_bytes(),
    ) && bytes_eq(&pieces[i + 21], &piece_colon_bytes()) && bytes_eq(
        &pieces[i + 23],
        &piece_comma_bytes(),
    ) && bytes_eq(&pieces[i + 24], &key_tariff_bytes()) && bytes_eq(
        &pieces[i + 25],
        &piece_colon_bytes(),
    );
    if !shape_ok {
        return None;
    }
    let status = &pieces[i + 10];
    if !(1 <= status.len() && status.len() <= 19) {
        return None;
    }
    if !check_digits(status, 0, status.len()) {
        proof {
            assert(status@.subrange(0, status@.len() as int) =~= status@);
        }
        return None;
    }
    proof {
        assert(status@.subrange(0, status@.len() as int) =~= status@);
    }
    let extra_piece = &pieces[i + 14];
    let balanced = if bytes_eq(extra_piece, &extra_true_bytes()) {
        true
    } else if bytes_eq(extra_piece, &extra_false_bytes()) {
        false
    } else {
        return None;
    };
    let date = match parse_date(&pieces[i + 2]) {
        Some(d) => d,
        None => {
            return None;
        },
    };
    let hour_piece = &pieces[i + 6];
    if !(1 <= hour_piece.len() && hour_piece.len() <= 2) {
        return None;
    }
    if !check_digits(hour_piece, 0, hour_piece.len()) {
        proof {
            assert(hour_piece@.subrange(0, hour_piece@.len() as int) =~= hour_piece@);
        }
        return None;
    }
    proof {
        assert(hour_piece@.subrange(0, hour_piece@.len() as int) =~= hour_piece@);
    }
    let h = digits_value(hour_piece, 0, hour_piece.len());
    if !(1 <= h && h <= 24) {
        return None;
    }
    let ec = match parse_decimal(&pieces[i + 18]) {
        Some(v) => v,
        None => {
            return None;
        },
    };
    let ts = if h == 24 {
        if date.year == 9999 && date.month == 12 && date.day == 31 {
            proof {
                assert(!date.spec_next().valid());
            }
            return None;
        }
        proof {
            crate::date::lemma_next_valid(date);
        }
        Timestamp { date: date.next_day(), hour: 0 }
    } else {
        Timestamp { date, hour: h as u8 }
    };
    Some(Entry { date_time: ts, kwh_value: ec, kind: kind_of(direction, balanced) })
}

/// Decode a whole JSON document for one direction.
///
/// Strict per document: any malformed piece fails the decode with
/// [`DecodeError::Malformed`]; an empty record array is [`DecodeError::Empty`].
pub fn decode_document(s: &Vec<u8>, direction: Direction) -> (r: Result<Vec<Entry>, DecodeError>)
    ensures
        match r {
            Ok(es) => {
                &&& spec_decode_document(s@, direction) == Ok::<Seq<Entry>, DecodeError>(es@)
                &&& es@.len() >= 1
                &&& forall|i: int| 0 <= i < es@.len() ==> #[trigger] es@[i].wf()
            },
            Err(e) => spec_decode_document(s@, direction) == Err::<Seq<Entry>, DecodeError>(e),
        },
{
    let pieces = split_bytes(s, 34);
    let ghost ps = views_of(pieces@);
    let n = pieces.len();
    let prefix_ok = n >= 5 && bytes_eq(&pieces[0], &piece_lbrace_bytes()) && bytes_eq(
        &pieces[1],
        &piece_dane_bytes(),
    ) && bytes_eq(&pieces[2], &piece_obj_open_bytes()) && bytes_eq(&pieces[3], &piece_chart_bytes());
    if n == 5 && prefix_ok && bytes_eq(&pieces[4], &piece_arr_empty_bytes()) {
        return Err(DecodeError::Empty);
    }
    if !(n >= 33 && prefix_ok && bytes_eq(&pieces[4], &piece_arr_open_bytes())) {
        return Err(DecodeError::Malformed);
    }
    let mut out: Vec<Entry> = Vec::new();
    let mut i: usize = 5;
    proof {
        assert(ps.skip(5) =~= ps.skip(5));
    }
    while n - i > 28
        invariant
            5 <= i <= n,
            n == ps.len(),
            n - i >= 1,
            n >= 33,
            ps == views_of(pieces@),
            ps == spec_split(s@, 34),
            ps[0] == piece_lbrace(),
            ps[1] == piece_dane(),
            ps[2] == piece_obj_open(),
            ps[3] == piece_chart(),
            ps[4] == piece_arr_open(),
            forall|j: int| 0 <= j < out@.len() ==> #[trigger] out@[j].wf(),
            spec_parse_records(ps.skip(5), direction) == match spec_parse_records(
                ps.skip(i as int),
                direction,
            ) {
                Some(rest) => Some(out@ + rest),
                None => None::<Seq<Entry>>,
            },
        decreases n - i,
    {
        let ghost tail = ps.skip(i as int);
        proof {
            assert(tail.len() == n - i);
            assert(tail[27] == ps[i + 27]);
        }
        if !bytes_eq(&pieces[i + 27], &piece_midsep_bytes()) {
            proof {
                assert(spec_parse_records(tail, direction) is None);
            }
            return Err(DecodeError::Malformed);
        }
        let e = match decode_record(&pieces, i, direction) {
            Some(e) => e,
            None => {
                proof {
                    lemma_record_at_agrees(tail, ps, 0, i as int, direction);
                    assert(spec_parse_records(tail, direction) is None);
                }
                return Err(DecodeError::Malformed);
            },
        };
        proof {
            lemma_record_at_agrees(tail, ps, 0, i as int, direction);
            assert(tail.skip(28) =~= ps.skip(i + 28));
            assert(spec_parse_records(tail, direction) == match spec_parse_records(
                ps.skip(i + 28),
                direction,
            ) {
                Some(rest) => Some(seq![e] + rest),
                None => None::<Seq<Entry>>,
            });
            assert(forall|rest: Seq<Entry>| out@ + (seq![e] + rest) =~= out@.push(e) + rest);
        }
        out.push(e);
        i = i + 28;
    }
    // exactly one record block may remain
    let ghost tail = ps.skip(i as int);
    proof {
        assert(tail.len() == n - i);
    }
    if n - i != 28 {
        proof {
            assert(spec_parse_records(tail, direction) is None);
        }
        return Err(DecodeError::Malformed);
    }
    proof {
        assert(tail[27] == ps[i + 27]);
    }
    if !bytes_eq(&pieces[i + 27], &piece_endsep_bytes()) {
        proof {
            assert(spec_parse_records(tail, direction) is None);
        }
        return Err(DecodeError::Malformed);
    }
    let e = match decode_record(&pieces, i, direction) {
        Some(e) => e,
        None => {
            proof {
                lemma_record_at_agrees(tail, ps, 0, i as int, direction);
                assert(spec_parse_records(tail, direction) is None);
            }
            return Err(DecodeError::Malformed);
        },
    };
    proof {
        lemma_record_at_agrees(tail, ps, 0, i as int, direction);
        assert(spec_parse_records(tail, direction) == Some(seq![e]));
        assert(out@ + seq![e] =~= out@.push(e));
    }
    out.push(e);
    Ok(out)
}

/// Record blocks that each denote an entry, chained with the right
/// separators, denote exactly that entry list.
pub proof fn lemma_parse_records_of_blocks(ps: Seq<Seq<u8>>, es: Seq<Entry>, direction: Direction)
    requires
        es.len() >= 1,
        ps.len() == 28 * es.len(),
        forall|j: int|
            0 <= j < es.len() ==> #[trigger] spec_record_at(ps, 28 * j, direction) == Some(es[j]),
        forall|j: int| 0 <= j < es.len() - 1 ==> #[trigger] ps[28 * j + 27] == piece_midsep(),
        ps[ps.len() - 1] == piece_endsep(),
    ensures
        spec_parse_records(ps, direction) == Some(es),
    decreases es.len(),
{
    let j0: int = 0;
    if es.len() == 1 {
        assert(spec_record_at(ps, 28 * j0, direction) == Some(es[j0]));
        assert(ps[27] == piece_endsep());
        assert(seq![es[0]] =~= es);
    } else {
        assert(ps[28 * j0 + 27] == piece_midsep());
        assert(spec_record_at(ps, 28 * j0, direction) == Some(es[j0]));
        let tail = ps.skip(28);
        assert(tail.len() == 28 * (es.len() - 1));
        assert forall|j: int|
            0 <= j < es.drop_first().len() implies #[trigger] spec_record_at(
            tail,
            28 * j,
            direction,
        ) == Some(es.drop_first()[j]) by {
            assert forall|m: int| 0 <= m < 27 implies #[trigger] tail[28 * j + m] == ps[28 * (j + 1)
                + m] by {
                assert(tail[28 * j + m] == ps[28 + (28 * j + m)]);
            }
            lemma_record_at_agrees(tail, ps, 28 * j, 28 * (j + 1), direction);
            assert(spec_record_at(ps, 28 * (j + 1), direction) == Some(es[j + 1]));
            assert(es.drop_first()[j] == es[j + 1]);
        }
        assert forall|j: int|
            0 <= j < es.drop_first().len() - 1 implies #[trigger] tail[28 * j + 27]
            == piece_midsep() by {
            assert(tail[28 * j + 27] == ps[28 + (28 * j + 27)]);
            assert(ps[28 * (j + 1) + 27] == piece_midsep());
            assert(28 + (28 * j + 27) == 28 * (j + 1) + 27);
        }
        assert(tail[tail.len() - 1] == ps[ps.len() - 1]);
        lemma_parse_records_of_blocks(tail, es.drop_first(), direction);
        assert(seq![es[0]] + es.drop_first() =~= es);
    }
}

fn status_one_bytes() -> (r: Vec<u8>)
    ensures
        r@ == seq![49u8],
{
    let mut v: Vec<u8> = Vec::new();
    v.push(49);
    proof {
        assert(v@ =~= seq![49u8]);
    }
    v
}

/// Append the 28 wire pieces of one record.
#[verifier::rlimit(100)]
fn append_record(pv: &mut Vec<Vec<u8>>, e: &Entry, direction: Direction, last: bool)
    requires
        e.wf(),
        e.kind.spec_direction() == direction,
        e.date_time.hour == 0 ==> e.date_time.date.spec_prev().valid(),
    ensures
        final(pv)@.len() == old(pv)@.len() + 28,
        forall|m: int| 0 <= m < old(pv)@.len() ==> #[trigger] final(pv)@[m] == old(pv)@[m],
        spec_record_at(
            views_of(final(pv)@),
            old(pv)@.len() as int,
            direction,
        ) == Some(*e),
        views_of(final(pv)@)[old(pv)@.len() as int + 27] == (if last {
            piece_endsep()
        } else {
            piece_midsep()
        }),
        forall|m: int|
            old(pv)@.len() <= m < final(pv)@.len() ==> !(#[trigger] final(pv)@[m])@.contains(34),
{
    let wire_date: Date;
    let wire_hour: u64;
    if e.date_time.hour == 0 {
        wire_date = e.date_time.date.prev_day();
        wire_hour = 24;
        proof {
            crate::date::lemma_next_of_prev(e.date_time.date);
        }
    } else {
        wire_date = e.date_time.date;
        wire_hour = e.date_time.hour as u64;
    }
    let date_piece = encode_date(&wire_date);
    let hour_piece = u64_to_digits(wire_hour);
    proof {
        assert(pow10(2nat) == 100) by {
            reveal_with_fuel(pow10, 3);
        }
        lemma_len_from_bound(hour_piece@.len(), wire_hour as nat, 2nat);
        lemma_digits_no_sep(hour_piece@, 34);
        assert(spec_parse_hour_label(hour_piece@) == Some(wire_hour as nat));
    }
    let status_piece = status_one_bytes();
    let extra_piece = if e.kind.balanced() {
        extra_true_bytes()
    } else {
        extra_false_bytes()
    };
    let ec_piece = encode_decimal(&e.kwh_value);
    let zone_piece: Vec<u8> = Vec::new();
    let tariff_piece: Vec<u8> = Vec::new();
    let sep_piece = if last {
        piece_endsep_bytes()
    } else {
        piece_midsep_bytes()
    };
    let ghost dp = date_piece@;
    let ghost hp = hour_piece@;
    let ghost xp = extra_piece@;
    let ghost ep = ec_piece@;
    let ghost sp = sep_piece@;
    let ghost base = pv@.len() as int;
    pv.push(key_data_bytes());
    pv.push(piece_colon_bytes());
    pv.push(date_piece);
    pv.push(piece_comma_bytes());
    pv.push(key_hour_bytes());
    pv.push(piece_colon_bytes());
    pv.push(hour_piece);
    pv.push(piece_comma_bytes());
    pv.push(key_status_bytes());
    pv.push(piece_colon_bytes());
    pv.push(status_piece);
    pv.push(piece_comma_bytes());
    pv.push(key_extra_bytes());
    pv.push(piece_colon_bytes());
    pv.push(extra_piece);
    pv.push(piece_comma_bytes());
    pv.push(key_ec_bytes());
    pv.push(piece_colon_bytes());
    pv.push(ec_piece);
    pv.push(piece_comma_bytes());
    pv.push(key_zone_bytes());
    pv.push(piece_colon_bytes());
    pv.push(zone_piece);
    pv.push(piece_comma_bytes());
    pv.push(key_tariff_bytes());
    pv.push(piece_colon_bytes());
    pv.push(tariff_piece);
    pv.push(sep_piece);
    proof {
        let model = views_of(pv@);
        let block = seq![
            key_data(),
            piece_colon(),
            dp,
            piece_comma(),
            key_hour(),
            piece_colon(),
            hp,
            piece_comma(),
            key_status(),
            piece_colon(),
            seq![49u8],
            piece_comma(),
            key_extra(),
            piece_colon(),
            xp,
            piece_comma(),
            key_ec(),
            piece_colon(),
            ep,
            piece_comma(),
            key_zone(),
            piece_colon(),
            Seq::<u8>::empty(),
            piece_comma(),
            key_tariff(),
            piece_colon(),
            Seq::<u8>::empty(),
            sp,
        ];
        assert(model =~= old(pv)@.map_values(|p: Vec<u8>| p@) + block);
        assert forall|m: int| base <= m < model.len() implies !(#[trigger] pv@[m])@.contains(
            34,
        ) by {
            assert(pv@[m]@ == model[m]);
            assert(model[m] == block[m - base]);
            lemma_digits_no_sep(seq![49u8], 34);
            assert(!piece_colon().contains(34));
            assert(!piece_comma().contains(34));
            assert(!key_data().contains(34));
            assert(!key_hour().contains(34));
            assert(!key_status().contains(34));
            assert(!key_extra().contains(34));
            assert(!key_ec().contains(34));
            assert(!key_zone().contains(34));
            assert(!key_tariff().contains(34));
            assert(!piece_midsep().contains(34));
            assert(!piece_endsep().contains(34));
            assert(!xp.contains(34));
            assert(!Seq::<u8>::empty().contains(34));
        }
        assert(spec_record_at(model, base, direction) == Some(*e)) by {
            assert(model[base + 2] == dp);
            assert(model[base + 6] == hp);
            assert(model[base + 10] == seq![49u8]);
            assert(model[base + 14] == xp);
            assert(model[base + 18] == ep);
            assert(spec_status_ok(seq![49u8]));
            assert(seq![78u8] != seq![84u8]) by {
                assert(seq![78u8][0] == 78);
                assert(seq![84u8][0] == 84);
            }
            assert(spec_extra_flag(xp) == Some(e.kind.spec_balanced()));
            assert(spec_parse_date(dp) == Some(wire_date));
            assert(spec_parse_decimal(ep) == Some(e.kwh_value));
            assert(spec_json_timestamp(wire_date, wire_hour as nat) == Some(e.date_time));
            lemma_kind_of_inverse(e.kind, direction, e.kind.spec_balanced());
        }
    }
}

/// Encode a batch as one JSON document for its direction.
///
/// The contract is the round trip itself: decoding the rendered document
/// yields the same readings. A reading at midnight is carried as hour label
/// `24` on the previous day, so the first representable day cannot be encoded
/// at hour zero.
pub fn encode_document(entries: &Vec<Entry>, direction: Direction) -> (r: Vec<u8>)
    requires
        entries@.len() >= 1,
        forall|i: int| 0 <= i < entries@.len() ==> (#[trigger] entries@[i]).wf(),
        forall|i: int|
            0 <= i < entries@.len() ==> (#[trigger] entries@[i]).kind.spec_direction() == direction,
        forall|i: int|
            0 <= i < entries@.len() ==> ((#[trigger] entries@[i]).date_time.hour == 0
                ==> entries@[i].date_time.date.spec_prev().valid()),
    ensures
        spec_decode_document(r@, direction) == Ok::<Seq<Entry>, DecodeError>(entries@),
{
    let ghost n = entries@.len() as int;
    let mut pv: Vec<Vec<u8>> = Vec::new();
    pv.push(piece_lbrace_bytes());
    pv.push(piece_dane_bytes());
    pv.push(piece_obj_open_bytes());
    pv.push(piece_chart_bytes());
    pv.push(piece_arr_open_bytes());
    proof {
        let model = views_of(pv@);
        assert(model =~= seq![
            piece_lbrace(),
            piece_dane(),
            piece_obj_open(),
            piece_chart(),
            piece_arr_open(),
        ]);
    }
    let mut k: usize = 0;
    while k < entries.len()
        invariant
            0 <= k <= entries@.len(),
            entries@.len() >= 1,
            n == entries@.len() as int,
            forall|i: int| 0 <= i < entries@.len() ==> (#[trigger] entries@[i]).wf(),
            forall|i: int|
                0 <= i < entries@.len() ==> (#[trigger] entries@[i]).kind.spec_direction()
                    == direction,
            forall|i: int|
                0 <= i < entries@.len() ==> ((#[trigger] entries@[i]).date_time.hour == 0
                    ==> entries@[i].date_time.date.spec_prev().valid()),
            pv@.len() == 5 + 28 * k,
            views_of(pv@)[0] == piece_lbrace(),
            views_of(pv@)[1] == piece_dane(),
            views_of(pv@)[2] == piece_obj_open(),
            views_of(pv@)[3] == piece_chart(),
            views_of(pv@)[4] == piece_arr_open(),
            forall|m: int| 0 <= m < pv@.len() ==> !(#[trigger] pv@[m])@.contains(34),
            forall|j: int|
                0 <= j < k ==> #[trigger] spec_record_at(
                    views_of(pv@),
                    5 + 28 * j,
                    direction,
                ) == Some(entries@[j]),
            forall|j: int|
                0 <= j < k ==> #[trigger] views_of(pv@)[5 + 28 * j + 27] == (if j
                    == n - 1 {
                    piece_endsep()
                } else {
                    piece_midsep()
                }),
        decreases entries@.len() - k,
    {
        let ghost old_pv = pv@;
        let last = k == entries.len() - 1;
        append_record(&mut pv, &entries[k], direction, last);
        proof {
            let model = views_of(pv@);
            let old_model = views_of(old_pv);
            assert(forall|m: int| 0 <= m < old_pv.len() ==> #[trigger] model[m] == old_model[m]);
            assert forall|j: int|
                0 <= j < k + 1 implies #[trigger] spec_record_at(model, 5 + 28 * j, direction)
                == Some(entries@[j]) by {
                if j < k {
                    assert forall|m: int|
                        0 <= m < 27 implies #[trigger] model[5 + 28 * j + m] == old_model[5 + 28 * j
                        + m] by {
                        assert(5 + 28 * j + m < old_pv.len());
                    }
                    lemma_record_at_agrees(model, old_model, 5 + 28 * j, 5 + 28 * j, direction);
                    assert(spec_record_at(old_model, 5 + 28 * j, direction) == Some(entries@[j]));
                } else {
                    assert(5 + 28 * j == old_pv.len());
                }
            }
            assert forall|j: int|
                0 <= j < k + 1 implies #[trigger] model[5 + 28 * j + 27] == (if j == n - 1 {
                piece_endsep()
            } else {
                piece_midsep()
            }) by {
                if j < k {
                    assert(5 + 28 * j + 27 < old_pv.len());
                    assert(model[5 + 28 * j + 27] == old_model[5 + 28 * j + 27]);
                } else {
                    assert(5 + 28 * j + 27 == old_pv.len() + 27);
                }
            }
        }
        k = k + 1;
    }
    let r = join_bytes(&pv, 34);
    proof {
        let model = views_of(pv@);
        assert forall|i: int| 0 <= i < model.len() implies !(#[trigger] model[i]).contains(34) by {
            assert(model[i] == pv@[i]@);
        }
        lemma_split_of_join(model, 34);
        assert(spec_split(r@, 34) == model);
        assert(model.len() == 5 + 28 * n);
        assert(model.len() >= 33);
        let tail = model.skip(5);
        assert(tail.len() == 28 * n);
        assert forall|j: int|
            0 <= j < n implies #[trigger] spec_record_at(tail, 28 * j, direction) == Some(
            entries@[j],
        ) by {
            assert forall|m: int| 0 <= m < 27 implies #[trigger] tail[28 * j + m] == model[5 + 28
                * j + m] by {
                assert(tail[28 * j + m] == model[5 + (28 * j + m)]);
            }
            lemma_record_at_agrees(tail, model, 28 * j, 5 + 28 * j, direction);
        }
        assert forall|j: int| 0 <= j < n - 1 implies #[trigger] tail[28 * j + 27]
            == piece_midsep() by {
            assert(tail[28 * j + 27] == model[5 + (28 * j + 27)]);
            assert(model[5 + 28 * j + 27] == piece_midsep());
        }
        assert(tail[tail.len() - 1] == model[model.len() - 1]) by {
            assert(tail[tail.len() - 1] == model[5 + (tail.len() - 1)]);
        }
        assert(model[model.len() - 1] == piece_endsep()) by {
            assert(model[5 + 28 * (n - 1) + 27] == piece_endsep());
            assert(5 + 28 * (n - 1) + 27 == model.len() - 1);
        }
        lemma_parse_records_of_blocks(tail, entries@, direction);
        assert(spec_decode_document(r@, direction) == Ok::<Seq<Entry>, DecodeError>(entries@));
    }
    r
}

} // verus!
