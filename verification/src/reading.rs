//! The canonical reading model.
//!
//! A reading is one hourly meter measurement: a timestamp on an exact hour
//! boundary, an exact decimal kilowatt-hour value, and a kind that combines
//! the flow direction with the provider's post-netting ("balanced") flag.

use crate::date::{Date, spec_parse_date, parse_date};
use crate::decimal::{Decimal, all_digits, digits_to_nat, digits_value, check_digits};
use crate::bytes::{spec_split, split_bytes, bytes_eq};
use vstd::prelude::*;

verus! {

/// Which way the energy flowed.
#[derive(Clone, Copy, PartialEq, Eq, Structural, Debug)]
pub enum Direction {
    Imported,
    Exported,
}

/// The four categories the provider distinguishes: a raw or balanced meter
/// tick, in either direction.
#[derive(Clone, Copy, PartialEq, Eq, Structural, Debug)]
pub enum EnergyKind {
    Imported,
    Exported,
    BalancedImported,
    BalancedExported,
}

impl EnergyKind {
    /// The flow direction of this kind.
    pub open spec fn spec_direction(self) -> Direction {
        match self {
            EnergyKind::Imported | EnergyKind::BalancedImported => Direction::Imported,
            EnergyKind::Exported | EnergyKind::BalancedExported => Direction::Exported,
        }
    }

    /// Whether this kind reflects a post-netting correction.
    pub open spec fn spec_balanced(self) -> bool {
        match self {
            EnergyKind::BalancedImported | EnergyKind::BalancedExported => true,
            _ => false,
        }
    }

    pub fn direction(&self) -> (r: Direction)
        ensures
            r == self.spec_direction(),
    {
        match self {
            EnergyKind::Imported | EnergyKind::BalancedImported => Direction::Imported,
            EnergyKind::Exported | EnergyKind::BalancedExported => Direction::Exported,
        }
    }

    pub fn balanced(&self) -> (r: bool)
        ensures
            r == self.spec_balanced(),
    {
        match self {
            EnergyKind::BalancedImported | EnergyKind::BalancedExported => true,
            _ => false,
        }
    }

    /// A stable lower-case label for reports.
    pub fn label(&self) -> (r: &'static str)
        ensures
            self is Imported ==> r@ == "imported"@,
            self is Exported ==> r@ == "exported"@,
            self is BalancedImported ==> r@ == "balanced_imported"@,
            self is BalancedExported ==> r@ == "balanced_exported"@,
    {
        match self {
            EnergyKind::Imported => "imported",
            EnergyKind::Exported => "exported",
            EnergyKind::BalancedImported => "balanced_imported",
            EnergyKind::BalancedExported => "balanced_exported",
        }
    }
}

/// The kind with a given direction and balancing flag.
pub open spec fn spec_kind_of(direction: Direction, balanced: bool) -> EnergyKind {
    match (direction, balanced) {
        (Direction::Imported, false) => EnergyKind::Imported,
        (Direction::Exported, false) => EnergyKind::Exported,
        (Direction::Imported, true) => EnergyKind::BalancedImported,
        (Direction::Exported, true) => EnergyKind::BalancedExported,
    }
}

pub fn kind_of(direction: Direction, balanced: bool) -> (r: EnergyKind)
    ensures
        r == spec_kind_of(direction, balanced),
{
    match (direction, balanced) {
        (Direction::Imported, false) => EnergyKind::Imported,
        (Direction::Exported, false) => EnergyKind::Exported,
        (Direction::Imported, true) => EnergyKind::BalancedImported,
        (Direction::Exported, true) => EnergyKind::BalancedExported,
    }
}

/// Direction and balancing flag determine the kind and conversely.
pub proof fn lemma_kind_of_inverse(k: EnergyKind, direction: Direction, balanced: bool)
    ensures
        spec_kind_of(k.spec_direction(), k.spec_balanced()) == k,
        spec_kind_of(direction, balanced).spec_direction() == direction,
        spec_kind_of(direction, balanced).spec_balanced() == balanced,
{
}

/// The provider's category vocabulary, as UTF-8 bytes: `pobór`.
pub open spec fn category_imported() -> Seq<u8> {
    seq![112u8, 111u8, 98u8, 195u8, 179u8, 114u8]
}

/// `oddanie`.
pub open spec fn category_exported() -> Seq<u8> {
    seq![111u8, 100u8, 100u8, 97u8, 110u8, 105u8, 101u8]
}

/// `pobrana po zbilansowaniu`.
pub open spec fn category_balanced_imported() -> Seq<u8> {
    seq![
        112u8,
        111u8,
        98u8,
        114u8,
        97u8,
        110u8,
        97u8,
        32u8,
        112u8,
        111u8,
        32u8,
        122u8,
        98u8,
        105u8,
        108u8,
        97u8,
        110u8,
        115u8,
        111u8,
        119u8,
        97u8,
        110u8,
        105u8,
        117u8,
    ]
}

/// `oddana po zbilansowaniu`.
pub open spec fn category_balanced_exported() -> Seq<u8> {
    seq![
        111u8,
        100u8,
        100u8,
        97u8,
        110u8,
        97u8,
        32u8,
        112u8,
        111u8,
        32u8,
        122u8,
        98u8,
        105u8,
        108u8,
        97u8,
        110u8,
        115u8,
        111u8,
        119u8,
        97u8,
        110u8,
        105u8,
        117u8,
    ]
}

/// Which kind a raw category field names; anything outside the closed
/// vocabulary invalidates the record.
pub open spec fn spec_kind_of_category(s: Seq<u8>) -> Option<EnergyKind> {
    if s == category_imported() {
        Some(EnergyKind::Imported)
    } else if s == category_exported() {
        Some(EnergyKind::Exported)
    } else if s == category_balanced_imported() {
        Some(EnergyKind::BalancedImported)
    } else if s == category_balanced_exported() {
        Some(EnergyKind::BalancedExported)
    } else {
        None
    }
}

fn category_imported_bytes() -> (r: Vec<u8>)
    ensures
        r@ == category_imported(),
{
    let mut v: Vec<u8> = Vec::new();
    v.push(112);
    v.push(111);
    v.push(98);
    v.push(195);
    v.push(179);
    v.push(114);
    proof {
        assert(v@ =~= category_imported());
    }
    v
}

fn category_exported_bytes() -> (r: Vec<u8>)
    ensures
        r@ == category_exported(),
{
    let mut v: Vec<u8> = Vec::new();
    v.push(111);
    v.push(100);
    v.push(100);
    v.push(97);
    v.push(110);
    v.push(105);
    v.push(101);
    proof {
        assert(v@ =~= category_exported());
    }
    v
}

fn push_balancing_suffix(v: &mut Vec<u8>)
    ensures
        final(v)@ == old(v)@ + seq![
            32u8,
            112u8,
            111u8,
            32u8,
            122u8,
            98u8,
            105u8,
            108u8,
            97u8,
            110u8,
            115u8,
            111u8,
            119u8,
            97u8,
            110u8,
            105u8,
            117u8,
        ],
{
    v.push(32);
    v.push(112);
    v.push(111);
    v.push(32);
    v.push(122);
    v.push(98);
    v.push(105);
    v.push(108);
    v.push(97);
    v.push(110);
    v.push(115);
    v.push(111);
    v.push(119);
    v.push(97);
    v.push(110);
    v.push(105);
    v.push(117);
    proof {
        assert(final(v)@ =~= old(v)@ + seq![
            32u8,
            112u8,
            111u8,
            32u8,
            122u8,
            98u8,
            105u8,
            108u8,
            97u8,
            110u8,
            115u8,
            111u8,
            119u8,
            97u8,
            110u8,
            105u8,
            117u8,
        ]);
    }
}

fn category_balanced_imported_bytes() -> (r: Vec<u8>)
    ensures
        r@ == category_balanced_imported(),
{
    let mut v: Vec<u8> = Vec::new();
    v.push(112);
    v.push(111);
    v.push(98);
    v.push(114);
    v.push(97);
    v.push(110);
    v.push(97);
    push_balancing_suffix(&mut v);
    proof {
        assert(v@ =~= category_balanced_imported());
    }
    v
}

fn category_balanced_exported_bytes() -> (r: Vec<u8>)
    ensures
        r@ == category_balanced_exported(),
{
    let mut v: Vec<u8> = Vec::new();
    v.push(111);
    v.push(100);
    v.push(100);
    v.push(97);
    v.push(110);
    v.push(97);
    push_balancing_suffix(&mut v);
    proof {
        assert(v@ =~= category_balanced_exported());
    }
    v
}

/// Decode a raw category field against the provider's closed vocabulary.
pub fn kind_from_category(s: &Vec<u8>) -> (r: Option<EnergyKind>)
    ensures
        r == spec_kind_of_category(s@),
{
    if bytes_eq(s, &category_imported_bytes()) {
        Some(EnergyKind::Imported)
    } else if bytes_eq(s, &category_exported_bytes()) {
        Some(EnergyKind::Exported)
    } else if bytes_eq(s, &category_balanced_imported_bytes()) {
        Some(EnergyKind::BalancedImported)
    } else if bytes_eq(s, &category_balanced_exported_bytes()) {
        Some(EnergyKind::BalancedExported)
    } else {
        None
    }
}

/// A local naive date-time on an exact hour boundary.
#[derive(Clone, Copy, PartialEq, Eq, Structural, Debug)]
pub struct Timestamp {
    pub date: Date,
    pub hour: u8,
}

impl Timestamp {
    /// The decoded hour always lies in `0..=23`, on a real day.
    pub open spec fn wf(self) -> bool {
        &&& self.date.valid()
        &&& self.hour <= 23
    }
}

/// One canonical reading.
#[derive(Clone, Copy, PartialEq, Eq, Structural, Debug)]
pub struct Entry {
    pub date_time: Timestamp,
    pub kwh_value: Decimal,
    pub kind: EnergyKind,
}

impl Entry {
    pub open spec fn wf(self) -> bool {
        &&& self.date_time.wf()
        &&& self.kwh_value.valid()
    }
}

/// Where a raw hour label `1..=24` puts a CSV reading: hour `h` labels the
/// hour starting at `h - 1`, and `24` rolls into midnight of the next day.
pub open spec fn spec_csv_timestamp(date: Date, h: nat) -> Option<Timestamp> {
    if h == 24 {
        if date.spec_next().valid() {
            Some(Timestamp { date: date.spec_next(), hour: 0 })
        } else {
            None
        }
    } else {
        Some(Timestamp { date, hour: (h - 1) as u8 })
    }
}

/// What a raw CSV timestamp field denotes: `YYYY-MM-DD H:MM`, where the first
/// time figure is the provider's hour label `1..=24` and the minute figure is
/// padding that is dropped.
pub open spec fn spec_parse_csv_timestamp(s: Seq<u8>) -> Option<Timestamp> {
    let parts = spec_split(s, 32);
    if parts.len() == 2 {
        match spec_parse_date(parts[0]) {
            Some(date) => {
                let hm = spec_split(parts[1], 58);
                if hm.len() == 2 && 1 <= hm[0].len() <= 2 && 1 <= hm[1].len() <= 2 && all_digits(
                    hm[0],
                ) && all_digits(hm[1]) && 1 <= digits_to_nat(hm[0]) <= 24 && digits_to_nat(hm[1])
                    <= 59 {
                    spec_csv_timestamp(date, digits_to_nat(hm[0]))
                } else {
                    None
                }
            },
            None => None,
        }
    } else {
        None
    }
}

/// Decode a raw CSV timestamp field.
pub fn parse_csv_timestamp(s: &Vec<u8>) -> (r: Option<Timestamp>)
    ensures
        r == spec_parse_csv_timestamp(s@),
        r matches Some(t) ==> t.wf(),
{
    let parts = split_bytes(s, 32);
    let ghost spec_parts = spec_split(s@, 32);
    proof {
        assert(forall|i: int|
            0 <= i < parts@.len() ==> #[trigger] spec_parts[i] == parts@.map_values(
                |p: Vec<u8>| p@,
            )[i]);
    }
    if parts.len() != 2 {
        return None;
    }
    let date = match parse_date(&parts[0]) {
        Some(d) => d,
        None => {
            return None;
        },
    };
    let hm = split_bytes(&parts[1], 58);
    let ghost spec_hm = spec_split(parts@[1]@, 58);
    proof {
        assert(forall|i: int|
            0 <= i < hm@.len() ==> #[trigger] spec_hm[i] == hm@.map_values(|p: Vec<u8>| p@)[i]);
    }
    if hm.len() != 2 {
        return None;
    }
    let hp = &hm[0];
    let mp = &hm[1];
    if !(1 <= hp.len() && hp.len() <= 2 && 1 <= mp.len() && mp.len() <= 2) {
        return None;
    }
    if !(check_digits(hp, 0, hp.len()) && check_digits(mp, 0, mp.len())) {
        return None;
    }
    proof {
        assert(hp@.subrange(0, hp@.len() as int) =~= hp@);
        assert(mp@.subrange(0, mp@.len() as int) =~= mp@);
    }
    let h = digits_value(hp, 0, hp.len());
    let m = digits_value(mp, 0, mp.len());
    if !(1 <= h && h <= 24 && m <= 59) {
        return None;
    }
    if h == 24 {
        if date.year == 9999 && date.month == 12 && date.day == 31 {
            proof {
                assert(!date.spec_next().valid());
            }
            None
        } else {
            proof {
                crate::date::lemma_next_valid(date);
            }
            Some(Timestamp { date: date.next_day(), hour: 0 })
        }
    } else {
        Some(Timestamp { date, hour: (h - 1) as u8 })
    }
}

/// Hour normalization: every provider hour label in `1..=24` decodes to an
/// hour in `0..=23`, label `24` to midnight of the following calendar day and
/// every other label `h` to hour `h - 1` of the same day.
pub proof fn lemma_hour_normalization(date: Date, h: nat)
    requires
        date.valid(),
        1 <= h <= 24,
    ensures
        spec_csv_timestamp(date, h) matches Some(t) ==> t.wf() && t.hour <= 23,
        h < 24 ==> spec_csv_timestamp(date, h) == Some(
            Timestamp { date, hour: (h - 1) as u8 },
        ),
        h == 24 && date.spec_next().valid() ==> spec_csv_timestamp(date, h) == Some(
            Timestamp { date: date.spec_next(), hour: 0 },
        ),
{
}

} // verus!
