//! From a transaction to the fourteen dimensions that it is compared in.

use vstd::prelude::*;
use vstd::utf8::encode_utf8;
use crate::calendar::{epoch_day, march_day, march_day_counts_days, sakamoto, sakamoto_finds_the_weekday, weekday};
use crate::dataset::{MccRiskMap, NormalizationConstants};
use crate::float_bits::F32Bits;
use crate::json_utils::{weekday_sum, weekday_sum_fits};
use crate::text::{number, parse_number, same_text};

verus! {

/// The text can be cut at byte `p`: a character starts there, or the text ends.
pub open spec fn cuts_at(b: Seq<u8>, p: int) -> bool {
    p == b.len() || (p < b.len() && !(0x80 <= b[p] <= 0xbf))
}

/// Whether the text can be cut at byte `p`.
fn can_cut(b: &[u8], p: usize) -> (r: bool)
    requires
        p <= b@.len(),
    ensures
        r == cuts_at(b@, p as int),
{
    p == b.len() || b[p] < 0x80 || b[p] > 0xbf
}

/// The number in a field of a timestamp.
pub open spec fn field(b: Seq<u8>, from: int, to: int, signed: bool) -> Option<int> {
    number(b.subrange(from, to), signed)
}

/// Reads the number in a field of a timestamp.
fn read_field(b: &[u8], from: usize, to: usize, signed: bool) -> (r: Option<i64>)
    requires
        from <= to <= b@.len(),
        to - from <= 4,
    ensures
        match r {
            Some(v) => field(b@, from as int, to as int, signed) == Some(v as int),
            None => field(b@, from as int, to as int, signed) is None,
        },
        r matches Some(v) ==> -999 <= v <= 9999,
        r matches Some(v) ==> to - from <= 2 ==> -9 <= v <= 99,
        r matches Some(v) ==> !signed ==> v >= 0,
{
    parse_number(&b[from..to], signed)
}

/// The hour in a timestamp such as `2026-03-11T20:23:35Z`, from 0 to 23; 0 if
/// there is none.
pub open spec fn hour_of(b: Seq<u8>) -> int {
    if b.len() < 16 {
        0
    } else {
        match field(b, 11, 13, false) {
            Some(h) => if h <= 23 {
                h
            } else {
                0
            },
            None => 0,
        }
    }
}

/// The hour of a timestamp can be cut out.
pub open spec fn hour_cuts(b: Seq<u8>) -> bool {
    b.len() >= 16 ==> cuts_at(b, 11) && cuts_at(b, 13)
}

/// Finds the hour in a timestamp.
pub fn extract_hour(iso: &str) -> (r: u8)
    requires
        hour_cuts(encode_utf8(iso@)),
    ensures
        r == hour_of(encode_utf8(iso@)),
        r <= 23,
{
    let b: &[u8] = iso.as_bytes();
    if b.len() >= 16 {
        match read_field(b, 11, 13, false) {
            Some(h) => if h <= 23 {
                h as u8
            } else {
                0
            },
            None => 0,
        }
    } else {
        0
    }
}

/// The year, month and day in a timestamp, if all three are there.
pub open spec fn date_of(b: Seq<u8>) -> Option<(int, int, int)> {
    if b.len() < 10 {
        None
    } else {
        match (field(b, 0, 4, true), field(b, 5, 7, false), field(b, 8, 10, false)) {
            (Some(y), Some(m), Some(d)) => Some((y, m, d)),
            _ => None,
        }
    }
}

/// The date of a timestamp can be cut out.
pub open spec fn date_cuts(b: Seq<u8>) -> bool {
    b.len() >= 10 ==> cuts_at(b, 4) && cuts_at(b, 5) && cuts_at(b, 7) && cuts_at(b, 8) && cuts_at(
        b,
        10,
    )
}

/// The date of a timestamp, if there is one, has a month of the calendar and is
/// not before March of the year 0.
pub open spec fn date_is_dated(b: Seq<u8>) -> bool {
    date_of(b) matches Some((y, m, d)) ==> 1 <= m <= 12 && (m < 3 ==> y >= 1) && y >= 0
}

/// The day of the week of a timestamp, 0 on a Monday; 0 if there is no date.
pub open spec fn weekday_of(b: Seq<u8>) -> int {
    match date_of(b) {
        Some((y, m, d)) => weekday(y, m, d),
        None => 0,
    }
}

/// Reads the year, month and day in a timestamp.
fn read_date(b: &[u8]) -> (r: Option<(i32, u32, u32)>)
    ensures
        match r {
            Some((y, m, d)) => date_of(b@) == Some((y as int, m as int, d as int)) && y <= 9999 && d
                <= 99,
            None => date_of(b@) is None,
        },
{
    if b.len() < 10 {
        return None;
    }
    match (read_field(b, 0, 4, true), read_field(b, 5, 7, false), read_field(b, 8, 10, false)) {
        (Some(y), Some(m), Some(d)) => Some((y as i32, m as u32, d as u32)),
        _ => None,
    }
}

/// Finds the day of the week of a timestamp.
pub fn extract_day_of_week(iso: &str) -> (r: u8)
    requires
        date_cuts(encode_utf8(iso@)),
        date_is_dated(encode_utf8(iso@)),
    ensures
        r == weekday_of(encode_utf8(iso@)),
{
    match read_date(iso.as_bytes()) {
        Some((y, m, d)) => day_of_week(y, m, d),
        None => 0,
    }
}

/// The day of the week of a date: 0 on a Monday, 6 on a Sunday.
pub fn day_of_week(y: i32, m: u32, d: u32) -> (r: u8)
    requires
        y >= 0,
        1 <= m <= 12,
        weekday_sum_fits(y as int, m as int, d as int),
        sakamoto(y as int, m as int, d as int) + 6 <= u32::MAX,
    ensures
        r == weekday(y as int, m as int, d as int),
{
    proof {
        sakamoto_finds_the_weekday(y as int, m as int, d as int);
    }
    ((weekday_sum(y as u32, m, d) + 6) % 7) as u8
}

/// Division that drops what is left over, towards 0.
pub open spec fn towards_zero(a: int, b: int) -> int {
    if a >= 0 {
        a / b
    } else {
        -((-a) / b)
    }
}

/// Divides, towards 0.
fn divide(a: i64, b: i64) -> (r: i64)
    requires
        b > 0,
        a > i64::MIN,
    ensures
        r == towards_zero(a as int, b as int),
{
    if a >= 0 {
        a / b
    } else {
        -((-a) / b)
    }
}

/// The day number of a date when years are counted from March.
pub open spec fn day_count(y: int, m: int, d: int) -> int {
    let mm = (m + 9) % 12;
    let a = y - mm / 10;
    a * 365 + towards_zero(a, 4) - towards_zero(a, 100) + towards_zero(a, 400) + (mm * 306 + 5) / 10
        + d - 1
}

/// On the dates of the calendar from March of the year 0 on, the day number
/// counts the days.
pub proof fn day_count_counts_days(y: int, m: int, d: int)
    requires
        1 <= m <= 12,
        y >= 1 || (y == 0 && m > 2),
    ensures
        day_count(y, m, d) == epoch_day(y, m, d) + 719468,
{
    march_day_counts_days(y, m, d);
    let mm = (m + 9) % 12;
    assert((mm * 306 + 5) / 10 == (153 * mm + 2) / 5) by {
        if mm == 0 {
        } else if mm == 1 {
        } else if mm == 2 {
        } else if mm == 3 {
        } else if mm == 4 {
        } else if mm == 5 {
        } else if mm == 6 {
        } else if mm == 7 {
        } else if mm == 8 {
        } else if mm == 9 {
        } else if mm == 10 {
        } else {
            assert(mm == 11);
        }
    }
    assert(day_count(y, m, d) == march_day(y - mm / 10, mm, d));
}

/// The day number of a date when years are counted from March.
fn days_since_epoch(y: i64, m: i64, d: i64) -> (r: i64)
    requires
        -999 <= y <= 9999,
        -9 <= m <= 99,
        -9 <= d <= 99,
    ensures
        r == day_count(y as int, m as int, d as int),
        -400_000 <= r <= 4_000_000,
{
    let mm: i64 = (m + 9) % 12;
    let a: i64 = y - mm / 10;
    a * 365 + divide(a, 4) - divide(a, 100) + divide(a, 400) + (mm * 306 + 5) / 10 + d - 1
}

/// The number in a field of a timestamp, or 0.
pub open spec fn field_or_zero(b: Seq<u8>, from: int, to: int) -> int {
    match field(b, from, to, true) {
        Some(v) => v,
        None => 0,
    }
}

/// The minutes of a timestamp; 0 if it is too short. Seconds make no minute, but
/// for more than 59 of them.
pub open spec fn minutes_of(b: Seq<u8>) -> int {
    if b.len() < 19 {
        0
    } else {
        day_count(field_or_zero(b, 0, 4), field_or_zero(b, 5, 7), field_or_zero(b, 8, 10)) * 24 * 60
            + field_or_zero(b, 11, 13) * 60 + field_or_zero(b, 14, 16) + towards_zero(
            field_or_zero(b, 17, 19),
            60,
        )
    }
}

/// All fields of a timestamp can be cut out.
pub open spec fn minutes_cut(b: Seq<u8>) -> bool {
    b.len() >= 19 ==> cuts_at(b, 4) && cuts_at(b, 5) && cuts_at(b, 7) && cuts_at(b, 8) && cuts_at(
        b,
        10,
    ) && cuts_at(b, 11) && cuts_at(b, 13) && cuts_at(b, 14) && cuts_at(b, 16) && cuts_at(b, 17)
        && cuts_at(b, 19)
}

fn read_field_or_zero(b: &[u8], from: usize, to: usize) -> (r: i64)
    requires
        from <= to <= b@.len(),
        to - from <= 4,
    ensures
        r == field_or_zero(b@, from as int, to as int),
        -999 <= r <= 9999,
        to - from <= 2 ==> -9 <= r <= 99,
{
    match read_field(b, from, to, true) {
        Some(v) => v,
        None => 0,
    }
}

/// Finds the minutes of a timestamp.
fn parse_minutes(iso: &str) -> (r: i64)
    requires
        minutes_cut(encode_utf8(iso@)),
    ensures
        r == minutes_of(encode_utf8(iso@)),
        -1_000_000_000 <= r <= 10_000_000_000,
{
    let b: &[u8] = iso.as_bytes();
    if b.len() < 19 {
        return 0;
    }
    let y: i64 = read_field_or_zero(b, 0, 4);
    let mo: i64 = read_field_or_zero(b, 5, 7);
    let d: i64 = read_field_or_zero(b, 8, 10);
    let h: i64 = read_field_or_zero(b, 11, 13);
    let mi: i64 = read_field_or_zero(b, 14, 16);
    let s: i64 = read_field_or_zero(b, 17, 19);
    days_since_epoch(y, mo, d) * 24 * 60 + h * 60 + mi + divide(s, 60)
}

/// The minutes from one timestamp to a later one; 0 if the second is not later.
pub open spec fn span(start: Seq<u8>, end: Seq<u8>) -> int {
    let minutes = minutes_of(end) - minutes_of(start);
    if minutes > 0 {
        minutes
    } else {
        0
    }
}

/// The fields of a timestamp are those of a time of the calendar.
pub open spec fn is_time(b: Seq<u8>, y: int, mo: int, d: int, h: int, mi: int, s: int) -> bool {
    &&& b.len() >= 19
    &&& field(b, 0, 4, true) == Some(y)
    &&& field(b, 5, 7, true) == Some(mo)
    &&& field(b, 8, 10, true) == Some(d)
    &&& field(b, 11, 13, true) == Some(h)
    &&& field(b, 14, 16, true) == Some(mi)
    &&& field(b, 17, 19, true) == Some(s)
    &&& y >= 1
    &&& 1 <= mo <= 12
    &&& 0 <= s < 60
}

/// Between two times of the calendar there are as many minutes as there are
/// between their days, hours and minutes; seconds are not looked at.
pub proof fn span_counts_minutes(
    start: Seq<u8>,
    end: Seq<u8>,
    t1: (int, int, int, int, int, int),
    t2: (int, int, int, int, int, int),
)
    requires
        is_time(start, t1.0, t1.1, t1.2, t1.3, t1.4, t1.5),
        is_time(end, t2.0, t2.1, t2.2, t2.3, t2.4, t2.5),
    ensures
        ({
            let minutes = (epoch_day(t2.0, t2.1, t2.2) - epoch_day(t1.0, t1.1, t1.2)) * 1440 + (t2.3
                - t1.3) * 60 + t2.4 - t1.4;
            span(start, end) == if minutes > 0 {
                minutes
            } else {
                0
            }
        }),
{
    day_count_counts_days(t1.0, t1.1, t1.2);
    day_count_counts_days(t2.0, t2.1, t2.2);
}

/// Finds the minutes from one timestamp to a later one.
pub fn minutes_between(start: &str, end: &str) -> (r: i64)
    requires
        minutes_cut(encode_utf8(start@)),
        minutes_cut(encode_utf8(end@)),
    ensures
        r == span(encode_utf8(start@), encode_utf8(end@)),
{
    let start_min: i64 = parse_minutes(start);
    let end_min: i64 = parse_minutes(end);
    let minutes: i64 = end_min - start_min;
    if minutes > 0 {
        minutes
    } else {
        0
    }
}

/// An incoming transaction.
#[derive(Debug, Clone)]
pub struct TransactionPayload {
    pub id: String,
    pub transaction: TransactionData,
    pub customer: CustomerData,
    pub merchant: MerchantData,
    pub terminal: TerminalData,
    pub last_transaction: Option<LastTransactionData>,
}

#[derive(Debug, Clone)]
pub struct TransactionData {
    pub amount: F32Bits,
    pub installments: i32,
    pub requested_at: String,
}

#[derive(Debug, Clone)]
pub struct CustomerData {
    pub avg_amount: F32Bits,
    pub tx_count_24h: i32,
    pub known_merchants: Vec<String>,
}

#[derive(Debug, Clone)]
pub struct MerchantData {
    pub id: String,
    pub mcc: String,
    pub avg_amount: F32Bits,
}

#[derive(Debug, Clone)]
pub struct TerminalData {
    pub is_online: bool,
    pub card_present: bool,
    pub km_from_home: F32Bits,
}

#[derive(Debug, Clone)]
pub struct LastTransactionData {
    pub timestamp: String,
    pub km_from_current: F32Bits,
}

/// How the number in one dimension is computed. The library says what is
/// divided by what; the divisions are left to whoever can compute with floating
/// point.
#[derive(Debug, Clone, Copy, PartialEq, Eq, Structural)]
pub enum Term {
    /// The number itself.
    Number(F32Bits),
    /// A quotient of small whole numbers.
    Fraction { part: u8, whole: u8 },
    /// A quotient, held between 0 and 1.
    Ratio { over: F32Bits, under: F32Bits },
    /// A whole number divided by a number, held between 0 and 1.
    Count { count: i64, under: F32Bits },
    /// A quotient divided once more, held between 0 and 1.
    RatioOf { over: F32Bits, under: F32Bits, unit: F32Bits },
}

/// The bit patterns of 0, 1, -1 and 0.5.
pub const ZERO: F32Bits = 0x0000_0000;

pub const ONE: F32Bits = 0x3f80_0000;

pub const MINUS_ONE: F32Bits = 0xbf80_0000;

pub const HALF: F32Bits = 0x3f00_0000;

/// 1 if it is so, 0 if not.
pub open spec fn flag(b: bool) -> Term {
    Term::Number(
        if b {
            ONE
        } else {
            ZERO
        },
    )
}

/// The customer has bought from a merchant before.
pub open spec fn is_known(known: Seq<String>, id: Seq<char>) -> bool {
    exists|i: int| 0 <= i < known.len() && (#[trigger] known[i])@ == id
}

/// The risk of a merchant category; 0.5 if it is not known.
pub open spec fn risk_of(risks: Map<Seq<char>, F32Bits>, mcc: Seq<char>) -> F32Bits {
    if risks.contains_key(mcc) {
        risks[mcc]
    } else {
        HALF
    }
}

/// The number in each dimension of a transaction.
pub open spec fn term(
    p: TransactionPayload,
    norm: NormalizationConstants,
    risks: Map<Seq<char>, F32Bits>,
    dim: int,
) -> Term {
    let at = encode_utf8(p.transaction.requested_at@);
    if dim == 0 {
        Term::Ratio { over: p.transaction.amount, under: norm.max_amount }
    } else if dim == 1 {
        Term::Count { count: p.transaction.installments as i64, under: norm.max_installments }
    } else if dim == 2 {
        Term::RatioOf {
            over: p.transaction.amount,
            under: p.customer.avg_amount,
            unit: norm.amount_vs_avg_ratio,
        }
    } else if dim == 3 {
        Term::Fraction { part: hour_of(at) as u8, whole: 23 }
    } else if dim == 4 {
        Term::Fraction { part: weekday_of(at) as u8, whole: 6 }
    } else if dim == 5 {
        match p.last_transaction {
            Some(last) => Term::Count {
                count: span(encode_utf8(last.timestamp@), at) as i64,
                under: norm.max_minutes,
            },
            None => Term::Number(MINUS_ONE),
        }
    } else if dim == 6 {
        match p.last_transaction {
            Some(last) => Term::Ratio { over: last.km_from_current, under: norm.max_km },
            None => Term::Number(MINUS_ONE),
        }
    } else if dim == 7 {
        Term::Ratio { over: p.terminal.km_from_home, under: norm.max_km }
    } else if dim == 8 {
        Term::Count { count: p.customer.tx_count_24h as i64, under: norm.max_tx_count_24h }
    } else if dim == 9 {
        flag(p.terminal.is_online)
    } else if dim == 10 {
        flag(p.terminal.card_present)
    } else if dim == 11 {
        flag(!is_known(p.customer.known_merchants@, p.merchant.id@))
    } else if dim == 12 {
        Term::Number(risk_of(risks, p.merchant.mcc@))
    } else {
        Term::Ratio { over: p.merchant.avg_amount, under: norm.max_merchant_avg_amount }
    }
}

/// The timestamps of a transaction can be read.
pub open spec fn is_readable(p: TransactionPayload) -> bool {
    let at = encode_utf8(p.transaction.requested_at@);
    &&& hour_cuts(at)
    &&& date_cuts(at)
    &&& date_is_dated(at)
    &&& p.last_transaction matches Some(last) ==> minutes_cut(at) && minutes_cut(
        encode_utf8(last.timestamp@),
    )
}

/// Whether all fields of a timestamp can be cut out.
fn can_cut_minutes(b: &[u8]) -> (r: bool)
    ensures
        r == minutes_cut(b@),
{
    b.len() < 19 || (can_cut(b, 4) && can_cut(b, 5) && can_cut(b, 7) && can_cut(b, 8) && can_cut(
        b,
        10,
    ) && can_cut(b, 11) && can_cut(b, 13) && can_cut(b, 14) && can_cut(b, 16) && can_cut(b, 17)
        && can_cut(b, 19))
}

/// Whether the hour and the date of a timestamp can be read.
fn can_read_date(b: &[u8]) -> (r: bool)
    ensures
        r == (hour_cuts(b@) && date_cuts(b@) && date_is_dated(b@)),
{
    if b.len() >= 16 && !(can_cut(b, 11) && can_cut(b, 13)) {
        return false;
    }
    if b.len() >= 10 && !(can_cut(b, 4) && can_cut(b, 5) && can_cut(b, 7) && can_cut(b, 8)
        && can_cut(b, 10)) {
        return false;
    }
    match read_date(b) {
        Some((y, m, _)) => 1 <= m && m <= 12 && y >= 0 && (m >= 3 || y >= 1),
        None => true,
    }
}

/// Whether the timestamps of a transaction can be read.
pub fn can_normalize(payload: &TransactionPayload) -> (r: bool)
    ensures
        r == is_readable(*payload),
{
    let at: &[u8] = payload.transaction.requested_at.as_str().as_bytes();
    if !can_read_date(at) {
        return false;
    }
    match &payload.last_transaction {
        Some(last) => can_cut_minutes(at) && can_cut_minutes(last.timestamp.as_str().as_bytes()),
        None => true,
    }
}

/// Whether the customer has bought from a merchant before.
pub fn knows_merchant(known: &Vec<String>, id: &str) -> (r: bool)
    ensures
        r == is_known(known@, id@),
{
    let mut i: usize = 0;
    while i < known.len()
        invariant
            i <= known@.len(),
            forall|j: int| 0 <= j < i ==> (#[trigger] known@[j])@ != id@,
        decreases known@.len() - i,
    {
        if same_text(known[i].as_str(), id) {
            assert(known@[i as int]@ == id@);
            return true;
        }
        i = i + 1;
    }
    false
}

/// Gives 1 if it is so, 0 if not.
pub fn as_flag(b: bool) -> (r: Term)
    ensures
        r == flag(b),
{
    if b {
        Term::Number(ONE)
    } else {
        Term::Number(ZERO)
    }
}

/// Finds how the number in each dimension of a transaction is computed.
pub fn normalize_transaction(
    payload: &TransactionPayload,
    norm: &NormalizationConstants,
    mcc_risk: &MccRiskMap,
) -> (r: [Term; 14])
    requires
        is_readable(*payload),
    ensures
        forall|dim: int|
            0 <= dim < 14 ==> (#[trigger] r@[dim]) == term(*payload, *norm, mcc_risk@, dim),
{
    let at: &str = payload.transaction.requested_at.as_str();
    let hour: u8 = extract_hour(at);
    let dow: u8 = extract_day_of_week(at);
    let last: (Term, Term) = match &payload.last_transaction {
        Some(last) => (
            Term::Count {
                count: minutes_between(last.timestamp.as_str(), at),
                under: norm.max_minutes,
            },
            Term::Ratio { over: last.km_from_current, under: norm.max_km },
        ),
        None => (Term::Number(MINUS_ONE), Term::Number(MINUS_ONE)),
    };
    let known: bool = knows_merchant(
        &payload.customer.known_merchants,
        payload.merchant.id.as_str(),
    );
    let risk: F32Bits = match mcc_risk.get(payload.merchant.mcc.as_str()) {
        Some(risk) => risk,
        None => HALF,
    };
    [
        Term::Ratio { over: payload.transaction.amount, under: norm.max_amount },
        Term::Count {
            count: payload.transaction.installments as i64,
            under: norm.max_installments,
        },
        Term::RatioOf {
            over: payload.transaction.amount,
            under: payload.customer.avg_amount,
            unit: norm.amount_vs_avg_ratio,
        },
        Term::Fraction { part: hour, whole: 23 },
        Term::Fraction { part: dow, whole: 6 },
        last.0,
        last.1,
        Term::Ratio { over: payload.terminal.km_from_home, under: norm.max_km },
        Term::Count { count: payload.customer.tx_count_24h as i64, under: norm.max_tx_count_24h },
        as_flag(payload.terminal.is_online),
        as_flag(payload.terminal.card_present),
        as_flag(!known),
        Term::Number(risk),
        Term::Ratio { over: payload.merchant.avg_amount, under: norm.max_merchant_avg_amount },
    ]
}

} // verus!
