//! The request to score a transaction, and what the service scores of it.

use vstd::prelude::*;
use vstd::utf8::encode_utf8;
use crate::calendar::{sakamoto_finds_the_weekday, weekday};
use crate::float_bits::F32Bits;
use crate::json_utils::{weekday_sum, weekday_sum_fits};
use crate::normalize::{is_known, knows_merchant, ZERO};
use crate::text::{is_digit, number32, parse_u32};

verus! {

#[derive(Debug)]
pub struct Transaction {
    pub amount: F32Bits,
    pub installments: i32,
    pub requested_at: String,
}

#[derive(Debug)]
pub struct Customer {
    pub avg_amount: F32Bits,
    pub tx_count_24h: i32,
    pub known_merchants: Vec<String>,
}

#[derive(Debug)]
pub struct Merchant {
    pub id: String,
    pub mcc: String,
    pub avg_amount: F32Bits,
}

#[derive(Debug)]
pub struct Terminal {
    pub is_online: bool,
    pub card_present: bool,
    pub km_from_home: F32Bits,
}

#[derive(Debug)]
pub struct LastTransaction {
    pub timestamp: String,
    pub km_from_current: F32Bits,
}

/// The request, as it is written in JSON.
#[derive(Debug)]
pub struct RawPayload {
    pub transaction: Transaction,
    pub customer: Customer,
    pub merchant: Merchant,
    pub terminal: Terminal,
    pub last_transaction: Option<LastTransaction>,
}

/// What is scored of a transaction.
#[derive(Debug, Clone, Copy, PartialEq, Eq, Structural)]
pub struct Payload {
    pub amount: F32Bits,
    pub customer_avg_amount: F32Bits,
    pub merchant_avg_amount: F32Bits,
    pub km_from_home: F32Bits,
    pub km_from_current: F32Bits,
    pub tx_count_24h: u32,
    pub mcc: u32,
    pub minutes_since_last: u32,
    pub installments: u8,
    pub hour: u8,
    pub day_of_week: u8,
    pub is_online: bool,
    pub card_present: bool,
    pub is_unknown_merchant: bool,
    pub has_last_tx: bool,
}

/// The value of a digit.
pub fn parse_digit(b: u8) -> (r: Option<u32>)
    ensures
        r == if is_digit(b) {
            Some((b - 0x30) as u32)
        } else {
            None
        },
{
    if b >= 0x30 && b <= 0x39 {
        Some((b - 0x30) as u32)
    } else {
        None
    }
}

/// The number that two digits stand for.
pub open spec fn two_digits(b: Seq<u8>, p: int) -> int {
    (b[p] - 0x30) * 10 + (b[p + 1] - 0x30)
}

/// Digits stand where the year, the month, the day, the hour and the minute of
/// a timestamp such as `2026-03-11T20:23:35Z` do.
pub open spec fn has_time_digits(b: Seq<u8>) -> bool {
    &&& b.len() >= 16
    &&& is_digit(b[0]) && is_digit(b[1]) && is_digit(b[2]) && is_digit(b[3])
    &&& is_digit(b[5]) && is_digit(b[6])
    &&& is_digit(b[8]) && is_digit(b[9])
    &&& is_digit(b[11]) && is_digit(b[12])
    &&& is_digit(b[14]) && is_digit(b[15])
}

/// The year, month, day, hour and minute of a timestamp, if they are in range.
/// What stands between them, and after them, is not looked at.
pub open spec fn time_of(b: Seq<u8>) -> Option<(u32, u32, u32, u32, u32)> {
    if !has_time_digits(b) {
        None
    } else {
        let y = two_digits(b, 0) * 100 + two_digits(b, 2);
        let mo = two_digits(b, 5);
        let d = two_digits(b, 8);
        let h = two_digits(b, 11);
        let min = two_digits(b, 14);
        if 1 <= mo <= 12 && 1 <= d <= 31 && h <= 23 && min <= 59 {
            Some((y as u32, mo as u32, d as u32, h as u32, min as u32))
        } else {
            None
        }
    }
}

/// Reads two digits.
fn parse_two(b: &[u8], p: usize) -> (r: Option<u32>)
    requires
        p + 1 < b@.len(),
    ensures
        match r {
            Some(v) => is_digit(b@[p as int]) && is_digit(b@[p + 1]) && v == two_digits(
                b@,
                p as int,
            ) && v <= 99,
            None => !(is_digit(b@[p as int]) && is_digit(b@[p + 1])),
        },
{
    match (parse_digit(b[p]), parse_digit(b[p + 1])) {
        (Some(t), Some(o)) => Some(t * 10 + o),
        _ => None,
    }
}

/// Reads the year, month, day, hour and minute of a timestamp.
pub fn parse_iso_str(s: &str) -> (r: Option<(u32, u32, u32, u32, u32)>)
    ensures
        r == time_of(encode_utf8(s@)),
{
    let b: &[u8] = s.as_bytes();
    if b.len() < 16 {
        return None;
    }
    match (
        parse_two(b, 0),
        parse_two(b, 2),
        parse_two(b, 5),
        parse_two(b, 8),
        parse_two(b, 11),
        parse_two(b, 14),
    ) {
        (Some(c), Some(yy), Some(mo), Some(d), Some(h), Some(min)) => {
            if mo < 1 || mo > 12 || d < 1 || d > 31 || h > 23 || min > 59 {
                return None;
            }
            Some((c * 100 + yy, mo, d, h, min))
        },
        _ => None,
    }
}

/// The minutes of a time when every month has 30 days and every year 365.
pub open spec fn rough_minutes(y: u32, mo: u32, d: u32, h: u32, m: u32) -> int {
    y * 525600 + mo * 43200 + d * 1440 + h * 60 + m
}

/// Roughly the minutes from one time to a later one, in 32 bits; 0 if the second
/// is not later.
pub open spec fn rough_span(
    t1: (u32, u32, u32, u32, u32),
    t2: (u32, u32, u32, u32, u32),
) -> u32 {
    let diff = rough_minutes(t2.0, t2.1, t2.2, t2.3, t2.4) - rough_minutes(
        t1.0,
        t1.1,
        t1.2,
        t1.3,
        t1.4,
    );
    if diff > 0 {
        (diff % 0x1_0000_0000) as u32
    } else {
        0
    }
}

/// Finds roughly the minutes from one time to a later one.
pub fn minutes_between(
    y1: u32,
    mo1: u32,
    d1: u32,
    h1: u32,
    m1: u32,
    y2: u32,
    mo2: u32,
    d2: u32,
    h2: u32,
    m2: u32,
) -> (r: u32)
    ensures
        r == rough_span((y1, mo1, d1, h1, m1), (y2, mo2, d2, h2, m2)),
{
    let t1: i64 = y1 as i64 * 525600 + mo1 as i64 * 43200 + d1 as i64 * 1440 + h1 as i64 * 60
        + m1 as i64;
    let t2: i64 = y2 as i64 * 525600 + mo2 as i64 * 43200 + d2 as i64 * 1440 + h2 as i64 * 60
        + m2 as i64;
    let diff: i64 = t2 - t1;
    if diff > 0 {
        (diff % 0x1_0000_0000) as u32
    } else {
        0
    }
}

/// The day of the week of a date: 0 on a Sunday, 6 on a Saturday.
pub fn day_of_week(y: u32, m: u32, d: u32) -> (r: u32)
    requires
        1 <= m <= 12,
        weekday_sum_fits(y as int, m as int, d as int),
    ensures
        r == (weekday(y as int, m as int, d as int) + 1) % 7,
{
    proof {
        sakamoto_finds_the_weekday(y as int, m as int, d as int);
    }
    weekday_sum(y, m, d) % 7
}

/// What is scored of a transaction at a time, with the time of the last one if
/// there is one.
pub open spec fn payload_at(
    p: RawPayload,
    at: (u32, u32, u32, u32, u32),
    last: Option<(u32, u32, u32, u32, u32)>,
) -> Payload {
    Payload {
        amount: p.transaction.amount,
        customer_avg_amount: p.customer.avg_amount,
        merchant_avg_amount: p.merchant.avg_amount,
        km_from_home: p.terminal.km_from_home,
        km_from_current: match p.last_transaction {
            Some(lt) => lt.km_from_current,
            None => ZERO,
        },
        tx_count_24h: (p.customer.tx_count_24h as int % 0x1_0000_0000) as u32,
        mcc: match number32(encode_utf8(p.merchant.mcc@)) {
            Some(v) => v,
            None => 0,
        },
        minutes_since_last: match last {
            Some(t) => rough_span(t, at),
            None => 0,
        },
        installments: (p.transaction.installments as int % 0x100) as u8,
        hour: at.3 as u8,
        day_of_week: ((weekday(at.0 as int, at.1 as int, at.2 as int) + 1) % 7) as u8,
        is_online: p.terminal.is_online,
        card_present: p.terminal.card_present,
        is_unknown_merchant: !is_known(p.customer.known_merchants@, p.merchant.id@),
        has_last_tx: p.last_transaction is Some,
    }
}

/// The time of a request.
pub open spec fn request_time(p: RawPayload) -> Option<(u32, u32, u32, u32, u32)> {
    time_of(encode_utf8(p.transaction.requested_at@))
}

/// The time of the last transaction.
pub open spec fn last_time(p: RawPayload) -> Option<(u32, u32, u32, u32, u32)> {
    match p.last_transaction {
        Some(lt) => time_of(encode_utf8(lt.timestamp@)),
        None => None,
    }
}

/// What is scored of a transaction: nothing if one of its times cannot be read.
pub open spec fn scored(p: RawPayload) -> Option<Payload> {
    match request_time(p) {
        None => None,
        Some(at) => if p.last_transaction is Some && last_time(p) is None {
            None
        } else {
            Some(payload_at(p, at, last_time(p)))
        },
    }
}

/// A transaction that is scored is not dated before March of the year 0.
pub open spec fn is_dated(p: RawPayload) -> bool {
    scored(p) is Some ==> (request_time(p) matches Some(at) && (at.0 >= 1 || at.1 >= 3))
}

/// Whether a transaction, if it is scored, is not dated before March of the
/// year 0.
pub fn can_parse(p: &RawPayload) -> (r: bool)
    ensures
        r == is_dated(*p),
{
    let last_is_read: bool = match &p.last_transaction {
        Some(lt) => match parse_iso_str(lt.timestamp.as_str()) {
            Some(_) => true,
            None => false,
        },
        None => true,
    };
    match parse_iso_str(p.transaction.requested_at.as_str()) {
        Some((y, mo, _, _, _)) => !last_is_read || y >= 1 || mo >= 3,
        None => true,
    }
}

/// Finds what is scored of a transaction.
#[verifier::rlimit(40)]
pub fn parse(p: &RawPayload) -> (r: Option<Payload>)
    requires
        is_dated(*p),
    ensures
        r == scored(*p),
{
    let (y, mo, d, h, min) = match parse_iso_str(p.transaction.requested_at.as_str()) {
        Some(t) => t,
        None => {
            return None;
        },
    };
    let (has_last_tx, minutes_since_last, km_from_current): (bool, u32, F32Bits) =
        match &p.last_transaction {
        Some(lt) => {
            match parse_iso_str(lt.timestamp.as_str()) {
                Some((y2, mo2, d2, h2, min2)) => (
                    true,
                    minutes_between(y2, mo2, d2, h2, min2, y, mo, d, h, min),
                    lt.km_from_current,
                ),
                None => {
                    return None;
                },
            }
        },
        None => (false, 0, ZERO),
    };
    let is_unknown_merchant: bool = !knows_merchant(
        &p.customer.known_merchants,
        p.merchant.id.as_str(),
    );
    let mcc: u32 = match parse_u32(p.merchant.mcc.as_str().as_bytes()) {
        Some(v) => v,
        None => 0,
    };
    let tx_count_24h: u32 = ((p.customer.tx_count_24h as i64 + 0x1_0000_0000)
        % 0x1_0000_0000) as u32;
    let installments: u8 = ((p.transaction.installments as i64 + 0x1_0000_0000) % 0x100) as u8;
    Some(
        Payload {
            amount: p.transaction.amount,
            customer_avg_amount: p.customer.avg_amount,
            merchant_avg_amount: p.merchant.avg_amount,
            km_from_home: p.terminal.km_from_home,
            km_from_current,
            tx_count_24h,
            mcc,
            minutes_since_last,
            installments,
            hour: h as u8,
            day_of_week: day_of_week(y, mo, d) as u8,
            is_online: p.terminal.is_online,
            card_present: p.terminal.card_present,
            is_unknown_merchant,
            has_last_tx,
        },
    )
}

} // verus!
