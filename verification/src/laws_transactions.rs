//! What becomes of a transaction: of its times, of its payload and of the
//! fourteen dimensions that it is compared in.

use vstd::prelude::*;
use vstd::utf8::encode_utf8;
use crate::calendar::{epoch_day, weekday};
use crate::dataset::NormalizationConstants;
use crate::float_bits::F32Bits;
use crate::json::{is_dated, rough_minutes, rough_span, scored, time_of, Payload, RawPayload, Terminal};
use crate::normalize::{date_of, day_count_counts_days, field, hour_of, is_readable, is_time, span, span_counts_minutes, term, weekday_of, LastTransactionData, TerminalData, Term, TransactionPayload};
use crate::query::query_term;
use crate::text::{all_digits, decimal, is_digit, number, number32};

verus! {

/// The byte is an ASCII digit.
pub open spec fn digit(b: u8) -> bool {
    b == 48 || b == 49 || b == 50 || b == 51 || b == 52 || b == 53 || b == 54 || b == 55 || b == 56
        || b == 57
}

/// The number that two digits at `p` stand for.
pub open spec fn two_at(b: Seq<u8>, p: int) -> int {
    10 * (b[p] - 48) + (b[p + 1] - 48)
}

/// Digits stand where those of a time such as `2026-03-11T20:23` do.
pub open spec fn digits_of_a_time(b: Seq<u8>) -> bool {
    &&& b.len() >= 16
    &&& digit(b[0]) && digit(b[1]) && digit(b[2]) && digit(b[3])
    &&& digit(b[5]) && digit(b[6])
    &&& digit(b[8]) && digit(b[9])
    &&& digit(b[11]) && digit(b[12])
    &&& digit(b[14]) && digit(b[15])
}

/// The year of a time.
pub open spec fn year_at(b: Seq<u8>) -> int {
    100 * two_at(b, 0) + two_at(b, 2)
}

proof fn two_digits_are_read(s: Seq<u8>, signed: bool)
    requires
        s.len() == 2,
        digit(s[0]),
        digit(s[1]),
    ensures
        number(s, signed) == Some(two_at(s, 0)),
{
    reveal_with_fuel(decimal, 4);
    assert(s.drop_last().drop_last().len() == 0);
    assert(s.drop_last().last() == s[0]);
    assert(all_digits(s));
}

proof fn four_digits_are_read(s: Seq<u8>, signed: bool)
    requires
        s.len() == 4,
        digit(s[0]),
        digit(s[1]),
        digit(s[2]),
        digit(s[3]),
    ensures
        number(s, signed) == Some(year_at(s)),
{
    reveal_with_fuel(decimal, 6);
    let c = s.drop_last();
    let b = c.drop_last();
    let a = b.drop_last();
    assert(c.last() == s[2] && b.last() == s[1] && a.last() == s[0]);
    assert(a.drop_last().len() == 0);
    assert(all_digits(s));
}

/// Two digits in a timestamp are read as the number that they stand for, with a
/// sign allowed before it or not.
pub proof fn fields_of_two_digits_are_read(b: Seq<u8>, p: int, signed: bool)
    requires
        0 <= p,
        p + 2 <= b.len(),
        digit(b[p]),
        digit(b[p + 1]),
    ensures
        field(b, p, p + 2, signed) == Some(two_at(b, p)),
{
    let s = b.subrange(p, p + 2);
    assert(s[0] == b[p] && s[1] == b[p + 1]);
    two_digits_are_read(s, signed);
}

/// The year in a timestamp is read as the number that its digits stand for.
pub proof fn years_are_read(b: Seq<u8>, signed: bool)
    requires
        b.len() >= 4,
        digit(b[0]),
        digit(b[1]),
        digit(b[2]),
        digit(b[3]),
    ensures
        field(b, 0, 4, signed) == Some(year_at(b)),
{
    let s = b.subrange(0, 4);
    assert(s[0] == b[0] && s[1] == b[1] && s[2] == b[2] && s[3] == b[3]);
    four_digits_are_read(s, signed);
}

/// The hour of a timestamp is what the digits behind the date stand for, as long
/// as there is such an hour.
pub proof fn hours_are_read(b: Seq<u8>)
    requires
        b.len() >= 16,
        digit(b[11]),
        digit(b[12]),
    ensures
        two_at(b, 11) <= 23 ==> hour_of(b) == two_at(b, 11),
        two_at(b, 11) > 23 ==> hour_of(b) == 0,
{
    fields_of_two_digits_are_read(b, 11, false);
}

/// The day of the week of a timestamp is that of its date: its digits stand for
/// the year, the month and the day.
pub proof fn weekdays_are_of_the_date(b: Seq<u8>)
    requires
        b.len() >= 10,
        digit(b[0]),
        digit(b[1]),
        digit(b[2]),
        digit(b[3]),
        digit(b[5]),
        digit(b[6]),
        digit(b[8]),
        digit(b[9]),
    ensures
        date_of(b) == Some((year_at(b), two_at(b, 5), two_at(b, 8))),
        weekday_of(b) == (epoch_day(year_at(b), two_at(b, 5), two_at(b, 8)) + 3) % 7,
{
    years_are_read(b, true);
    fields_of_two_digits_are_read(b, 5, false);
    fields_of_two_digits_are_read(b, 8, false);
}

/// 1970 starts with day 0, a Thursday.
pub proof fn days_are_counted_from_1970()
    ensures
        epoch_day(1970, 1, 1) == 0,
        weekday(1970, 1, 1) == 3,
{
}

/// Between two timestamps of the calendar there are as many minutes as between
/// the times that their digits stand for; none if the second is not later.
pub proof fn spans_are_between_the_times(a: Seq<u8>, b: Seq<u8>)
    requires
        digits_of_a_time(a),
        digits_of_a_time(b),
        a.len() >= 19,
        b.len() >= 19,
        digit(a[17]) && digit(a[18]) && digit(b[17]) && digit(b[18]),
        two_at(a, 17) < 60,
        two_at(b, 17) < 60,
        year_at(a) >= 1,
        year_at(b) >= 1,
        1 <= two_at(a, 5) <= 12,
        1 <= two_at(b, 5) <= 12,
    ensures
        ({
            let days = epoch_day(year_at(b), two_at(b, 5), two_at(b, 8)) - epoch_day(
                year_at(a),
                two_at(a, 5),
                two_at(a, 8),
            );
            let minutes = 1440 * days + 60 * (two_at(b, 11) - two_at(a, 11)) + two_at(b, 14)
                - two_at(a, 14);
            &&& minutes > 0 ==> span(a, b) == minutes
            &&& minutes <= 0 ==> span(a, b) == 0
        }),
{
    times_have_fields(a);
    times_have_fields(b);
    span_counts_minutes(
        a,
        b,
        (
            year_at(a),
            two_at(a, 5),
            two_at(a, 8),
            two_at(a, 11),
            two_at(a, 14),
            two_at(a, 17),
        ),
        (
            year_at(b),
            two_at(b, 5),
            two_at(b, 8),
            two_at(b, 11),
            two_at(b, 14),
            two_at(b, 17),
        ),
    );
}

proof fn fields_of_a_time_are_read(b: Seq<u8>)
    requires
        digits_of_a_time(b),
        b.len() >= 19,
        digit(b[17]) && digit(b[18]),
    ensures
        field(b, 0, 4, true) == Some(year_at(b)),
        field(b, 5, 7, true) == Some(two_at(b, 5)),
        field(b, 8, 10, true) == Some(two_at(b, 8)),
        field(b, 11, 13, true) == Some(two_at(b, 11)),
        field(b, 14, 16, true) == Some(two_at(b, 14)),
        field(b, 17, 19, true) == Some(two_at(b, 17)),
{
    years_are_read(b, true);
    fields_of_two_digits_are_read(b, 5, true);
    fields_of_two_digits_are_read(b, 8, true);
    fields_of_two_digits_are_read(b, 11, true);
    fields_of_two_digits_are_read(b, 14, true);
    fields_of_two_digits_are_read(b, 17, true);
}

proof fn times_have_fields(b: Seq<u8>)
    requires
        digits_of_a_time(b),
        b.len() >= 19,
        digit(b[17]) && digit(b[18]),
        two_at(b, 17) < 60,
        year_at(b) >= 1,
        1 <= two_at(b, 5) <= 12,
    ensures
        is_time(
            b,
            year_at(b),
            two_at(b, 5),
            two_at(b, 8),
            two_at(b, 11),
            two_at(b, 14),
            two_at(b, 17),
        ),
{
    fields_of_a_time_are_read(b);
}

/// Sixty seconds make a minute: between two times there are as many minutes as
/// between their days, hours and minutes, and one more for a minute's worth of
/// seconds in the second.
pub proof fn seconds_past_a_minute_count(start: Seq<u8>, end: Seq<u8>)
    requires
        digits_of_a_time(start),
        digits_of_a_time(end),
        start.len() >= 19,
        end.len() >= 19,
        digit(start[17]) && digit(start[18]),
        digit(end[17]) && digit(end[18]),
        year_at(start) >= 1,
        year_at(end) >= 1,
        1 <= two_at(start, 5) <= 12,
        1 <= two_at(end, 5) <= 12,
    ensures
        ({
            let days = epoch_day(year_at(end), two_at(end, 5), two_at(end, 8)) - epoch_day(
                year_at(start),
                two_at(start, 5),
                two_at(start, 8),
            );
            let minutes = days * 1440 + (two_at(end, 11) - two_at(start, 11)) * 60 + two_at(end, 14)
                - two_at(start, 14) + two_at(end, 17) / 60 - two_at(start, 17) / 60;
            span(start, end) == if minutes > 0 {
                minutes
            } else {
                0
            }
        }),
{
    fields_of_a_time_are_read(start);
    fields_of_a_time_are_read(end);
    day_count_counts_days(year_at(start), two_at(start, 5), two_at(start, 8));
    day_count_counts_days(year_at(end), two_at(end, 5), two_at(end, 8));
}

/// A time that is too short stands at the start of March of the year 0.
pub proof fn short_times_stand_in_the_year_0(start: Seq<u8>, end: Seq<u8>)
    requires
        start.len() < 19,
        digits_of_a_time(end),
        end.len() >= 19,
        digit(end[17]) && digit(end[18]),
        year_at(end) >= 1,
        1 <= two_at(end, 5) <= 12,
        two_at(end, 8) >= 1,
    ensures
        span(start, end) == (epoch_day(year_at(end), two_at(end, 5), two_at(end, 8)) - epoch_day(
            0,
            3,
            1,
        )) * 1440 + two_at(end, 11) * 60 + two_at(end, 14) + two_at(end, 17) / 60,
        span(end, start) == 0,
{
    fields_of_a_time_are_read(end);
    day_count_counts_days(year_at(end), two_at(end, 5), two_at(end, 8));
    day_count_counts_days(0, 3, 1);
}

/// A field of a time that is no number counts as 0.
pub proof fn fields_without_a_number_count_as_0(b: Seq<u8>, c: Seq<u8>, other: Seq<u8>)
    requires
        b.len() >= 19,
        c.len() >= 19,
        field(b, 0, 4, true) == field(c, 0, 4, true),
        field(b, 5, 7, true) == field(c, 5, 7, true),
        field(b, 8, 10, true) == field(c, 8, 10, true),
        field(b, 11, 13, true) == field(c, 11, 13, true) || (field(b, 11, 13, true) is None
            && field(c, 11, 13, true) == Some(0int)),
        field(b, 14, 16, true) == field(c, 14, 16, true) || (field(b, 14, 16, true) is None
            && field(c, 14, 16, true) == Some(0int)),
        field(b, 17, 19, true) == field(c, 17, 19, true) || (field(b, 17, 19, true) is None
            && field(c, 17, 19, true) == Some(0int)),
    ensures
        span(b, other) == span(c, other),
        span(other, b) == span(other, c),
{
}

/// Every dimension has its own fields: where two transactions agree in the
/// fields of a dimension, they agree in that dimension, whatever else they hold.
pub proof fn dimensions_depend_on_their_fields(
    p: TransactionPayload,
    r: TransactionPayload,
    norm: NormalizationConstants,
    risks: Map<Seq<char>, F32Bits>,
)
    ensures
        p.transaction.amount == r.transaction.amount ==> term(p, norm, risks, 0) == term(
            r,
            norm,
            risks,
            0,
        ),
        p.transaction.installments == r.transaction.installments ==> term(p, norm, risks, 1)
            == term(r, norm, risks, 1),
        p.transaction.amount == r.transaction.amount && p.customer.avg_amount
            == r.customer.avg_amount ==> term(p, norm, risks, 2) == term(r, norm, risks, 2),
        p.transaction.requested_at@ == r.transaction.requested_at@ ==> term(p, norm, risks, 3)
            == term(r, norm, risks, 3) && term(p, norm, risks, 4) == term(r, norm, risks, 4),
        p.last_transaction is None && r.last_transaction is None ==> term(p, norm, risks, 5)
            == term(r, norm, risks, 5) && term(p, norm, risks, 6) == term(r, norm, risks, 6),
        (p.last_transaction matches Some(a) && r.last_transaction matches Some(b)
            && a.timestamp@ == b.timestamp@) && p.transaction.requested_at@
            == r.transaction.requested_at@ ==> term(p, norm, risks, 5) == term(r, norm, risks, 5),
        (p.last_transaction matches Some(a) && r.last_transaction matches Some(b)
            && a.km_from_current == b.km_from_current) ==> term(p, norm, risks, 6) == term(
            r,
            norm,
            risks,
            6,
        ),
        p.terminal.km_from_home == r.terminal.km_from_home ==> term(p, norm, risks, 7) == term(
            r,
            norm,
            risks,
            7,
        ),
        p.customer.tx_count_24h == r.customer.tx_count_24h ==> term(p, norm, risks, 8) == term(
            r,
            norm,
            risks,
            8,
        ),
        p.terminal.is_online == r.terminal.is_online ==> term(p, norm, risks, 9) == term(
            r,
            norm,
            risks,
            9,
        ),
        p.terminal.card_present == r.terminal.card_present ==> term(p, norm, risks, 10) == term(
            r,
            norm,
            risks,
            10,
        ),
        p.customer.known_merchants@ == r.customer.known_merchants@ && p.merchant.id@
            == r.merchant.id@ ==> term(p, norm, risks, 11) == term(r, norm, risks, 11),
        p.merchant.mcc@ == r.merchant.mcc@ ==> term(p, norm, risks, 12) == term(
            r,
            norm,
            risks,
            12,
        ),
        p.merchant.avg_amount == r.merchant.avg_amount ==> term(p, norm, risks, 13) == term(
            r,
            norm,
            risks,
            13,
        ),
{
}

/// Two transactions that differ only in the last transaction before them differ
/// in no dimension but the sixth and the seventh.
pub proof fn last_transactions_change_two_dimensions(
    p: TransactionPayload,
    last: Option<LastTransactionData>,
    norm: NormalizationConstants,
    risks: Map<Seq<char>, F32Bits>,
    dim: int,
)
    requires
        0 <= dim < 14,
        dim != 5,
        dim != 6,
    ensures
        term(TransactionPayload { last_transaction: last, ..p }, norm, risks, dim) == term(
            p,
            norm,
            risks,
            dim,
        ),
{
}

/// Two transactions that differ only in the terminal differ in no dimension but
/// the eighth, the tenth and the eleventh.
pub proof fn terminals_change_three_dimensions(
    p: TransactionPayload,
    terminal: TerminalData,
    norm: NormalizationConstants,
    risks: Map<Seq<char>, F32Bits>,
    dim: int,
)
    requires
        0 <= dim < 14,
        dim != 7,
        dim != 9,
        dim != 10,
    ensures
        term(TransactionPayload { terminal, ..p }, norm, risks, dim) == term(p, norm, risks, dim),
{
}

/// No field is lost: two transactions that agree in a dimension agree in what it
/// was made of.
pub proof fn dimensions_tell_fields_apart(
    p: TransactionPayload,
    r: TransactionPayload,
    norm: NormalizationConstants,
    risks: Map<Seq<char>, F32Bits>,
)
    ensures
        term(p, norm, risks, 0) == term(r, norm, risks, 0) ==> p.transaction.amount
            == r.transaction.amount,
        term(p, norm, risks, 1) == term(r, norm, risks, 1) ==> p.transaction.installments
            == r.transaction.installments,
        term(p, norm, risks, 2) == term(r, norm, risks, 2) ==> p.transaction.amount
            == r.transaction.amount && p.customer.avg_amount == r.customer.avg_amount,
        term(p, norm, risks, 6) == term(r, norm, risks, 6) ==> (p.last_transaction is Some
            <==> r.last_transaction is Some) && (p.last_transaction matches Some(a) ==> (
        r.last_transaction matches Some(b) ==> a.km_from_current == b.km_from_current)),
        term(p, norm, risks, 5) == term(r, norm, risks, 5) ==> (p.last_transaction is Some
            <==> r.last_transaction is Some),
        term(p, norm, risks, 7) == term(r, norm, risks, 7) ==> p.terminal.km_from_home
            == r.terminal.km_from_home,
        term(p, norm, risks, 8) == term(r, norm, risks, 8) ==> p.customer.tx_count_24h
            == r.customer.tx_count_24h,
        term(p, norm, risks, 9) == term(r, norm, risks, 9) ==> p.terminal.is_online
            == r.terminal.is_online,
        term(p, norm, risks, 10) == term(r, norm, risks, 10) ==> p.terminal.card_present
            == r.terminal.card_present,
        term(p, norm, risks, 13) == term(r, norm, risks, 13) ==> p.merchant.avg_amount
            == r.merchant.avg_amount,
{
}

/// The dimensions are quotients of the quantities that they are named for and
/// their limits, or flags, or the risk of the category. The patterns are those of
/// 1, 0, -1 and 0.5.
pub proof fn dimensions_are_their_quotients(
    p: TransactionPayload,
    norm: NormalizationConstants,
    risks: Map<Seq<char>, F32Bits>,
)
    ensures
        term(p, norm, risks, 0) matches Term::Ratio { over, under } && over == p.transaction.amount
            && under == norm.max_amount,
        term(p, norm, risks, 1) matches Term::Count { count, under } && count
            == p.transaction.installments && under == norm.max_installments,
        term(p, norm, risks, 2) matches Term::RatioOf { over, under, unit } && over
            == p.transaction.amount && under == p.customer.avg_amount && unit
            == norm.amount_vs_avg_ratio,
        term(p, norm, risks, 3) matches Term::Fraction { part, whole } && part == hour_of(
            encode_utf8(p.transaction.requested_at@),
        ) as u8 && whole == 23,
        term(p, norm, risks, 4) matches Term::Fraction { part, whole } && part == weekday_of(
            encode_utf8(p.transaction.requested_at@),
        ) as u8 && whole == 6,
        p.last_transaction is None ==> (term(p, norm, risks, 5) matches Term::Number(x) && x
            == 0xbf80_0000) && (term(p, norm, risks, 6) matches Term::Number(y) && y
            == 0xbf80_0000),
        p.last_transaction matches Some(last) ==> (term(p, norm, risks, 5) matches Term::Count {
            count,
            under,
        } && count == span(
            encode_utf8(last.timestamp@),
            encode_utf8(p.transaction.requested_at@),
        ) as i64 && under == norm.max_minutes),
        p.last_transaction matches Some(last) ==> (term(p, norm, risks, 6) matches Term::Ratio {
            over,
            under,
        } && over == last.km_from_current && under == norm.max_km),
        term(p, norm, risks, 7) matches Term::Ratio { over, under } && over
            == p.terminal.km_from_home && under == norm.max_km,
        term(p, norm, risks, 8) matches Term::Count { count, under } && count
            == p.customer.tx_count_24h && under == norm.max_tx_count_24h,
        term(p, norm, risks, 9) matches Term::Number(x) && (p.terminal.is_online ==> x
            == 0x3f80_0000) && (!p.terminal.is_online ==> x == 0),
        term(p, norm, risks, 10) matches Term::Number(x) && (p.terminal.card_present ==> x
            == 0x3f80_0000) && (!p.terminal.card_present ==> x == 0),
        (exists|i: int|
            0 <= i < p.customer.known_merchants@.len() && (
            #[trigger] p.customer.known_merchants@[i])@ == p.merchant.id@) ==> (term(
            p,
            norm,
            risks,
            11,
        ) matches Term::Number(x) && x == 0),
        (forall|i: int|
            0 <= i < p.customer.known_merchants@.len() ==> (
            #[trigger] p.customer.known_merchants@[i])@ != p.merchant.id@) ==> (term(
            p,
            norm,
            risks,
            11,
        ) matches Term::Number(x) && x == 0x3f80_0000),
        risks.contains_key(p.merchant.mcc@) ==> (term(p, norm, risks, 12) matches Term::Number(x)
            && x == risks[p.merchant.mcc@]),
        !risks.contains_key(p.merchant.mcc@) ==> (term(p, norm, risks, 12) matches Term::Number(x)
            && x == 0x3f00_0000),
        term(p, norm, risks, 13) matches Term::Ratio { over, under } && over
            == p.merchant.avg_amount && under == norm.max_merchant_avg_amount,
{
}

/// A time is read exactly if its digits are there and stand for a month, a day,
/// an hour and a minute that there are; it is then what they stand for.
pub proof fn request_times_are_read(b: Seq<u8>)
    ensures
        time_of(b) is Some <==> digits_of_a_time(b) && 1 <= two_at(b, 5) <= 12 && 1 <= two_at(b, 8)
            <= 31 && two_at(b, 11) <= 23 && two_at(b, 14) <= 59,
        time_of(b) matches Some(t) ==> t.0 == year_at(b) && t.1 == two_at(b, 5) && t.2 == two_at(
            b,
            8,
        ) && t.3 == two_at(b, 11) && t.4 == two_at(b, 14),
{
}

/// The payload keeps the request: every field of it is the one of that name, or
/// made of the times of the request.
pub proof fn payloads_keep_the_request(p: RawPayload)
    ensures
        scored(p) is Some <==> time_of(encode_utf8(p.transaction.requested_at@)) is Some && (
        p.last_transaction matches Some(last) ==> time_of(encode_utf8(last.timestamp@)) is Some),
        scored(p) matches Some(x) ==> {
            &&& x.amount == p.transaction.amount
            &&& x.customer_avg_amount == p.customer.avg_amount
            &&& x.merchant_avg_amount == p.merchant.avg_amount
            &&& x.km_from_home == p.terminal.km_from_home
            &&& x.is_online == p.terminal.is_online
            &&& x.card_present == p.terminal.card_present
            &&& x.has_last_tx == (p.last_transaction is Some)
            &&& (p.last_transaction matches Some(last) ==> x.km_from_current
                == last.km_from_current)
            &&& (p.last_transaction is None ==> x.km_from_current == 0 && x.minutes_since_last == 0)
            &&& (0 <= p.transaction.installments <= 255 ==> x.installments
                == p.transaction.installments)
            &&& (p.transaction.installments - x.installments) % 256 == 0
            &&& (0 <= p.customer.tx_count_24h ==> x.tx_count_24h == p.customer.tx_count_24h)
            &&& (p.customer.tx_count_24h < 0 ==> x.tx_count_24h == p.customer.tx_count_24h
                + 0x1_0000_0000)
            &&& x.hour == two_at(encode_utf8(p.transaction.requested_at@), 11)
        },
        scored(p) matches Some(x) ==> (x.is_unknown_merchant <==> forall|i: int|
            0 <= i < p.customer.known_merchants@.len() ==> (
            #[trigger] p.customer.known_merchants@[i])@ != p.merchant.id@),
{
    let at = encode_utf8(p.transaction.requested_at@);
    request_times_are_read(at);
    let n = p.transaction.installments as int;
    assert((n - n % 0x100) % 256 == 0);
}

/// The terminal goes into its three fields and nowhere else: with another
/// terminal the payload is the same but for those, and they are that terminal's.
pub proof fn terminals_change_three_fields(p: RawPayload, terminal: Terminal)
    ensures
        scored(RawPayload { terminal, ..p }) is Some <==> scored(p) is Some,
        scored(p) matches Some(x) ==> scored(RawPayload { terminal, ..p }) == Some(
            Payload {
                is_online: terminal.is_online,
                card_present: terminal.card_present,
                km_from_home: terminal.km_from_home,
                ..x
            },
        ),
{
}

/// The code of a category is the number that its digits stand for.
pub proof fn categories_are_read(p: RawPayload)
    requires
        ({
            let b = encode_utf8(p.merchant.mcc@);
            b.len() == 4 && digit(b[0]) && digit(b[1]) && digit(b[2]) && digit(b[3])
        }),
    ensures
        scored(p) matches Some(x) ==> x.mcc == year_at(encode_utf8(p.merchant.mcc@)),
{
    four_digits_are_read(encode_utf8(p.merchant.mcc@), false);
}

/// The minutes since the last transaction are those between the two times when
/// every month has 30 days and every year 365; none if it is not earlier.
pub proof fn minutes_are_between_the_times(p: RawPayload, a: Seq<u8>, b: Seq<u8>)
    requires
        p.last_transaction matches Some(last) && a == encode_utf8(last.timestamp@),
        b == encode_utf8(p.transaction.requested_at@),
    ensures
        scored(p) matches Some(x) ==> ({
            let minutes = 525600 * (year_at(b) - year_at(a)) + 43200 * (two_at(b, 5) - two_at(a, 5))
                + 1440 * (two_at(b, 8) - two_at(a, 8)) + 60 * (two_at(b, 11) - two_at(a, 11))
                + two_at(b, 14) - two_at(a, 14);
            &&& minutes <= 0 ==> x.minutes_since_last == 0
            &&& 0 < minutes < 0x1_0000_0000 ==> x.minutes_since_last == minutes
            &&& 0 < minutes ==> (minutes - x.minutes_since_last) % 0x1_0000_0000 == 0
        }),
{
    if let Some(x) = scored(p) {
        request_times_are_read(a);
        request_times_are_read(b);
        let s = time_of(a)->0;
        let t = time_of(b)->0;
        assert(x.minutes_since_last == rough_span(s, t));
        rough_spans_count_minutes(s, t);
    }
}

/// Roughly the minutes between two times, part by part.
pub proof fn rough_spans_count_minutes(
    s: (u32, u32, u32, u32, u32),
    t: (u32, u32, u32, u32, u32),
)
    ensures
        ({
            let minutes = 525600 * (t.0 - s.0) + 43200 * (t.1 - s.1) + 1440 * (t.2 - s.2) + 60 * (t.3
                - s.3) + t.4 - s.4;
            &&& minutes <= 0 ==> rough_span(s, t) == 0
            &&& 0 < minutes < 0x1_0000_0000 ==> rough_span(s, t) == minutes
            &&& 0 < minutes ==> (minutes - rough_span(s, t)) % 0x1_0000_0000 == 0
        }),
{
    let m = rough_minutes(t.0, t.1, t.2, t.3, t.4) - rough_minutes(s.0, s.1, s.2, s.3, s.4);
    assert((m - m % 0x1_0000_0000) % 0x1_0000_0000 == 0);
}

/// A payload counts the days of the week from Sunday.
pub proof fn payload_weekdays_are_of_the_date(p: RawPayload)
    ensures
        scored(p) matches Some(x) ==> ({
            let b = encode_utf8(p.transaction.requested_at@);
            let day = epoch_day(year_at(b), two_at(b, 5), two_at(b, 8));
            x.day_of_week == (day + 4) % 7
        }),
{
    request_times_are_read(encode_utf8(p.transaction.requested_at@));
}

/// A request and a transaction hold the same.
pub open spec fn hold_the_same(p: RawPayload, t: TransactionPayload) -> bool {
    &&& p.transaction.amount == t.transaction.amount
    &&& p.transaction.installments == t.transaction.installments
    &&& p.transaction.requested_at@ == t.transaction.requested_at@
    &&& p.customer.avg_amount == t.customer.avg_amount
    &&& p.customer.tx_count_24h == t.customer.tx_count_24h
    &&& p.customer.known_merchants@ == t.customer.known_merchants@
    &&& p.merchant.id@ == t.merchant.id@
    &&& p.merchant.mcc@ == t.merchant.mcc@
    &&& p.merchant.avg_amount == t.merchant.avg_amount
    &&& p.terminal.is_online == t.terminal.is_online
    &&& p.terminal.card_present == t.terminal.card_present
    &&& p.terminal.km_from_home == t.terminal.km_from_home
    &&& p.last_transaction is Some <==> t.last_transaction is Some
    &&& (p.last_transaction matches Some(a) ==> (t.last_transaction matches Some(b)
        ==> a.km_from_current == b.km_from_current))
}

/// A request is compared in the dimensions in which a transaction is that holds
/// the same, but for the minutes since the last one, which are rough.
pub proof fn requests_are_normalized_as_transactions(
    p: RawPayload,
    t: TransactionPayload,
    norm: NormalizationConstants,
    risks: Map<Seq<char>, F32Bits>,
    dim: int,
)
    requires
        hold_the_same(p, t),
        scored(p) is Some,
        0 <= p.transaction.installments <= 255,
        0 <= p.customer.tx_count_24h,
        0 <= dim < 14,
        dim != 5,
    ensures
        query_term(scored(p)->0, norm, risks, p.merchant.mcc@, dim) == term(t, norm, risks, dim),
{
    let b = encode_utf8(p.transaction.requested_at@);
    request_times_are_read(b);
    hours_are_read(b);
    weekdays_are_of_the_date(b);
}

/// The minutes of a payload are divided by the limit of minutes, if there was a
/// last transaction; the pattern of -1 stands for none.
pub proof fn minutes_are_divided_by_their_limit(
    x: Payload,
    norm: NormalizationConstants,
    risks: Map<Seq<char>, F32Bits>,
    mcc: Seq<char>,
)
    ensures
        x.has_last_tx ==> (query_term(x, norm, risks, mcc, 5) matches Term::Count { count, under }
            && count == x.minutes_since_last && under == norm.max_minutes),
        !x.has_last_tx ==> (query_term(x, norm, risks, mcc, 5) matches Term::Number(n) && n
            == 0xbf80_0000),
{
}

/// The digits of a number.
pub open spec fn written(n: nat) -> Seq<u8>
    decreases n,
{
    if n < 10 {
        seq![(48 + n) as u8]
    } else {
        written(n / 10).push((48 + n % 10) as u8)
    }
}

/// A number that is written in digits is read as that number.
pub proof fn written_numbers_are_read(n: nat)
    ensures
        all_digits(written(n)),
        decimal(written(n)) == n,
        number(written(n), true) == Some(n as int),
        number(written(n), false) == Some(n as int),
        n <= u32::MAX ==> number32(written(n)) == Some(n as u32),
        n > u32::MAX ==> number32(written(n)) is None,
    decreases n,
{
    let s = written(n);
    if n < 10 {
        reveal_with_fuel(decimal, 2);
        assert(s.drop_last().len() == 0);
    } else {
        written_numbers_are_read(n / 10);
        assert(s.drop_last() =~= written(n / 10));
        assert forall|i: int| 0 <= i < s.len() implies is_digit(#[trigger] s[i]) by {
            if i < s.len() - 1 {
                assert(s[i] == written(n / 10)[i]);
            }
        }
    }
    assert(is_digit(s[0]));
}

/// A sign before the digits gives the number its sign; without leave for one, a
/// minus is no number.
pub proof fn signs_are_read(n: nat)
    ensures
        number(seq![43u8] + written(n), true) == Some(n as int),
        number(seq![43u8] + written(n), false) == Some(n as int),
        number(seq![45u8] + written(n), true) == Some(-n),
        number(seq![45u8] + written(n), false) is None,
{
    written_numbers_are_read(n);
    let plus = seq![43u8] + written(n);
    let minus = seq![45u8] + written(n);
    assert(plus.skip(1) =~= written(n));
    assert(minus.skip(1) =~= written(n));
    assert(!is_digit(minus[0]));
}

/// Text of ASCII characters only.
pub open spec fn is_plain(b: Seq<u8>) -> bool {
    forall|i: int| 0 <= i < b.len() ==> (#[trigger] b[i]) < 0x80
}

/// Transactions with times of the calendar, from the year 1 on, are accepted.
pub proof fn calendar_times_are_accepted(t: TransactionPayload)
    requires
        ({
            let b = encode_utf8(t.transaction.requested_at@);
            is_plain(b) && digits_of_a_time(b) && 1 <= two_at(b, 5) <= 12 && year_at(b) >= 1
        }),
        t.last_transaction matches Some(last) ==> is_plain(encode_utf8(last.timestamp@)),
    ensures
        is_readable(t),
{
    weekdays_are_of_the_date(encode_utf8(t.transaction.requested_at@));
}

/// Requests with times from the year 1 on are accepted, whether they can be
/// scored or not.
pub proof fn calendar_requests_are_accepted(p: RawPayload)
    requires
        year_at(encode_utf8(p.transaction.requested_at@)) >= 1,
    ensures
        is_dated(p),
{
    request_times_are_read(encode_utf8(p.transaction.requested_at@));
}

/// The dimensions of a request are quotients of the quantities that they are
/// named for and their limits, or flags, or the risk of the category.
pub proof fn query_dimensions_are_their_quotients(
    x: Payload,
    norm: NormalizationConstants,
    risks: Map<Seq<char>, F32Bits>,
    mcc: Seq<char>,
)
    requires
        x.day_of_week < 7,
    ensures
        query_term(x, norm, risks, mcc, 0) matches Term::Ratio { over, under } && over == x.amount
            && under == norm.max_amount,
        query_term(x, norm, risks, mcc, 1) matches Term::Count { count, under } && count
            == x.installments && under == norm.max_installments,
        query_term(x, norm, risks, mcc, 2) matches Term::RatioOf { over, under, unit } && over
            == x.amount && under == x.customer_avg_amount && unit == norm.amount_vs_avg_ratio,
        query_term(x, norm, risks, mcc, 3) matches Term::Fraction { part, whole } && part == x.hour
            && whole == 23,
        query_term(x, norm, risks, mcc, 4) matches Term::Fraction { part, whole } && (
        x.day_of_week == 0 ==> part == 6) && (x.day_of_week > 0 ==> part == x.day_of_week - 1)
            && whole == 6,
        x.has_last_tx ==> (query_term(x, norm, risks, mcc, 6) matches Term::Ratio { over, under }
            && over == x.km_from_current && under == norm.max_km),
        !x.has_last_tx ==> (query_term(x, norm, risks, mcc, 6) matches Term::Number(n) && n
            == 0xbf80_0000),
        query_term(x, norm, risks, mcc, 7) matches Term::Ratio { over, under } && over
            == x.km_from_home && under == norm.max_km,
        query_term(x, norm, risks, mcc, 8) matches Term::Count { count, under } && count
            == x.tx_count_24h && under == norm.max_tx_count_24h,
        query_term(x, norm, risks, mcc, 9) matches Term::Number(n) && (x.is_online ==> n
            == 0x3f80_0000) && (!x.is_online ==> n == 0),
        query_term(x, norm, risks, mcc, 10) matches Term::Number(n) && (x.card_present ==> n
            == 0x3f80_0000) && (!x.card_present ==> n == 0),
        query_term(x, norm, risks, mcc, 11) matches Term::Number(n) && (x.is_unknown_merchant ==> n
            == 0x3f80_0000) && (!x.is_unknown_merchant ==> n == 0),
        risks.contains_key(mcc) ==> (query_term(x, norm, risks, mcc, 12) matches Term::Number(n)
            && n == risks[mcc]),
        !risks.contains_key(mcc) ==> (query_term(x, norm, risks, mcc, 12) matches Term::Number(n)
            && n == 0x3f00_0000),
        query_term(x, norm, risks, mcc, 13) matches Term::Ratio { over, under } && over
            == x.merchant_avg_amount && under == norm.max_merchant_avg_amount,
{
}

/// Two payloads that differ only in the last transaction before them differ in no
/// dimension but the sixth and the seventh.
pub proof fn last_transactions_change_two_query_dimensions(
    x: Payload,
    has_last_tx: bool,
    minutes_since_last: u32,
    km_from_current: F32Bits,
    norm: NormalizationConstants,
    risks: Map<Seq<char>, F32Bits>,
    mcc: Seq<char>,
    dim: int,
)
    requires
        0 <= dim < 14,
        dim != 5,
        dim != 6,
    ensures
        query_term(
            Payload { has_last_tx, minutes_since_last, km_from_current, ..x },
            norm,
            risks,
            mcc,
            dim,
        ) == query_term(x, norm, risks, mcc, dim),
{
}

/// A category that is written as a number has that number for its code, if it
/// can be held in 32 bits; one that holds anything but digits behind at most one
/// plus has code 0.
pub proof fn category_codes_are_numbers(p: RawPayload, n: nat, i: int)
    ensures
        encode_utf8(p.merchant.mcc@) == written(n) && n <= u32::MAX ==> (scored(p) matches Some(x)
            ==> x.mcc == n),
        encode_utf8(p.merchant.mcc@) == written(n) && n > u32::MAX ==> (scored(p) matches Some(x)
            ==> x.mcc == 0),
        0 <= i < encode_utf8(p.merchant.mcc@).len() && !digit(encode_utf8(p.merchant.mcc@)[i]) && !(
        i == 0 && encode_utf8(p.merchant.mcc@)[0] == 43) ==> (scored(p) matches Some(x) ==> x.mcc
            == 0),
        encode_utf8(p.merchant.mcc@).len() == 0 ==> (scored(p) matches Some(x) ==> x.mcc == 0),
{
    written_numbers_are_read(n);
    let b = encode_utf8(p.merchant.mcc@);
    if 0 <= i < b.len() && !digit(b[i]) && !(i == 0 && b[0] == 43) {
        assert(!is_digit(b[i]));
        if b[0] == 43 {
            assert(b.skip(1)[i - 1] == b[i]);
        }
        assert(number(b, false) is None);
    }
}

} // verus!
