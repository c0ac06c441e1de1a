//! From a parsed request to the fourteen dimensions that it is compared in.

use vstd::prelude::*;
use crate::calendar::weekday;
use crate::dataset::{MccRiskMap, NormalizationConstants};
use crate::float_bits::F32Bits;
use crate::json::{request_time, scored, Payload, RawPayload};
use crate::normalize::{as_flag, flag, risk_of, Term, HALF, MINUS_ONE};

verus! {

/// A day of the week counted from Monday, given one counted from Sunday.
pub open spec fn from_monday(day: int) -> int {
    (day + 6) % 7
}

/// The number in each dimension of a request from a merchant of category `mcc`.
pub open spec fn query_term(
    p: Payload,
    norm: NormalizationConstants,
    risks: Map<Seq<char>, F32Bits>,
    mcc: Seq<char>,
    dim: int,
) -> Term {
    if dim == 0 {
        Term::Ratio { over: p.amount, under: norm.max_amount }
    } else if dim == 1 {
        Term::Count { count: p.installments as i64, under: norm.max_installments }
    } else if dim == 2 {
        Term::RatioOf {
            over: p.amount,
            under: p.customer_avg_amount,
            unit: norm.amount_vs_avg_ratio,
        }
    } else if dim == 3 {
        Term::Fraction { part: p.hour, whole: 23 }
    } else if dim == 4 {
        Term::Fraction { part: from_monday(p.day_of_week as int) as u8, whole: 6 }
    } else if dim == 5 {
        if p.has_last_tx {
            Term::Count { count: p.minutes_since_last as i64, under: norm.max_minutes }
        } else {
            Term::Number(MINUS_ONE)
        }
    } else if dim == 6 {
        if p.has_last_tx {
            Term::Ratio { over: p.km_from_current, under: norm.max_km }
        } else {
            Term::Number(MINUS_ONE)
        }
    } else if dim == 7 {
        Term::Ratio { over: p.km_from_home, under: norm.max_km }
    } else if dim == 8 {
        Term::Count { count: p.tx_count_24h as i64, under: norm.max_tx_count_24h }
    } else if dim == 9 {
        flag(p.is_online)
    } else if dim == 10 {
        flag(p.card_present)
    } else if dim == 11 {
        flag(p.is_unknown_merchant)
    } else if dim == 12 {
        Term::Number(risk_of(risks, mcc))
    } else {
        Term::Ratio { over: p.merchant_avg_amount, under: norm.max_merchant_avg_amount }
    }
}

/// Finds how the number in each dimension of a request is computed.
pub fn vectorize(
    payload: &Payload,
    norm: &NormalizationConstants,
    mcc_risk: &MccRiskMap,
    mcc: &str,
) -> (r: [Term; 14])
    ensures
        forall|dim: int|
            0 <= dim < 14 ==> (#[trigger] r@[dim]) == query_term(
                *payload,
                *norm,
                mcc_risk@,
                mcc@,
                dim,
            ),
{
    let dow: u8 = ((payload.day_of_week as u16 + 6) % 7) as u8;
    let last: (Term, Term) = if payload.has_last_tx {
        (
            Term::Count { count: payload.minutes_since_last as i64, under: norm.max_minutes },
            Term::Ratio { over: payload.km_from_current, under: norm.max_km },
        )
    } else {
        (Term::Number(MINUS_ONE), Term::Number(MINUS_ONE))
    };
    let risk: F32Bits = match mcc_risk.get(mcc) {
        Some(risk) => risk,
        None => HALF,
    };
    [
        Term::Ratio { over: payload.amount, under: norm.max_amount },
        Term::Count { count: payload.installments as i64, under: norm.max_installments },
        Term::RatioOf {
            over: payload.amount,
            under: payload.customer_avg_amount,
            unit: norm.amount_vs_avg_ratio,
        },
        Term::Fraction { part: payload.hour, whole: 23 },
        Term::Fraction { part: dow, whole: 6 },
        last.0,
        last.1,
        Term::Ratio { over: payload.km_from_home, under: norm.max_km },
        Term::Count { count: payload.tx_count_24h as i64, under: norm.max_tx_count_24h },
        as_flag(payload.is_online),
        as_flag(payload.card_present),
        as_flag(payload.is_unknown_merchant),
        Term::Number(risk),
        Term::Ratio { over: payload.merchant_avg_amount, under: norm.max_merchant_avg_amount },
    ]
}

/// A request stands on its day of the calendar: 0 on a Monday, 6 on a Sunday.
pub proof fn requests_stand_on_their_weekday(
    p: RawPayload,
    norm: NormalizationConstants,
    risks: Map<Seq<char>, F32Bits>,
)
    requires
        scored(p) is Some,
    ensures
        request_time(p) matches Some(at) && query_term(
            scored(p).unwrap(),
            norm,
            risks,
            p.merchant.mcc@,
            4,
        ) == (Term::Fraction {
            part: weekday(at.0 as int, at.1 as int, at.2 as int) as u8,
            whole: 6,
        }),
{
}

} // verus!
