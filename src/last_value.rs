//! How far back a report reaches: a number of entries, hours, days or months,
//! written as `3`, `3h`, `2 days`, `month`.
use vstd::prelude::*;

verus! {

#[derive(Clone, Copy, Debug, PartialEq, Eq, Structural)]
pub enum LastValue {
    SingleEntries(usize),
    Hours(usize),
    Days(usize),
    Months(usize),
}

/// Why a span could not be read.
#[derive(Clone, Copy, Debug, PartialEq, Eq, Structural)]
pub enum LastValueError {
    /// The text does not start with a number that fits in `usize`.
    InvalidNumber,
    /// The number is zero.
    NotPositive,
    /// What follows the number is not a unit.
    InvalidPostfix,
}

/// What `str::to_lowercase` gives for a text.
pub uninterp spec fn lower_of(s: Seq<char>) -> Seq<char>;

/// Relies on `str::to_lowercase`: the result depends on the characters alone.
#[verifier::external_body]
fn lowercase(s: &str) -> (r: String)
    ensures
        r@ == lower_of(s@),
{
    s.to_lowercase()
}

pub open spec fn is_digit(c: char) -> bool {
    '0' <= c && c <= '9'
}

/// How many ASCII digits `s` starts with.
pub open spec fn digit_count(s: Seq<char>) -> nat
    decreases s.len(),
{
    if s.len() > 0 && is_digit(s[0]) {
        1 + digit_count(s.drop_first())
    } else {
        0
    }
}

/// The number that the decimal digits `d` write.
pub open spec fn decimal(d: Seq<char>) -> int
    decreases d.len(),
{
    if d.len() == 0 {
        0
    } else {
        decimal(d.drop_last()) * 10 + (d.last() as int - '0' as int)
    }
}

/// A unit alone stands for one of it.
pub open spec fn keyword_spec(lowered: Seq<char>) -> Option<LastValue> {
    if lowered == "hour"@ {
        Some(LastValue::Hours(1))
    } else if lowered == "day"@ {
        Some(LastValue::Days(1))
    } else if lowered == "month"@ {
        Some(LastValue::Months(1))
    } else {
        None
    }
}

/// The leading number of `s` and what follows it.
pub open spec fn number_spec(s: Seq<char>) -> Result<(usize, Seq<char>), LastValueError> {
    let k = digit_count(s) as int;
    if k == 0 || decimal(s.take(k)) > usize::MAX {
        Err(LastValueError::InvalidNumber)
    } else {
        Ok((decimal(s.take(k)) as usize, s.skip(k)))
    }
}

/// The span of `number` units named by the lowercased postfix.
pub open spec fn unit_spec(number: usize, lowered_postfix: Seq<char>) -> Result<
    LastValue,
    LastValueError,
> {
    let p = lowered_postfix;
    if number < 1 {
        Err(LastValueError::NotPositive)
    } else if p.len() == 0 {
        Ok(LastValue::SingleEntries(number))
    } else if p == "h"@ || p == "hour"@ || p == "hours"@ {
        Ok(LastValue::Hours(number))
    } else if p == "d"@ || p == "day"@ || p == "days"@ {
        Ok(LastValue::Days(number))
    } else if p == "m"@ || p == "month"@ || p == "months"@ {
        Ok(LastValue::Months(number))
    } else {
        Err(LastValueError::InvalidPostfix)
    }
}

/// What reading `s` gives: a unit word alone, or a number and a unit.
pub open spec fn last_value_spec(s: Seq<char>) -> Result<LastValue, LastValueError> {
    match keyword_spec(lower_of(s)) {
        Some(v) => Ok(v),
        None => match number_spec(s) {
            Err(e) => Err(e),
            Ok((n, rest)) => unit_spec(n, lower_of(rest)),
        },
    }
}

fn text_is(s: &str, word: &str) -> (r: bool)
    ensures
        r == (s@ == word@),
{
    let a = String::from_str(s);
    let b = String::from_str(word);
    a == b
}

impl LastValue {
    /// The span that a unit word alone stands for.
    pub fn from_keyword(lowered: &str) -> (r: Option<LastValue>)
        ensures
            r == keyword_spec(lowered@),
    {
        if text_is(lowered, "hour") {
            Some(LastValue::Hours(1))
        } else if text_is(lowered, "day") {
            Some(LastValue::Days(1))
        } else if text_is(lowered, "month") {
            Some(LastValue::Months(1))
        } else {
            None
        }
    }

    /// Reads the number at the start of `s`; gives it with the rest of `s`.
    pub fn leading_number(s: &str) -> (r: Result<(usize, &str), LastValueError>)
        ensures
            match r {
                Ok((n, rest)) => number_spec(s@) == Ok::<(usize, Seq<char>), LastValueError>(
                    (n, rest@),
                ),
                Err(e) => number_spec(s@) == Err::<(usize, Seq<char>), LastValueError>(e),
            },
    {
        let len = s.unicode_len();
        let mut i: usize = 0;
        let mut value: usize = 0;
        let mut overflow = false;
        proof {
            assert(s@.take(0) =~= Seq::<char>::empty());
        }
        while i < len && '0' <= s.get_char(i) && s.get_char(i) <= '9'
            invariant
                len == s@.len(),
                i <= len,
                forall|m: int| 0 <= m < i ==> is_digit(#[trigger] s@[m]),
                !overflow ==> value as int == decimal(s@.take(i as int)),
                overflow ==> decimal(s@.take(i as int)) > usize::MAX,
                decimal(s@.take(i as int)) >= 0,
            decreases len - i,
        {
            let c = s.get_char(i);
            let d = (c as u32 - '0' as u32) as usize;
            proof {
                assert(s@.take(i as int + 1).drop_last() =~= s@.take(i as int));
                assert(s@.take(i as int + 1).last() == c);
            }
            if !overflow {
                if value > (usize::MAX - d) / 10 {
                    overflow = true;
                    proof {
                        assert(value * 10 + d > usize::MAX) by (nonlinear_arith)
                            requires
                                value > (usize::MAX - d) / 10,
                                d <= 9,
                        ;
                    }
                } else {
                    proof {
                        assert(value * 10 + d <= usize::MAX) by (nonlinear_arith)
                            requires
                                value <= (usize::MAX - d) / 10,
                                d <= 9,
                        ;
                    }
                    value = value * 10 + d;
                }
            } else {
                proof {
                    let prev = decimal(s@.take(i as int));
                    assert(prev * 10 + d > usize::MAX) by (nonlinear_arith)
                        requires
                            prev > usize::MAX,
                            d >= 0,
                    ;
                }
            }
            i = i + 1;
        }
        proof {
            lemma_digit_count(s@, i as int);
        }
        if i == 0 || overflow {
            return Err(LastValueError::InvalidNumber);
        }
        Ok((value, s.substring_char(i, len)))
    }

    /// The span of `number` units named by the lowercased postfix.
    pub fn from_unit(number: usize, lowered_postfix: &str) -> (r: Result<LastValue, LastValueError>)
        ensures
            r == unit_spec(number, lowered_postfix@),
    {
        let p = lowered_postfix;
        if number < 1 {
            Err(LastValueError::NotPositive)
        } else if p.unicode_len() == 0 {
            Ok(LastValue::SingleEntries(number))
        } else if text_is(p, "h") || text_is(p, "hour") || text_is(p, "hours") {
            Ok(LastValue::Hours(number))
        } else if text_is(p, "d") || text_is(p, "day") || text_is(p, "days") {
            Ok(LastValue::Days(number))
        } else if text_is(p, "m") || text_is(p, "month") || text_is(p, "months") {
            Ok(LastValue::Months(number))
        } else {
            Err(LastValueError::InvalidPostfix)
        }
    }

    /// Reads a span: `hour`, `day` or `month` alone in any case, or a
    /// positive number followed by nothing (entries) or by a unit.
    pub fn from_str(s: &str) -> (r: Result<LastValue, LastValueError>)
        ensures
            r == last_value_spec(s@),
    {
        let lowered = lowercase(s);
        match LastValue::from_keyword(lowered.as_str()) {
            Some(v) => Ok(v),
            None => match LastValue::leading_number(s) {
                Err(e) => Err(e),
                Ok((number, postfix)) => {
                    let lowered_postfix = lowercase(postfix);
                    LastValue::from_unit(number, lowered_postfix.as_str())
                },
            },
        }
    }
}

proof fn lemma_digit_count(s: Seq<char>, i: int)
    requires
        0 <= i <= s.len(),
        forall|m: int| 0 <= m < i ==> is_digit(#[trigger] s[m]),
        i == s.len() || !is_digit(s[i]),
    ensures
        digit_count(s) == i,
    decreases i,
{
    if i > 0 {
        let rest = s.drop_first();
        assert forall|m: int| 0 <= m < i - 1 implies is_digit(#[trigger] rest[m]) by {
            assert(rest[m] == s[m + 1]);
        }
        lemma_digit_count(rest, i - 1);
    }
}

} // verus!
