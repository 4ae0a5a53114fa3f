use vstd::prelude::*;
use vstd::string::StringExecFns;

verus! {

/// Every way in which building inputs, building a policy or evaluating it can fail.
#[derive(Clone, Debug, Eq, PartialEq)]
#[allow(inconsistent_fields)]
pub enum Error {
    EmptyAtom,
    AtomTooLong { limit: usize, actual: usize },
    InvalidAtomChar { index: usize, byte: u8 },
    TooManyContextEntries { limit: usize, actual: usize },
    DuplicateContextKey { first: usize, second: usize },
    EmptyCondition,
    TooManyConditionOps { limit: usize, actual: usize },
    ConditionStackUnderflow { op_index: usize },
    ConditionStackOverflow { limit: usize },
    ConditionDepthExceeded { limit: usize, actual: usize },
    ConditionDoesNotReduceToSingleValue { remaining: usize },
    TooManyRules { limit: usize, actual: usize },
    DuplicateRuleName { first: usize, second: usize },
    ZeroEvaluationBudget,
    EvaluationBudgetExceeded { limit: u32 },
    EmptySelectorSet,
    SelectorSetTooLarge { limit: usize, actual: usize },
}

/// The character of a digit in base 16 (lower case); also the decimal digits.
pub open spec fn digit_char(d: nat) -> char {
    if d < 10 {
        (48 + d) as char
    } else {
        (87 + d) as char
    }
}

/// Decimal representation of `n`, without leading zeros.
pub open spec fn decimal(n: nat) -> Seq<char>
    decreases n,
{
    if n < 10 {
        seq![digit_char(n)]
    } else {
        decimal(n / 10) + seq![digit_char(n % 10)]
    }
}

/// Two lower-case hexadecimal digits of a byte.
pub open spec fn hex_byte(b: u8) -> Seq<char> {
    seq![digit_char((b / 16) as nat), digit_char((b % 16) as nat)]
}

/// The human-readable text of each error.
pub open spec fn error_message(e: Error) -> Seq<char> {
    match e {
        Error::EmptyAtom => "atoms must not be empty"@,
        Error::AtomTooLong { limit, actual } => "atom length "@ + decimal(actual as nat)
            + " exceeds limit "@ + decimal(limit as nat),
        Error::InvalidAtomChar { index, byte } => "invalid atom byte 0x"@ + hex_byte(byte)
            + " at index "@ + decimal(index as nat) + "; only [a-z0-9._:/-] are allowed"@,
        Error::TooManyContextEntries { limit, actual } => "context entry count "@ + decimal(
            actual as nat,
        ) + " exceeds limit "@ + decimal(limit as nat),
        Error::DuplicateContextKey { first, second } => "duplicate context key detected at entries "@
            + decimal(first as nat) + " and "@ + decimal(second as nat),
        Error::EmptyCondition => "condition program must not be empty"@,
        Error::TooManyConditionOps { limit, actual } => "condition op count "@ + decimal(
            actual as nat,
        ) + " exceeds limit "@ + decimal(limit as nat),
        Error::ConditionStackUnderflow { op_index } => "condition stack underflow at op "@
            + decimal(op_index as nat),
        Error::ConditionStackOverflow { limit } => "condition stack exceeds limit "@ + decimal(
            limit as nat,
        ),
        Error::ConditionDepthExceeded { limit, actual } => "condition depth "@ + decimal(
            actual as nat,
        ) + " exceeds limit "@ + decimal(limit as nat),
        Error::ConditionDoesNotReduceToSingleValue { remaining } =>
            "condition program must reduce to one value; "@ + decimal(remaining as nat)
            + " values remain"@,
        Error::TooManyRules { limit, actual } => "rule count "@ + decimal(actual as nat)
            + " exceeds limit "@ + decimal(limit as nat),
        Error::DuplicateRuleName { first, second } => "duplicate rule name detected at rules "@
            + decimal(first as nat) + " and "@ + decimal(second as nat),
        Error::ZeroEvaluationBudget => "evaluation budget must be greater than zero"@,
        Error::EvaluationBudgetExceeded { limit } => "evaluation budget exhausted (limit "@
            + decimal(limit as nat) + ")"@,
        Error::EmptySelectorSet => "selector set must not be empty"@,
        Error::SelectorSetTooLarge { limit, actual } => "selector set size "@ + decimal(
            actual as nat,
        ) + " exceeds limit "@ + decimal(limit as nat),
    }
}

fn digit_str(d: u8) -> (s: &'static str)
    requires
        d < 16,
    ensures
        s@ == seq![digit_char(d as nat)],
{
    match d {
        0 => {
            proof {
                reveal_strlit("0");
            }
            "0"
        },
        1 => {
            proof {
                reveal_strlit("1");
            }
            "1"
        },
        2 => {
            proof {
                reveal_strlit("2");
            }
            "2"
        },
        3 => {
            proof {
                reveal_strlit("3");
            }
            "3"
        },
        4 => {
            proof {
                reveal_strlit("4");
            }
            "4"
        },
        5 => {
            proof {
                reveal_strlit("5");
            }
            "5"
        },
        6 => {
            proof {
                reveal_strlit("6");
            }
            "6"
        },
        7 => {
            proof {
                reveal_strlit("7");
            }
            "7"
        },
        8 => {
            proof {
                reveal_strlit("8");
            }
            "8"
        },
        9 => {
            proof {
                reveal_strlit("9");
            }
            "9"
        },
        10 => {
            proof {
                reveal_strlit("a");
            }
            "a"
        },
        11 => {
            proof {
                reveal_strlit("b");
            }
            "b"
        },
        12 => {
            proof {
                reveal_strlit("c");
            }
            "c"
        },
        13 => {
            proof {
                reveal_strlit("d");
            }
            "d"
        },
        14 => {
            proof {
                reveal_strlit("e");
            }
            "e"
        },
        _ => {
            proof {
                reveal_strlit("f");
            }
            "f"
        },
    }
}

/// Appends the decimal digits of `n`.
fn push_decimal(s: &mut String, n: u64)
    ensures
        final(s)@ == old(s)@ + decimal(n as nat),
    decreases n,
{
    if n >= 10 {
        push_decimal(s, n / 10);
    }
    s.append(digit_str((n % 10) as u8));
    assert(final(s)@ =~= old(s)@ + decimal(n as nat)) by {
        if n >= 10 {
            assert(decimal(n as nat) == decimal((n / 10) as nat) + seq![digit_char((n % 10) as nat)]);
        }
    }
}

/// Appends two lower-case hexadecimal digits of `b`.
fn push_hex_byte(s: &mut String, b: u8)
    ensures
        final(s)@ == old(s)@ + hex_byte(b),
{
    s.append(digit_str(b / 16));
    s.append(digit_str(b % 16));
    assert(final(s)@ =~= old(s)@ + hex_byte(b));
}

impl Error {
    /// The human-readable text of the error.
    pub fn message(&self) -> (m: String)
        ensures
            m@ == error_message(*self),
    {
        let mut s = String::new();
        match self {
            Error::EmptyAtom => s.append("atoms must not be empty"),
            Error::AtomTooLong { limit, actual } => {
                s.append("atom length ");
                push_decimal(&mut s, *actual as u64);
                s.append(" exceeds limit ");
                push_decimal(&mut s, *limit as u64);
            },
            Error::InvalidAtomChar { index, byte } => {
                s.append("invalid atom byte 0x");
                push_hex_byte(&mut s, *byte);
                s.append(" at index ");
                push_decimal(&mut s, *index as u64);
                s.append("; only [a-z0-9._:/-] are allowed");
            },
            Error::TooManyContextEntries { limit, actual } => {
                s.append("context entry count ");
                push_decimal(&mut s, *actual as u64);
                s.append(" exceeds limit ");
                push_decimal(&mut s, *limit as u64);
            },
            Error::DuplicateContextKey { first, second } => {
                s.append("duplicate context key detected at entries ");
                push_decimal(&mut s, *first as u64);
                s.append(" and ");
                push_decimal(&mut s, *second as u64);
            },
            Error::EmptyCondition => s.append("condition program must not be empty"),
            Error::TooManyConditionOps { limit, actual } => {
                s.append("condition op count ");
                push_decimal(&mut s, *actual as u64);
                s.append(" exceeds limit ");
                push_decimal(&mut s, *limit as u64);
            },
            Error::ConditionStackUnderflow { op_index } => {
                s.append("condition stack underflow at op ");
                push_decimal(&mut s, *op_index as u64);
            },
            Error::ConditionStackOverflow { limit } => {
                s.append("condition stack exceeds limit ");
                push_decimal(&mut s, *limit as u64);
            },
            Error::ConditionDepthExceeded { limit, actual } => {
                s.append("condition depth ");
                push_decimal(&mut s, *actual as u64);
                s.append(" exceeds limit ");
                push_decimal(&mut s, *limit as u64);
            },
            Error::ConditionDoesNotReduceToSingleValue { remaining } => {
                s.append("condition program must reduce to one value; ");
                push_decimal(&mut s, *remaining as u64);
                s.append(" values remain");
            },
            Error::TooManyRules { limit, actual } => {
                s.append("rule count ");
                push_decimal(&mut s, *actual as u64);
                s.append(" exceeds limit ");
                push_decimal(&mut s, *limit as u64);
            },
            Error::DuplicateRuleName { first, second } => {
                s.append("duplicate rule name detected at rules ");
                push_decimal(&mut s, *first as u64);
                s.append(" and ");
                push_decimal(&mut s, *second as u64);
            },
            Error::ZeroEvaluationBudget => s.append("evaluation budget must be greater than zero"),
            Error::EvaluationBudgetExceeded { limit } => {
                s.append("evaluation budget exhausted (limit ");
                push_decimal(&mut s, *limit as u64);
                s.append(")");
            },
            Error::EmptySelectorSet => s.append("selector set must not be empty"),
            Error::SelectorSetTooLarge { limit, actual } => {
                s.append("selector set size ");
                push_decimal(&mut s, *actual as u64);
                s.append(" exceeds limit ");
                push_decimal(&mut s, *limit as u64);
            },
        }
        s
    }
}

} // verus!
