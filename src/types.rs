use vstd::prelude::*;

verus! {

/// Accounts are named by their id.
pub type AccountId = String;

/// Nanoseconds since the epoch.
pub type Timestamp = u64;

/// Which way value moved in a stake transaction.
#[derive(Clone, Copy, Debug, PartialEq, Eq, Structural)]
pub enum TransactionType {
    Stake,
    Unstake,
}

/// A numeric answer in fixed point: magnitude `value * 10^multiplier`, with the sign kept apart.
#[derive(Clone, Copy, Debug, PartialEq, Eq, Structural)]
pub struct NumberOutcome {
    pub value: u128,
    pub multiplier: u128,
    pub negative: bool,
}

#[derive(Debug)]
pub enum AnswerType {
    Number(NumberOutcome),
    String(String),
}

/// What a data request resolves to.
#[derive(Debug)]
pub enum Outcome {
    Answer(AnswerType),
    Invalid,
}

/// The mathematical value of an outcome: outcomes are compared and keyed by it.
pub enum OutcomeModel {
    Text(Seq<char>),
    Number(u128, u128, bool),
    Invalid,
}

impl View for Outcome {
    type V = OutcomeModel;

    open spec fn view(&self) -> OutcomeModel {
        match self {
            Outcome::Answer(AnswerType::String(s)) => OutcomeModel::Text(s@),
            Outcome::Answer(AnswerType::Number(n)) => OutcomeModel::Number(
                n.value,
                n.multiplier,
                n.negative,
            ),
            Outcome::Invalid => OutcomeModel::Invalid,
        }
    }
}

impl Outcome {
    /// A copy with the same value.
    pub fn duplicate(&self) -> (r: Outcome)
        ensures
            r@ == self@,
    {
        match self {
            Outcome::Answer(AnswerType::String(s)) => Outcome::Answer(AnswerType::String(s.clone())),
            Outcome::Answer(AnswerType::Number(n)) => Outcome::Answer(AnswerType::Number(*n)),
            Outcome::Invalid => Outcome::Invalid,
        }
    }

    /// Structural equality of two outcomes.
    pub fn same_as(&self, other: &Outcome) -> (r: bool)
        ensures
            r == (self@ == other@),
    {
        match self {
            Outcome::Answer(AnswerType::String(a)) => match other {
                Outcome::Answer(AnswerType::String(b)) => a.eq(b),
                _ => false,
            },
            Outcome::Answer(AnswerType::Number(a)) => match other {
                Outcome::Answer(AnswerType::Number(b)) => a.value == b.value && a.multiplier
                    == b.multiplier && a.negative == b.negative,
                _ => false,
            },
            Outcome::Invalid => match other {
                Outcome::Invalid => true,
                _ => false,
            },
        }
    }
}

pub open spec fn digit_char(d: nat) -> char {
    if d == 0 {
        '0'
    } else if d == 1 {
        '1'
    } else if d == 2 {
        '2'
    } else if d == 3 {
        '3'
    } else if d == 4 {
        '4'
    } else if d == 5 {
        '5'
    } else if d == 6 {
        '6'
    } else if d == 7 {
        '7'
    } else if d == 8 {
        '8'
    } else {
        '9'
    }
}

/// The decimal digits of `n`, most significant first, without leading zeros.
pub open spec fn decimal(n: nat) -> Seq<char>
    decreases n,
{
    if n < 10 {
        seq![digit_char(n)]
    } else {
        decimal(n / 10).push(digit_char(n % 10))
    }
}

pub open spec fn bool_text(b: bool) -> Seq<char> {
    if b {
        seq!['t', 'r', 'u', 'e']
    } else {
        seq!['f', 'a', 'l', 's', 'e']
    }
}

/// The key under which an outcome is recorded. Every answer starts with `ans_`, so no
/// answer can take the key of `Invalid`.
pub open spec fn outcome_key(o: OutcomeModel) -> Seq<char> {
    match o {
        OutcomeModel::Text(t) => seq!['a', 'n', 's', '_', 's', 't', 'r', '_'] + t,
        OutcomeModel::Number(v, m, neg) => seq!['a', 'n', 's', '_', 'n', 'u', 'm', '_'] + decimal(
            v as nat,
        ) + seq!['_'] + decimal(m as nat) + seq!['_'] + bool_text(neg),
        OutcomeModel::Invalid => seq!['i', 'n', 'v', 'a', 'l', 'i', 'd'],
    }
}

fn digit_str(d: u128) -> (r: &'static str)
    requires
        d < 10,
    ensures
        r@ == seq![digit_char(d as nat)],
{
    proof {
        reveal_strlit("0");
        reveal_strlit("1");
        reveal_strlit("2");
        reveal_strlit("3");
        reveal_strlit("4");
        reveal_strlit("5");
        reveal_strlit("6");
        reveal_strlit("7");
        reveal_strlit("8");
        reveal_strlit("9");
    }
    if d == 0 {
        "0"
    } else if d == 1 {
        "1"
    } else if d == 2 {
        "2"
    } else if d == 3 {
        "3"
    } else if d == 4 {
        "4"
    } else if d == 5 {
        "5"
    } else if d == 6 {
        "6"
    } else if d == 7 {
        "7"
    } else if d == 8 {
        "8"
    } else {
        "9"
    }
}

/// Appends the decimal digits of `n` to `s`.
pub fn push_decimal(s: &mut String, n: u128)
    ensures
        final(s)@ == old(s)@ + decimal(n as nat),
    decreases n,
{
    if n >= 10 {
        push_decimal(s, n / 10);
    }
    s.append(digit_str(n % 10));
    proof {
        if n < 10 {
            assert(decimal(n as nat) == seq![digit_char(n as nat)]);
        }
    }
    assert(final(s)@ == old(s)@ + decimal(n as nat));
}

/// The key of an outcome: `ans_str_<text>`, `ans_num_<value>_<multiplier>_<negative>`
/// or `invalid`.
pub fn outcome_to_id(outcome: &Outcome) -> (r: String)
    ensures
        r@ == outcome_key(outcome@),
{
    proof {
        reveal_strlit("ans_str_");
        reveal_strlit("ans_num_");
        reveal_strlit("_");
        reveal_strlit("true");
        reveal_strlit("false");
        reveal_strlit("invalid");
    }
    match outcome {
        Outcome::Answer(AnswerType::String(text)) => {
            let mut id = String::from_str("ans_str_");
            id.append(text.as_str());
            id
        },
        Outcome::Answer(AnswerType::Number(n)) => {
            let mut id = String::from_str("ans_num_");
            push_decimal(&mut id, n.value);
            id.append("_");
            push_decimal(&mut id, n.multiplier);
            id.append("_");
            if n.negative {
                id.append("true");
            } else {
                id.append("false");
            }
            assert(id@ =~= outcome_key(outcome@));
            id
        },
        Outcome::Invalid => String::from_str("invalid"),
    }
}

} // verus!
