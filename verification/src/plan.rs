//! What a plan says of `MATCH_RECOGNIZE`, and what can be wrong with it.

use vstd::prelude::*;

verus! {

/// A planned input of a `DEFINE` predicate.
#[derive(Debug)]
pub struct MatchRecognizeDefineSlot {
    pub kind: u32,
    pub vars: Vec<String>,
    pub col_idx: u32,
    pub offset: u32,
}

/// A planned `DEFINE` predicate.
#[derive(Debug)]
pub struct MatchRecognizeDefine {
    pub symbol: String,
    /// The number of the condition expression.
    pub condition: Option<usize>,
    pub slots: Vec<MatchRecognizeDefineSlot>,
}

/// A planned input of a measure.
#[derive(Debug)]
pub struct MatchRecognizeMeasureSlot {
    pub kind: u32,
    pub vars: Vec<String>,
    pub col_idx: u32,
    /// The number of the aggregate.
    pub agg_call: Option<usize>,
}

/// A planned measure.
#[derive(Debug)]
pub struct MatchRecognizeMeasure {
    /// The number of the expression.
    pub expr: Option<usize>,
    pub slots: Vec<MatchRecognizeMeasureSlot>,
}

/// The kind of a record of a changelog.
#[derive(Debug, Clone, Copy, PartialEq, Eq, Structural)]
pub enum Op {
    Insert,
    Delete,
    UpdateDelete,
    UpdateInsert,
}

/// What is wrong with a plan or with the input that it was promised.
#[derive(Debug, Clone, Copy, PartialEq, Eq, Structural)]
pub enum PlanError {
    /// A `DEFINE` predicate has no condition.
    MissingCondition,
    /// A `DEFINE` predicate has a slot of this unknown kind.
    InvalidDefineSlotKind(u32),
    /// A measure has no expression.
    MissingExpression,
    /// A measure has a slot of this unknown kind.
    InvalidMeasureSlotKind(u32),
    /// A slot that sums has no aggregate.
    MissingAggCall,
    /// The input is not append-only: it holds a record of this kind.
    NotAppendOnly(Op),
}

/// The decimal digit.
pub open spec fn digit(d: int) -> char {
    if d == 0 {
        '0'
    } else if d == 1 {
        '1'
    } else if d == 2 {
        '2'
    } else if d == 3 {
        '3'
    } else if d == 4 {
        '4'
    } else if d == 5 {
        '5'
    } else if d == 6 {
        '6'
    } else if d == 7 {
        '7'
    } else if d == 8 {
        '8'
    } else {
        '9'
    }
}

/// The decimal digits of a number.
pub open spec fn decimal(x: nat) -> Seq<char>
    decreases x,
{
    if x < 10 {
        seq![digit(x as int)]
    } else {
        decimal(x / 10) + seq![digit((x % 10) as int)]
    }
}

fn digit_text(d: u32) -> (r: &'static str)
    requires
        d < 10,
    ensures
        r@ == seq![digit(d as int)],
{
    proof {
        reveal_strlit("0");
        reveal_strlit("1");
        reveal_strlit("2");
        reveal_strlit("3");
        reveal_strlit("4");
        reveal_strlit("5");
        reveal_strlit("6");
        reveal_strlit("7");
        reveal_strlit("8");
        reveal_strlit("9");
    }
    let r = match d {
        0 => "0",
        1 => "1",
        2 => "2",
        3 => "3",
        4 => "4",
        5 => "5",
        6 => "6",
        7 => "7",
        8 => "8",
        _ => "9",
    };
    assert(r@ =~= seq![digit(d as int)]);
    r
}

fn decimal_text(x: u32) -> (r: String)
    ensures
        r@ == decimal(x as nat),
    decreases x,
{
    if x < 10 {
        digit_text(x).to_owned()
    } else {
        let mut r = decimal_text(x / 10);
        r.append(digit_text(x % 10));
        r
    }
}

impl Op {
    /// The name of the record kind.
    pub open spec fn text(self) -> Seq<char> {
        match self {
            Op::Insert => "Insert"@,
            Op::Delete => "Delete"@,
            Op::UpdateDelete => "UpdateDelete"@,
            Op::UpdateInsert => "UpdateInsert"@,
        }
    }

    /// The name of the record kind.
    pub fn name(&self) -> (r: &'static str)
        ensures
            r@ == self.text(),
    {
        match self {
            Op::Insert => "Insert",
            Op::Delete => "Delete",
            Op::UpdateDelete => "UpdateDelete",
            Op::UpdateInsert => "UpdateInsert",
        }
    }
}

impl PlanError {
    /// What is wrong, in words.
    pub open spec fn text(self) -> Seq<char> {
        match self {
            PlanError::MissingCondition => "MATCH_RECOGNIZE define missing condition"@,
            PlanError::InvalidDefineSlotKind(k) => "invalid MATCH_RECOGNIZE define slot kind: "@
                + decimal(k as nat),
            PlanError::MissingExpression => "MATCH_RECOGNIZE measure missing expression"@,
            PlanError::InvalidMeasureSlotKind(k) => "invalid MATCH_RECOGNIZE measure slot kind: "@
                + decimal(k as nat),
            PlanError::MissingAggCall => "MATCH_RECOGNIZE SUM/AVG measure slot missing agg_call"@,
            PlanError::NotAppendOnly(
                op,
            ) => "MATCH_RECOGNIZE requires append-only input but received a "@ + op.text()
                + " record"@,
        }
    }

    /// What is wrong, in words.
    pub fn message(&self) -> (r: String)
        ensures
            r@ == self.text(),
    {
        match self {
            PlanError::MissingCondition => "MATCH_RECOGNIZE define missing condition".to_owned(),
            PlanError::InvalidDefineSlotKind(k) => {
                let mut r = "invalid MATCH_RECOGNIZE define slot kind: ".to_owned();
                r.append(decimal_text(*k).as_str());
                r
            },
            PlanError::MissingExpression => "MATCH_RECOGNIZE measure missing expression".to_owned(),
            PlanError::InvalidMeasureSlotKind(k) => {
                let mut r = "invalid MATCH_RECOGNIZE measure slot kind: ".to_owned();
                r.append(decimal_text(*k).as_str());
                r
            },
            PlanError::MissingAggCall => {
                "MATCH_RECOGNIZE SUM/AVG measure slot missing agg_call".to_owned()
            },
            PlanError::NotAppendOnly(op) => {
                let mut r = "MATCH_RECOGNIZE requires append-only input but received a ".to_owned();
                r.append(op.name());
                r.append(" record");
                r
            },
        }
    }
}

/// The digits of a number: the last one is what is left of the number by ten, and those before it are
/// the digits of the tenth; a digit is as many characters behind `0` as it says.
pub proof fn lemma_decimal_digits(x: nat)
    ensures
        decimal(x).len() > 0,
        decimal(x).last() as int == '0' as int + x % 10,
        x >= 10 ==> decimal(x).drop_last() == decimal(x / 10),
        x < 10 ==> decimal(x).len() == 1,
{
    if x >= 10 {
        assert(decimal(x).drop_last() =~= decimal(x / 10));
    }
}

} // verus!
