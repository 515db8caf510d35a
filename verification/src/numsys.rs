//! Base-`k` numeration systems read most (`msd_k`) or least (`lsd_k`) significant
//! digit first: their names, the relations and operations the automata compute, and
//! the automata for "less than" that the rest is built on.

use crate::automaton::Automaton;
use crate::bigint::{abs, BigSign, BigValue};
use crate::fa::{run_from, Fa};
use std::cmp::Ordering;
use std::collections::BTreeMap;
use vstd::arithmetic::power::pow;
use vstd::prelude::*;
use vstd::string::*;

verus! {

broadcast use vstd::std_specs::btree::group_btree_axioms;

/// The reading direction shared by the arithmetic tracks: `None` when a track has no
/// number system or two tracks disagree, otherwise the common direction
/// (most significant digit first when there are no tracks).
pub open spec fn msd_direction(msd: Seq<Option<bool>>) -> Option<bool> {
    if exists|i: int| 0 <= i < msd.len() && #[trigger] msd[i] is None {
        None
    } else if exists|i: int, j: int| 0 <= i < msd.len() && 0 <= j < msd.len() && #[trigger] msd[i] != #[trigger] msd[j] {
        None
    } else if msd.len() == 0 {
        Some(true)
    } else {
        msd[0]
    }
}

/// The reading direction shared by the arithmetic tracks: `None` when a track has no
/// number system or two tracks disagree, otherwise the common direction (most
/// significant digit first when there are no tracks).
pub fn determine_msd(msd: &[Option<bool>]) -> (r: Option<bool>)
    ensures
        r == msd_direction(msd@),
{
    let mut is_msd = true;
    let mut seen_any = false;
    let n = msd.len();
    let mut i: usize = 0;
    while i < n
        invariant
            n == msd@.len(),
            i <= n,
            seen_any <==> i > 0,
            i == 0 ==> is_msd,
            forall|j: int| 0 <= j < i ==> #[trigger] msd@[j] == Some(is_msd),
        decreases n - i,
    {
        match msd[i] {
            None => {
                proof {
                    assert(msd@[i as int] is None);
                }
                return None;
            },
            Some(v) => {
                if seen_any && v != is_msd {
                    proof {
                        assert(msd@[0] == Some(is_msd));
                        assert(msd@[i as int] != msd@[0]);
                    }
                    return None;
                }
                is_msd = v;
                seen_any = true;
            },
        }
        i = i + 1;
    }
    proof {
        assert forall|a: int, b: int| 0 <= a < n && 0 <= b < n implies !(#[trigger] msd@[a] != #[trigger] msd@[b]) by {
            assert(msd@[a] == Some(is_msd));
            assert(msd@[b] == Some(is_msd));
        }
        assert forall|a: int| 0 <= a < n implies !(#[trigger] msd@[a] is None) by {
            assert(msd@[a] == Some(is_msd));
        }
        if n > 0 {
            assert(msd@[0] == Some(is_msd));
        }
    }
    Some(is_msd)
}

/// The extension of an automaton file.
pub const TXT_EXTENSION: &'static str = ".txt";

/// The suffix of a custom base's addition automaton file.
pub const UNDERSCORE_ADDITION_AUTOMATON: &'static str = "_addition.txt";

/// The suffix of a custom base's less-than automaton file.
pub const UNDERSCORE_LESS_THAN_AUTOMATON: &'static str = "_less_than.txt";

/// Everything a number-system name, operator or construction can be refused for.
#[derive(Debug, Clone, PartialEq, Eq)]
pub enum NumSysError {
    /// The name holds no `_` to split direction from base.
    MalformedName(String),
    /// No number system of this name can be built.
    NotDefined(String),
    /// The base is not a decimal number greater than one.
    InvalidBase(String),
    /// The base is a decimal number too large for an `i32`.
    BaseNotAnI32(String),
    /// A negative constant where only non-negative ones are meaningful.
    NegativeConstant(String),
    /// The operator cannot be applied to two variables.
    OperatorTwoVariables(&'static str),
    /// An arithmetic operator that the construction does not handle.
    UnexpectedArithmeticOperator(&'static str),
    /// An operator that the evaluation does not handle.
    UnexpectedOperator(&'static str),
    /// The result of an arithmetic operation does not fit in an `i32`.
    ArithmeticIntOverflow(String),
    /// A constant divided by a variable.
    ConstantDividedByVariable,
    /// Division by zero.
    DivisionByZero,
    /// Multiplication by zero.
    MultiplicationByZero,
    /// Negative bases are not supported.
    UnsupportedNegativeBase(String),
    /// The addition automaton does not have exactly three inputs.
    AdditionInputCount(String),
    /// The addition automaton's input alphabet lacks `0`.
    AdditionAlphabetMissingZero(String),
    /// The addition automaton's input alphabet lacks `1`.
    AdditionAlphabetMissingOne(String),
    /// The addition automaton's inputs have different alphabets.
    AdditionAlphabetsDiffer(String),
    /// The less-than automaton does not have exactly two inputs.
    LessThanInputCount(String),
    /// The less-than automaton's alphabet differs from the addition automaton's.
    LessThanAlphabetMismatch(String),
}

/// The message that describes `e`.
pub open spec fn num_sys_error_text(e: NumSysError) -> Seq<char> {
    match e {
        NumSysError::MalformedName(name) => "Number system name must contain '_', found: "@ + name@,
        NumSysError::NotDefined(name) => "Number system "@ + name@ + " is not defined."@,
        NumSysError::InvalidBase(base) => "Base of automaton's number system must be > 1 and int, found: "@ + base@,
        NumSysError::BaseNotAnI32(base) => "Base of automaton's number system must fit in an int, found: "@ + base@,
        NumSysError::NegativeConstant(n) => "negative constant "@ + n@,
        NumSysError::OperatorTwoVariables(op) => "the operator "@ + op@ + " cannot be applied to two variables"@,
        NumSysError::UnexpectedArithmeticOperator(op) => "unexpected arithmetic operator:"@ + op@,
        NumSysError::UnexpectedOperator(op) => "Unexpected operator:"@ + op@,
        NumSysError::ArithmeticIntOverflow(msg) => "arithmetic result does not fit in a 32-bit output ("@ + msg@ + ")"@,
        NumSysError::ConstantDividedByVariable => "constants cannot be divided by variables"@,
        NumSysError::DivisionByZero => "division by zero"@,
        NumSysError::MultiplicationByZero => "multiplication(0)"@,
        NumSysError::UnsupportedNegativeBase(name) => "Number system "@ + name@ + " is not supported: negative bases are out of scope."@,
        NumSysError::AdditionInputCount(name) => "The addition automaton must have exactly 3 inputs: base "@ + name@,
        NumSysError::AdditionAlphabetMissingZero(name) => "The input alphabet of addition automaton must contain 0: base "@ + name@,
        NumSysError::AdditionAlphabetMissingOne(name) => "The input alphabet of addition automaton must contain 1: base "@ + name@,
        NumSysError::AdditionAlphabetsDiffer(name) => "All 3 inputs of the addition automaton must have the same alphabet: base "@ + name@,
        NumSysError::LessThanInputCount(name) => "_less_than.txt must have exactly 2 inputs: base "@ + name@,
        NumSysError::LessThanAlphabetMismatch(name) => "Inputs of _less_than.txt must have the same alphabet as the alphabet of inputs of _addition.txt : base "@ + name@,
    }
}

/// `prefix` followed by `rest`.
fn joined(prefix: &str, rest: &str) -> (r: String)
    ensures
        r@ == prefix@ + rest@,
{
    let mut s = String::from_str(prefix);
    s.append(rest);
    s
}

/// `prefix`, `middle` and `suffix`, one after another.
fn joined3(prefix: &str, middle: &str, suffix: &str) -> (r: String)
    ensures
        r@ == prefix@ + middle@ + suffix@,
{
    let mut s = String::from_str(prefix);
    s.append(middle);
    s.append(suffix);
    s
}

impl NumSysError {
    /// The message that describes this error.
    pub fn message(&self) -> (r: String)
        ensures
            r@ == num_sys_error_text(*self),
    {
        match self {
            NumSysError::MalformedName(name) => joined("Number system name must contain '_', found: ", name.as_str()),
            NumSysError::NotDefined(name) => joined3("Number system ", name.as_str(), " is not defined."),
            NumSysError::InvalidBase(base) => joined("Base of automaton's number system must be > 1 and int, found: ", base.as_str()),
            NumSysError::BaseNotAnI32(base) => joined("Base of automaton's number system must fit in an int, found: ", base.as_str()),
            NumSysError::NegativeConstant(n) => joined("negative constant ", n.as_str()),
            NumSysError::OperatorTwoVariables(op) => joined3("the operator ", op, " cannot be applied to two variables"),
            NumSysError::UnexpectedArithmeticOperator(op) => joined("unexpected arithmetic operator:", op),
            NumSysError::UnexpectedOperator(op) => joined("Unexpected operator:", op),
            NumSysError::ArithmeticIntOverflow(msg) => joined3("arithmetic result does not fit in a 32-bit output (", msg.as_str(), ")"),
            NumSysError::ConstantDividedByVariable => String::from_str("constants cannot be divided by variables"),
            NumSysError::DivisionByZero => String::from_str("division by zero"),
            NumSysError::MultiplicationByZero => String::from_str("multiplication(0)"),
            NumSysError::UnsupportedNegativeBase(name) => joined3("Number system ", name.as_str(), " is not supported: negative bases are out of scope."),
            NumSysError::AdditionInputCount(name) => joined("The addition automaton must have exactly 3 inputs: base ", name.as_str()),
            NumSysError::AdditionAlphabetMissingZero(name) => joined("The input alphabet of addition automaton must contain 0: base ", name.as_str()),
            NumSysError::AdditionAlphabetMissingOne(name) => joined("The input alphabet of addition automaton must contain 1: base ", name.as_str()),
            NumSysError::AdditionAlphabetsDiffer(name) => joined("All 3 inputs of the addition automaton must have the same alphabet: base ", name.as_str()),
            NumSysError::LessThanInputCount(name) => joined("_less_than.txt must have exactly 2 inputs: base ", name.as_str()),
            NumSysError::LessThanAlphabetMismatch(name) => joined("Inputs of _less_than.txt must have the same alphabet as the alphabet of inputs of _addition.txt : base ", name.as_str()),
        }
    }
}

/// The six relations between two integers.
#[derive(Debug, Clone, Copy, PartialEq, Eq)]
pub enum RelationalOp {
    Equal,
    NotEqual,
    LessThan,
    GreaterThan,
    LessEqThan,
    GreaterEqThan,
}

/// Whether `a op b` holds.
pub open spec fn relation_holds(op: RelationalOp, a: int, b: int) -> bool {
    match op {
        RelationalOp::Equal => a == b,
        RelationalOp::NotEqual => a != b,
        RelationalOp::LessThan => a < b,
        RelationalOp::GreaterThan => a > b,
        RelationalOp::LessEqThan => a <= b,
        RelationalOp::GreaterEqThan => a >= b,
    }
}

/// Whether `a op b` holds, for two `i32` values.
pub open spec fn relation_holds_between(op: RelationalOp, a: i32, b: i32) -> bool {
    relation_holds(op, a as int, b as int)
}

/// The relation with its operands swapped.
pub open spec fn reversed_op(op: RelationalOp) -> RelationalOp {
    match op {
        RelationalOp::Equal => RelationalOp::Equal,
        RelationalOp::NotEqual => RelationalOp::NotEqual,
        RelationalOp::LessThan => RelationalOp::GreaterThan,
        RelationalOp::GreaterThan => RelationalOp::LessThan,
        RelationalOp::LessEqThan => RelationalOp::GreaterEqThan,
        RelationalOp::GreaterEqThan => RelationalOp::LessEqThan,
    }
}

/// Swapping the operands twice gives the relation back, and the swapped relation holds
/// of `(a, b)` exactly when the relation holds of `(b, a)`.
pub proof fn law_reverse_operator_is_an_involution(op: RelationalOp)
    ensures
        reversed_op(reversed_op(op)) == op,
        forall|a: int, b: int| #[trigger] relation_holds(reversed_op(op), a, b) == relation_holds(op, b, a),
{
}

/// On `i32` operands the fixed-width comparison and the one on integers of any size
/// decide the same relation: `compare(a, b)` is `compare_big_int` of the same values.
pub proof fn law_compare_agrees_with_compare_big_int(op: RelationalOp, a: i32, b: i32, x: BigValue, y: BigValue)
    requires
        x@ == a as int,
        y@ == b as int,
    ensures
        relation_holds_between(op, a, b) == relation_holds(op, x@, y@),
{
}

impl RelationalOp {
    /// The relation with its operands swapped.
    pub fn reverse_operator(self) -> (r: RelationalOp)
        ensures
            r == reversed_op(self),
            forall|a: int, b: int| #[trigger] relation_holds(r, a, b) == relation_holds(self, b, a),
            self == RelationalOp::LessThan ==> r == RelationalOp::GreaterThan,
            self == RelationalOp::GreaterThan ==> r == RelationalOp::LessThan,
            self == RelationalOp::LessEqThan ==> r == RelationalOp::GreaterEqThan,
            self == RelationalOp::GreaterEqThan ==> r == RelationalOp::LessEqThan,
            self == RelationalOp::Equal ==> r == RelationalOp::Equal,
            self == RelationalOp::NotEqual ==> r == RelationalOp::NotEqual,
    {
        match self {
            RelationalOp::Equal => RelationalOp::Equal,
            RelationalOp::NotEqual => RelationalOp::NotEqual,
            RelationalOp::LessThan => RelationalOp::GreaterThan,
            RelationalOp::GreaterThan => RelationalOp::LessThan,
            RelationalOp::LessEqThan => RelationalOp::GreaterEqThan,
            RelationalOp::GreaterEqThan => RelationalOp::LessEqThan,
        }
    }

    /// Whether `a self b` holds.
    pub fn compare(self, a: i32, b: i32) -> (r: bool)
        ensures
            r == relation_holds_between(self, a, b),
    {
        let ordering = if a < b {
            Ordering::Less
        } else if a == b {
            Ordering::Equal
        } else {
            Ordering::Greater
        };
        self.holds_for(ordering)
    }

    /// Whether `a self b` holds, for integers of any size.
    pub fn compare_big_int(self, a: &BigValue, b: &BigValue) -> (r: bool)
        ensures
            r == relation_holds(self, a@, b@),
    {
        self.holds_for(crate::bigint::big_order(a, b))
    }

    /// Whether the relation holds between two values that compare as `ordering`.
    fn holds_for(self, ordering: Ordering) -> (r: bool)
        ensures
            r == match self {
                RelationalOp::Equal => ordering is Equal,
                RelationalOp::NotEqual => !(ordering is Equal),
                RelationalOp::LessThan => ordering is Less,
                RelationalOp::GreaterThan => ordering is Greater,
                RelationalOp::LessEqThan => !(ordering is Greater),
                RelationalOp::GreaterEqThan => !(ordering is Less),
            },
    {
        match self {
            RelationalOp::Equal => match ordering {
                Ordering::Equal => true,
                _ => false,
            },
            RelationalOp::NotEqual => match ordering {
                Ordering::Equal => false,
                _ => true,
            },
            RelationalOp::LessThan => match ordering {
                Ordering::Less => true,
                _ => false,
            },
            RelationalOp::GreaterThan => match ordering {
                Ordering::Greater => true,
                _ => false,
            },
            RelationalOp::LessEqThan => match ordering {
                Ordering::Greater => false,
                _ => true,
            },
            RelationalOp::GreaterEqThan => match ordering {
                Ordering::Less => false,
                _ => true,
            },
        }
    }
}

/// The arithmetic operations the automata are built for.
#[derive(Debug, Clone, Copy, PartialEq, Eq)]
pub enum ArithmeticOp {
    Plus,
    Minus,
    Div,
    Mult,
    UnaryNegative,
}

/// How the operation is written.
pub open spec fn symbol_text(op: ArithmeticOp) -> Seq<char> {
    match op {
        ArithmeticOp::Plus => seq!['+'],
        ArithmeticOp::Minus => seq!['-'],
        ArithmeticOp::Div => seq!['/'],
        ArithmeticOp::Mult => seq!['*'],
        ArithmeticOp::UnaryNegative => seq!['_'],
    }
}

impl ArithmeticOp {
    /// How the operation is written.
    pub fn symbol(self) -> (r: &'static str)
        ensures
            r@ == symbol_text(self),
    {
        proof {
            reveal_strlit("+");
            reveal_strlit("-");
            reveal_strlit("/");
            reveal_strlit("*");
            reveal_strlit("_");
        }
        match self {
            ArithmeticOp::Plus => "+",
            ArithmeticOp::Minus => "-",
            ArithmeticOp::Div => "/",
            ArithmeticOp::Mult => "*",
            ArithmeticOp::UnaryNegative => "_",
        }
    }
}

/// `a` divided by `b`, rounded toward negative infinity.
pub open spec fn floor_div(a: int, b: int) -> int {
    if b > 0 {
        a / b
    } else {
        (-a) / (-b)
    }
}

/// The exact (unbounded) value of `a op b` for the four binary operations.
pub open spec fn arith_value(op: ArithmeticOp, a: int, b: int) -> int {
    match op {
        ArithmeticOp::Plus => a + b,
        ArithmeticOp::Minus => a - b,
        ArithmeticOp::Mult => a * b,
        ArithmeticOp::Div => floor_div(a, b),
        ArithmeticOp::UnaryNegative => 0,
    }
}

/// The text of an arithmetic overflow: `"a op b = value"`.
pub open spec fn arith_overflow_text(op: ArithmeticOp, a: int, b: int, v: int) -> Seq<char> {
    crate::text::signed_decimal(a) + " "@ + symbol_text(op) + " "@ + crate::text::signed_decimal(b) + " = "@
        + crate::text::signed_decimal(v)
}

/// Euclidean division by a positive divisor, stated by its defining inequalities.
proof fn lemma_div_by_parts(x: int, d: int, q: int, r: int)
    requires
        d > 0,
        0 <= r < d,
        x == q * d + r,
    ensures
        x / d == q,
{
    vstd::arithmetic::div_mod::lemma_fundamental_div_mod_converse(x, d, q, r);
}

/// Floor division of `x` by `y` (`y != 0`), from the unsigned quotient and remainder of
/// their magnitudes.
proof fn lemma_floor_div_from_magnitudes(x: int, y: int, q: int, rem: int)
    requires
        y != 0,
        0 <= rem < if y < 0 { -y } else { y },
        (if x < 0 { -x } else { x }) == q * (if y < 0 { -y } else { y }) + rem,
    ensures
        (x < 0) == (y < 0) ==> floor_div(x, y) == q,
        (x < 0) != (y < 0) ==> floor_div(x, y) == if rem != 0 { -q - 1 } else { -q },
{
    let ay = if y < 0 { -y } else { y };
    if x >= 0 && y > 0 {
        lemma_div_by_parts(x, y, q, rem);
    } else if x < 0 && y < 0 {
        lemma_div_by_parts(-x, -y, q, rem);
    } else {
        // signs differ: floor_div(x, y) == sx / ay with sx == -(q * ay + rem)
        let sx = if y > 0 { x } else { -x };
        assert(sx == -(q * ay + rem));
        if rem != 0 {
            assert(sx == (-q - 1) * ay + (ay - rem)) by (nonlinear_arith)
                requires
                    sx == -(q * ay + rem),
            ;
            lemma_div_by_parts(sx, ay, -q - 1, ay - rem);
        } else {
            assert(sx == (-q) * ay) by (nonlinear_arith)
                requires
                    sx == -(q * ay + rem),
                    rem == 0,
            ;
            lemma_div_by_parts(sx, ay, -q, 0);
        }
    }
}

/// Floor division of two `i64` values of `i32` range.
fn floor_div_i64(x: i64, y: i64) -> (r: i64)
    requires
        y != 0,
        i32::MIN <= x <= i32::MAX,
        i32::MIN <= y <= i32::MAX,
    ensures
        r == floor_div(x as int, y as int),
        -0x8000_0001 <= r <= 0x8000_0000,
{
    let ux: u64 = if x < 0 {
        (-x) as u64
    } else {
        x as u64
    };
    let uy: u64 = if y < 0 {
        (-y) as u64
    } else {
        y as u64
    };
    let q: u64 = ux / uy;
    let rem: u64 = ux % uy;
    proof {
        vstd::arithmetic::div_mod::lemma_fundamental_div_mod(ux as int, uy as int);
        assert(ux as int == q * uy + rem) by (nonlinear_arith)
            requires
                ux as int == uy * (ux as int / uy as int) + (ux as int % uy as int),
                q == ux as int / uy as int,
                rem == ux as int % uy as int,
        ;
        lemma_floor_div_from_magnitudes(x as int, y as int, q as int, rem as int);
        assert(q <= ux) by (nonlinear_arith)
            requires
                ux as int == q * uy + rem,
                uy >= 1,
                rem >= 0,
                q >= 0,
        ;
    }
    let qi: i64 = q as i64;
    if (x < 0) == (y < 0) {
        qi
    } else if rem != 0 {
        -qi - 1
    } else {
        -qi
    }
}

impl ArithmeticOp {
    /// `a op b` as an `i32`: division rounds toward negative infinity; division by zero,
    /// the unary operator, and a result outside the `i32` range are errors.
    pub fn arith(self, a: i32, b: i32) -> (r: Result<i32, NumSysError>)
        ensures
            self is UnaryNegative ==> r is Err && r->Err_0 is UnexpectedOperator
                && r->Err_0->UnexpectedOperator_0@ == "_"@,
            self is Div && b == 0 ==> r == Err::<i32, NumSysError>(NumSysError::DivisionByZero),
            !(self is UnaryNegative) && !(self is Div && b == 0) ==> ({
                let v = arith_value(self, a as int, b as int);
                &&& i32::MIN <= v <= i32::MAX ==> r == Ok::<i32, NumSysError>(v as i32)
                &&& !(i32::MIN <= v <= i32::MAX) ==> r is Err && r->Err_0 is ArithmeticIntOverflow
                    && r->Err_0->ArithmeticIntOverflow_0@ == arith_overflow_text(self, a as int, b as int, v)
            }),
    {
        proof {
            reveal_strlit("_");
        }
        let x: i64 = a as i64;
        let y: i64 = b as i64;
        let v: i64 = match self {
            ArithmeticOp::Plus => x + y,
            ArithmeticOp::Minus => x - y,
            ArithmeticOp::Mult => {
                assert(-0x4000_0000_0000_0000 <= x * y <= 0x4000_0000_0000_0000) by (nonlinear_arith)
                    requires
                        i32::MIN <= x <= i32::MAX,
                        i32::MIN <= y <= i32::MAX,
                ;
                x * y
            },
            ArithmeticOp::Div => {
                if y == 0 {
                    return Err(NumSysError::DivisionByZero);
                }
                floor_div_i64(x, y)
            },
            ArithmeticOp::UnaryNegative => {
                return Err(NumSysError::UnexpectedOperator(self.symbol()));
            },
        };
        if i32::MIN as i64 <= v && v <= i32::MAX as i64 {
            Ok(v as i32)
        } else {
            let mut msg = String::new();
            crate::text::push_signed(&mut msg, x);
            msg.append(" ");
            msg.append(self.symbol());
            msg.append(" ");
            crate::text::push_signed(&mut msg, y);
            msg.append(" = ");
            crate::text::push_signed(&mut msg, v);
            Err(NumSysError::ArithmeticIntOverflow(msg))
        }
    }
}

impl ArithmeticOp {
    /// `a self b` for integers of any size: the exact sum, difference or product, and
    /// for `Div` the quotient rounded toward negative infinity. Division by zero and
    /// the unary operator are errors; nothing overflows.
    pub fn arith_big_int(self, a: &BigValue, b: &BigValue) -> (r: Result<BigValue, NumSysError>)
        ensures
            self is UnaryNegative ==> r is Err && r->Err_0 is UnexpectedOperator
                && r->Err_0->UnexpectedOperator_0@ == "_"@,
            self is Div && b@ == 0 ==> r == Err::<BigValue, NumSysError>(NumSysError::DivisionByZero),
            !(self is UnaryNegative) && !(self is Div && b@ == 0) ==> r is Ok
                && r->Ok_0@ == arith_value(self, a@, b@) && r->Ok_0.canonical(),
    {
        proof {
            reveal_strlit("_");
        }
        match self {
            ArithmeticOp::Plus => Ok(crate::bigint::big_add(a, b)),
            ArithmeticOp::Minus => Ok(crate::bigint::big_sub(a, b)),
            ArithmeticOp::Mult => Ok(crate::bigint::big_mul(a, b)),
            ArithmeticOp::Div => {
                if b.signum() == 0 {
                    return Err(NumSysError::DivisionByZero);
                }
                let q = crate::bigint::big_div(a, b);
                let rem = crate::bigint::big_rem(a, b);
                let ghost am = abs(a@);
                let ghost bm = abs(b@);
                proof {
                    vstd::arithmetic::div_mod::lemma_fundamental_div_mod(am, bm);
                    assert(am == (am / bm) * bm + am % bm) by (nonlinear_arith)
                        requires
                            am == bm * (am / bm) + am % bm,
                    ;
                    lemma_floor_div_from_magnitudes(a@, b@, am / bm, am % bm);
                }
                if rem.signum() != 0 && a.signum() != b.signum() {
                    let one = BigValue { sign: BigSign::Plus, digits: vec![1u32] };
                    proof {
                        reveal_with_fuel(crate::bigint::magnitude, 2);
                        assert(one.digits@.drop_first() == Seq::<u32>::empty());
                        assert(one@ == 1);
                    }
                    Ok(crate::bigint::big_sub(&q, &one))
                } else {
                    Ok(q)
                }
            },
            ArithmeticOp::UnaryNegative => Err(NumSysError::UnexpectedOperator(self.symbol())),
        }
    }
}

/// Whether `c` has the Unicode property `White_Space`, the test of `char::is_whitespace`:
/// the controls U+0009 to U+000D, the space, U+0085, U+00A0, U+1680, U+2000 to U+200A,
/// U+2028, U+2029, U+202F, U+205F and U+3000.
pub open spec fn white_space(c: char) -> bool {
    let v = c as u32;
    (0x9 <= v <= 0xd) || v == 0x20 || v == 0x85 || v == 0xa0 || v == 0x1680 || (0x2000 <= v <= 0x200a) || v == 0x2028
        || v == 0x2029 || v == 0x202f || v == 0x205f || v == 0x3000
}

/// Whether `c` is white space in the sense of [`white_space`].
pub fn is_white_space(c: char) -> (r: bool)
    ensures
        r == white_space(c),
{
    let v = c as u32;
    (0x9 <= v && v <= 0xd) || v == 0x20 || v == 0x85 || v == 0xa0 || v == 0x1680 || (0x2000 <= v && v <= 0x200a) || v
        == 0x2028 || v == 0x2029 || v == 0x202f || v == 0x205f || v == 0x3000
}

/// `s` without its leading white space.
pub open spec fn trim_start(s: Seq<char>) -> Seq<char>
    decreases s.len(),
{
    if s.len() > 0 && white_space(s[0]) {
        trim_start(s.drop_first())
    } else {
        s
    }
}

/// `s` without its trailing white space.
pub open spec fn trim_end(s: Seq<char>) -> Seq<char>
    decreases s.len(),
{
    if s.len() > 0 && white_space(s.last()) {
        trim_end(s.drop_last())
    } else {
        s
    }
}

/// `s` without its leading and trailing white space.
pub open spec fn trimmed(s: Seq<char>) -> Seq<char> {
    trim_end(trim_start(s))
}

proof fn lemma_trim_start(s: Seq<char>, lo: int)
    requires
        0 <= lo <= s.len(),
        forall|j: int| 0 <= j < lo ==> white_space(#[trigger] s[j]),
        lo == s.len() || !white_space(s[lo]),
    ensures
        trim_start(s) == s.subrange(lo, s.len() as int),
    decreases lo,
{
    if lo == 0 {
        assert(s.subrange(0, s.len() as int) =~= s);
    } else {
        assert(white_space(s[0]));
        let t = s.drop_first();
        assert forall|j: int| 0 <= j < lo - 1 implies white_space(#[trigger] t[j]) by {
            assert(t[j] == s[j + 1]);
        }
        if lo < s.len() {
            assert(t[lo - 1] == s[lo]);
        }
        lemma_trim_start(t, lo - 1);
        assert(t.subrange(lo - 1, t.len() as int) =~= s.subrange(lo, s.len() as int));
    }
}

proof fn lemma_trim_end(s: Seq<char>, hi: int)
    requires
        0 <= hi <= s.len(),
        forall|j: int| hi <= j < s.len() ==> white_space(#[trigger] s[j]),
        hi == 0 || !white_space(s[hi - 1]),
    ensures
        trim_end(s) == s.subrange(0, hi),
    decreases s.len() - hi,
{
    if hi == s.len() {
        assert(s.subrange(0, hi) =~= s);
    } else {
        assert(white_space(s[s.len() - 1]));
        let t = s.drop_last();
        assert forall|j: int| hi <= j < t.len() implies white_space(#[trigger] t[j]) by {
            assert(t[j] == s[j]);
        }
        if hi > 0 {
            assert(t[hi - 1] == s[hi - 1]);
        }
        lemma_trim_end(t, hi);
        assert(t.subrange(0, hi) =~= s.subrange(0, hi));
    }
}

/// `s` without its leading and trailing white space.
fn trim(s: &str) -> (r: &str)
    ensures
        r@ == trimmed(s@),
{
    let n = s.unicode_len();
    let mut lo: usize = 0;
    while lo < n && is_white_space(s.get_char(lo))
        invariant
            n == s@.len(),
            lo <= n,
            forall|j: int| 0 <= j < lo ==> white_space(#[trigger] s@[j]),
        decreases n - lo,
    {
        lo = lo + 1;
    }
    proof {
        lemma_trim_start(s@, lo as int);
    }
    let ghost t = s@.subrange(lo as int, n as int);
    let mut hi: usize = n;
    while hi > lo && is_white_space(s.get_char(hi - 1))
        invariant
            n == s@.len(),
            lo <= hi <= n,
            forall|j: int| hi <= j < n ==> white_space(#[trigger] s@[j]),
        decreases hi,
    {
        hi = hi - 1;
    }
    proof {
        assert forall|j: int| (hi - lo) <= j < t.len() implies white_space(#[trigger] t[j]) by {
            assert(t[j] == s@[j + lo]);
        }
        if hi > lo {
            assert(t[hi - lo - 1] == s@[hi - 1]);
        }
        lemma_trim_end(t, (hi - lo) as int);
        assert(t.subrange(0, (hi - lo) as int) =~= s@.subrange(lo as int, hi as int));
    }
    s.substring_char(lo, hi)
}

/// The position of the first `_` in `s`, or `-1` when there is none.
pub open spec fn first_underscore(s: Seq<char>) -> int
    decreases s.len(),
{
    if s.len() == 0 {
        -1
    } else if s[0] == '_' {
        0
    } else {
        let r = first_underscore(s.drop_first());
        if r < 0 {
            -1
        } else {
            r + 1
        }
    }
}

/// Where `first_underscore` points there is a `_`, and there is none before it.
pub proof fn lemma_first_underscore_facts(s: Seq<char>)
    requires
        first_underscore(s) >= 0,
    ensures
        first_underscore(s) < s.len(),
        s[first_underscore(s)] == '_',
        forall|j: int| 0 <= j < first_underscore(s) ==> #[trigger] s[j] != '_',
    decreases s.len(),
{
    if s[0] != '_' {
        let t = s.drop_first();
        lemma_first_underscore_facts(t);
        assert forall|j: int| 0 <= j < first_underscore(s) implies #[trigger] s[j] != '_' by {
            if j > 0 {
                assert(s[j] == t[j - 1]);
            }
        }
        assert(s[first_underscore(s)] == t[first_underscore(t)]);
    }
}

pub(crate) proof fn lemma_first_underscore(s: Seq<char>, i: int)
    requires
        0 <= i <= s.len(),
        forall|j: int| 0 <= j < i ==> #[trigger] s[j] != '_',
        i == s.len() || s[i] == '_',
    ensures
        first_underscore(s) == if i == s.len() {
            -1
        } else {
            i
        },
    decreases i,
{
    if i > 0 {
        assert(s[0] != '_');
        let t = s.drop_first();
        assert forall|j: int| 0 <= j < i - 1 implies #[trigger] t[j] != '_' by {
            assert(t[j] == s[j + 1]);
        }
        if i < s.len() {
            assert(t[i - 1] == s[i]);
        }
        lemma_first_underscore(t, i - 1);
    }
}

/// The position of the first `_` in `s`.
fn find_underscore(s: &str) -> (r: Option<usize>)
    ensures
        first_underscore(s@) < 0 ==> r is None,
        first_underscore(s@) >= 0 ==> r == Some(first_underscore(s@) as usize),
        first_underscore(s@) < s@.len(),
{
    let n = s.unicode_len();
    let mut i: usize = 0;
    while i < n
        invariant
            n == s@.len(),
            i <= n,
            forall|j: int| 0 <= j < i ==> #[trigger] s@[j] != '_',
        decreases n - i,
    {
        if s.get_char(i) == '_' {
            proof {
                lemma_first_underscore(s@, i as int);
            }
            return Some(i);
        }
        i = i + 1;
    }
    proof {
        lemma_first_underscore(s@, n as int);
    }
    None
}

/// The base part of a number-system name: everything after its first `_`, or the
/// whole name when it holds none.
pub open spec fn base_text(name: Seq<char>) -> Seq<char> {
    let f = first_underscore(name);
    if f < 0 {
        name
    } else {
        name.subrange(f + 1, name.len() as int)
    }
}

/// The direction part of a number-system name: everything before its first `_`.
pub open spec fn direction_text(name: Seq<char>) -> Seq<char> {
    name.subrange(0, first_underscore(name))
}

/// The base part of a number-system name: everything after its first `_`, or the
/// whole name when it holds none.
pub fn determine_base(name: &str) -> (r: &str)
    ensures
        r@ == base_text(name@),
{
    let n = name.unicode_len();
    match find_underscore(name) {
        Some(i) => name.substring_char(i + 1, n),
        None => name,
    }
}

/// The direction part of a number-system name (`msd` or `lsd` for a well-formed
/// one): everything before its first `_`, or [`NumSysError::MalformedName`] when it
/// holds none.
pub fn determine_msd_or_lsd(name: &str) -> (r: Result<&str, NumSysError>)
    ensures
        first_underscore(name@) >= 0 ==> r is Ok && r->Ok_0@ == direction_text(name@),
        first_underscore(name@) < 0 ==> r is Err && r->Err_0 is MalformedName && r->Err_0->MalformedName_0@
            == name@,
{
    let n = name.unicode_len();
    match find_underscore(name) {
        Some(i) => Ok(name.substring_char(0, i)),
        None => Err(NumSysError::MalformedName(String::from_str(name))),
    }
}

/// `s` is a nonempty string of decimal digits.
pub open spec fn is_number_text(s: Seq<char>) -> bool {
    &&& s.len() > 0
    &&& forall|i: int| 0 <= i < s.len() ==> '0' <= #[trigger] s[i] <= '9'
}

/// `s` is a nonempty string of decimal digits.
pub(crate) fn is_number(s: &str) -> (r: bool)
    ensures
        r == is_number_text(s@),
{
    let n = s.unicode_len();
    if n == 0 {
        return false;
    }
    let mut i: usize = 0;
    while i < n
        invariant
            n == s@.len(),
            i <= n,
            forall|j: int| 0 <= j < i ==> '0' <= #[trigger] s@[j] <= '9',
        decreases n - i,
    {
        let c = s.get_char(i);
        if c < '0' || c > '9' {
            return false;
        }
        i = i + 1;
    }
    true
}

/// The value of the decimal digits `s`.
pub open spec fn digits_value(s: Seq<char>) -> int
    decreases s.len(),
{
    if s.len() == 0 {
        0
    } else {
        digits_value(s.drop_last()) * 10 + (s.last() as int - '0' as int)
    }
}

pub(crate) proof fn lemma_digits_value_grows(s: Seq<char>, k: int)
    requires
        is_number_text(s),
        0 <= k <= s.len(),
    ensures
        0 <= digits_value(s.take(k)) <= digits_value(s),
    decreases s.len() - k,
{
    if k < s.len() {
        lemma_digits_value_grows(s, k + 1);
        assert(s.take(k + 1).drop_last() =~= s.take(k));
        assert('0' <= s[k] <= '9');
    } else {
        assert(s.take(k) =~= s);
        lemma_digits_value_nonneg(s);
    }
}

proof fn lemma_digits_value_nonneg(s: Seq<char>)
    requires
        forall|i: int| 0 <= i < s.len() ==> '0' <= #[trigger] s[i] <= '9',
    ensures
        0 <= digits_value(s),
    decreases s.len(),
{
    if s.len() > 0 {
        assert forall|i: int| 0 <= i < s.len() - 1 implies '0' <= #[trigger] s.drop_last()[i] <= '9' by {
            assert(s.drop_last()[i] == s[i]);
        }
        lemma_digits_value_nonneg(s.drop_last());
        assert('0' <= s[s.len() - 1] <= '9');
    }
}

/// The base of a number-system name as an integer greater than one.
pub fn parse_base_of(name: &str) -> (r: Result<i32, NumSysError>)
    ensures
        ({
            let b = base_text(name@);
            &&& !is_number_text(b) ==> r is Err && r->Err_0 is InvalidBase && r->Err_0->InvalidBase_0@ == b
            &&& is_number_text(b) && digits_value(b) > i32::MAX ==> r is Err && r->Err_0 is BaseNotAnI32
                && r->Err_0->BaseNotAnI32_0@ == b
            &&& is_number_text(b) && digits_value(b) <= 1 ==> r is Err && r->Err_0 is InvalidBase
                && r->Err_0->InvalidBase_0@ == b
            &&& r is Ok <==> is_number_text(b) && 1 < digits_value(b) <= i32::MAX
            &&& r is Ok ==> r->Ok_0 == digits_value(b)
        }),
{
    let base_str = determine_base(name);
    if !is_number(base_str) {
        return Err(NumSysError::InvalidBase(String::from_str(base_str)));
    }
    let ghost b = base_str@;
    let n = base_str.unicode_len();
    let mut v: i64 = 0;
    let mut i: usize = 0;
    while i < n
        invariant
            n == b.len(),
            b == base_str@,
            b == base_text(name@),
            is_number_text(b),
            i <= n,
            v == digits_value(b.take(i as int)),
            0 <= v <= i32::MAX,
        decreases n - i,
    {
        let c = base_str.get_char(i);
        let d = (c as u32 - '0' as u32) as i64;
        proof {
            assert(b.take(i + 1).drop_last() =~= b.take(i as int));
            assert('0' <= b[i as int] <= '9');
        }
        v = v * 10 + d;
        proof {
            assert(b.take(i + 1).last() == b[i as int]);
            assert(v == digits_value(b.take(i + 1)));
        }
        if v > i32::MAX as i64 {
            proof {
                lemma_digits_value_grows(b, i + 1);
                assert(digits_value(b) > i32::MAX);
                assert(b == base_text(name@));
            }
            let e = NumSysError::BaseNotAnI32(String::from_str(base_str));
            assert(e->BaseNotAnI32_0@ == b);
            return Err(e);
        }
        i = i + 1;
    }
    proof {
        assert(b.take(n as int) =~= b);
    }
    if v <= 1 {
        return Err(NumSysError::InvalidBase(String::from_str(base_str)));
    }
    Ok(v as i32)
}

/// `s` begins with `p`.
pub open spec fn starts_with(s: Seq<char>, p: Seq<char>) -> bool {
    p.len() <= s.len() && s.subrange(0, p.len() as int) == p
}

/// `s` begins with `p`.
pub(crate) fn has_prefix(s: &str, p: &str) -> (r: bool)
    ensures
        r == starts_with(s@, p@),
{
    let n = s.unicode_len();
    let m = p.unicode_len();
    if m > n {
        return false;
    }
    let mut i: usize = 0;
    while i < m
        invariant
            n == s@.len(),
            m == p@.len(),
            m <= n,
            i <= m,
            forall|j: int| 0 <= j < i ==> s@[j] == p@[j],
        decreases m - i,
    {
        if s.get_char(i) != p.get_char(i) {
            proof {
                assert(s@.subrange(0, m as int)[i as int] != p@[i as int]);
            }
            return false;
        }
        i = i + 1;
    }
    proof {
        assert(s@.subrange(0, m as int) =~= p@);
    }
    true
}

/// `a` and `b` are the same text.
pub fn same_text(a: &str, b: &str) -> (r: bool)
    ensures
        r == (a@ == b@),
{
    let n = a.unicode_len();
    if n != b.unicode_len() {
        return false;
    }
    let r = has_prefix(a, b);
    proof {
        if r {
            assert(a@.subrange(0, n as int) =~= a@);
        } else {
            assert(a@.subrange(0, n as int) =~= a@);
        }
    }
    r
}

/// The number-system name that a user's token stands for: no token or a blank one is
/// `msd_2`; surrounding white space and one leading `?` are dropped; a bare `msd` or
/// `lsd` gets base `2`; a name without the `_` after `msd`/`lsd` gets one; and any other
/// token is taken as a base read most significant digit first.
pub open spec fn normalized_text(token: Seq<char>) -> Seq<char> {
    let t1 = trimmed(token);
    if t1.len() == 0 {
        "msd_2"@
    } else {
        let t = if t1[0] == '?' {
            t1.drop_first()
        } else {
            t1
        };
        if t == "msd"@ || t == "lsd"@ {
            t + "_2"@
        } else if starts_with(t, "msd_"@) || starts_with(t, "lsd_"@) {
            t
        } else if starts_with(t, "msd"@) {
            "msd_"@ + t.subrange(3, t.len() as int)
        } else if starts_with(t, "lsd"@) {
            "lsd_"@ + t.subrange(3, t.len() as int)
        } else {
            "msd_"@ + t
        }
    }
}

/// Trimming leaves a word with no white space at either end.
proof fn lemma_trim_start_first(s: Seq<char>)
    ensures
        trim_start(s).len() > 0 ==> !white_space(trim_start(s)[0]),
        trim_start(s).len() <= s.len(),
        trim_start(s) == s.subrange(s.len() - trim_start(s).len(), s.len() as int),
    decreases s.len(),
{
    if s.len() > 0 && white_space(s[0]) {
        lemma_trim_start_first(s.drop_first());
        let t = s.drop_first();
        assert(t.subrange(t.len() - trim_start(t).len(), t.len() as int) =~= s.subrange(
            s.len() - trim_start(t).len(),
            s.len() as int,
        ));
    } else {
        assert(s.subrange(0, s.len() as int) =~= s);
    }
}

proof fn lemma_trim_end_last(s: Seq<char>)
    ensures
        trim_end(s).len() > 0 ==> !white_space(trim_end(s).last()),
        trim_end(s).len() <= s.len(),
        trim_end(s) == s.subrange(0, trim_end(s).len() as int),
    decreases s.len(),
{
    if s.len() > 0 && white_space(s.last()) {
        lemma_trim_end_last(s.drop_last());
        let t = s.drop_last();
        assert(t.subrange(0, trim_end(t).len() as int) =~= s.subrange(0, trim_end(t).len() as int));
    } else {
        assert(s.subrange(0, s.len() as int) =~= s);
    }
}

/// A word with no white space at either end is its own trimming.
proof fn lemma_trimmed_id(s: Seq<char>)
    requires
        s.len() > 0,
        !white_space(s[0]),
        !white_space(s.last()),
    ensures
        trimmed(s) == s,
{
    lemma_trim_start(s, 0);
    assert(s.subrange(0, s.len() as int) =~= s);
    lemma_trim_end(s, s.len() as int);
}

/// Normalizing gives a name that begins with `msd_` or `lsd_`, and normalizing that
/// name again changes nothing.
pub proof fn law_normalizing_twice_changes_nothing(token: Seq<char>)
    ensures
        starts_with(normalized_text(token), "msd_"@) || starts_with(normalized_text(token), "lsd_"@),
        normalized_text(normalized_text(token)) == normalized_text(token),
{
    reveal_strlit("msd_2");
    reveal_strlit("msd");
    reveal_strlit("lsd");
    reveal_strlit("_2");
    reveal_strlit("msd_");
    reveal_strlit("lsd_");
    let t1 = trimmed(token);
    lemma_trim_start_first(token);
    lemma_trim_end_last(trim_start(token));
    let r = normalized_text(token);
    if t1.len() > 0 {
        assert(t1[0] == trim_start(token)[0]);
        assert(!white_space(t1[0]));
        assert(!white_space(t1.last()));
        let t = if t1[0] == '?' { t1.drop_first() } else { t1 };
        if t.len() > 0 {
            assert(t.last() == t1.last());
        }
        if t == "msd"@ || t == "lsd"@ {
            assert(r =~= t + "_2"@);
            assert(r.last() == '2');
        } else if starts_with(t, "msd_"@) || starts_with(t, "lsd_"@) {
            assert(r == t);
            assert(r[0] == t.subrange(0, 4)[0]);
        } else if starts_with(t, "msd"@) {
            let tail = t.subrange(3, t.len() as int);
            assert(r == "msd_"@ + tail);
            if tail.len() > 0 {
                assert(r.last() == t.last());
            } else {
                assert(r.last() == '_');
            }
        } else if starts_with(t, "lsd"@) {
            let tail = t.subrange(3, t.len() as int);
            assert(r == "lsd_"@ + tail);
            if tail.len() > 0 {
                assert(r.last() == t.last());
            } else {
                assert(r.last() == '_');
            }
        } else {
            assert(r == "msd_"@ + t);
            if t.len() > 0 {
                assert(r.last() == t.last());
            } else {
                assert(r.last() == '_');
            }
        }
    }
    assert(r.len() >= 4);
    assert(r.subrange(0, 4) == "msd_"@ || r.subrange(0, 4) == "lsd_"@);
    assert(r[0] == r.subrange(0, 4)[0]);
    assert(!white_space(r[0]));
    assert(!white_space(r.last()));
    lemma_trimmed_id(r);
    assert(r[0] != '?');
    assert(r != "msd"@ && r != "lsd"@);
}

/// The number-system name that a user's token stands for; see [`normalized_text`].
pub fn normalize_number_system_token(token: Option<&str>) -> (r: String)
    ensures
        match token {
            None => r@ == "msd_2"@,
            Some(t) => r@ == normalized_text(t@),
        },
{
    match token {
        None => String::from_str("msd_2"),
        Some(tok) => {
            let t1 = trim(tok);
            let n1 = t1.unicode_len();
            if n1 == 0 {
                return String::from_str("msd_2");
            }
            let t = if t1.get_char(0) == '?' {
                t1.substring_char(1, n1)
            } else {
                t1
            };
            proof {
                if t1@[0] == '?' {
                    assert(t@ =~= t1@.drop_first());
                }
                reveal_strlit("msd");
                reveal_strlit("lsd");
            }
            if same_text(t, "msd") || same_text(t, "lsd") {
                return joined(t, "_2");
            }
            if has_prefix(t, "msd_") || has_prefix(t, "lsd_") {
                return String::from_str(t);
            }
            let n = t.unicode_len();
            if has_prefix(t, "msd") {
                return joined("msd_", t.substring_char(3, n));
            }
            if has_prefix(t, "lsd") {
                return joined("lsd_", t.substring_char(3, n));
            }
            joined("msd_", t)
        },
    }
}

/// Two tracks' number-system names differ: one is absent and the other not, or both
/// are present with different names.
pub open spec fn track_differs(a: Option<&str>, b: Option<&str>) -> bool {
    match (a, b) {
        (None, None) => false,
        (Some(x), Some(y)) => x@ != y@,
        _ => true,
    }
}

/// Two lists of per-track number systems, with their alphabets, disagree: their
/// lengths or their alphabets differ, or some track's number system differs.
pub open spec fn ns_differing(
    nns: Seq<Option<&str>>,
    first_ns: Seq<Option<&str>>,
    a1: Seq<Vec<i32>>,
    a2: Seq<Vec<i32>>,
) -> bool {
    ||| nns.len() != first_ns.len()
    ||| a1.len() != a2.len()
    ||| exists|i: int| 0 <= i < a1.len() && #[trigger] a1[i]@ != a2[i]@
    ||| exists|j: int| 0 <= j < nns.len() && #[trigger] track_differs(nns[j], first_ns[j])
}

/// Two digit lists are equal.
fn same_digits(a: &Vec<i32>, b: &Vec<i32>) -> (r: bool)
    ensures
        r == (a@ == b@),
{
    let n = a.len();
    if n != b.len() {
        return false;
    }
    let mut i: usize = 0;
    while i < n
        invariant
            n == a@.len(),
            n == b@.len(),
            i <= n,
            forall|j: int| 0 <= j < i ==> a@[j] == b@[j],
        decreases n - i,
    {
        if a[i] != b[i] {
            return false;
        }
        i = i + 1;
    }
    proof {
        assert(a@ =~= b@);
    }
    true
}

/// Whether two lists of per-track number-system names (`None` for a track without
/// one), together with their alphabets, disagree.
pub fn is_ns_differing(
    nns: &[Option<&str>],
    first_ns: &[Option<&str>],
    a1: &[Vec<i32>],
    a2: &[Vec<i32>],
) -> (r: bool)
    ensures
        r == ns_differing(nns@, first_ns@, a1@, a2@),
{
    if nns.len() != first_ns.len() {
        return true;
    }
    if a1.len() != a2.len() {
        return true;
    }
    let na = a1.len();
    let mut i: usize = 0;
    while i < na
        invariant
            na == a1@.len(),
            na == a2@.len(),
            i <= na,
            forall|j: int| 0 <= j < i ==> a1@[j]@ == a2@[j]@,
        decreases na - i,
    {
        if !same_digits(&a1[i], &a2[i]) {
            proof {
                assert(a1@[i as int]@ != a2@[i as int]@);
            }
            return true;
        }
        i = i + 1;
    }
    let n = nns.len();
    let mut j: usize = 0;
    while j < n
        invariant
            n == nns@.len(),
            n == first_ns@.len(),
            j <= n,
            forall|k: int| 0 <= k < j ==> !track_differs(nns@[k], first_ns@[k]),
        decreases n - j,
    {
        let differs = match (nns[j], first_ns[j]) {
            (None, None) => false,
            (Some(x), Some(y)) => !same_text(x, y),
            _ => true,
        };
        if differs {
            proof {
                assert(track_differs(nns@[j as int], first_ns@[j as int]));
            }
            return true;
        }
        j = j + 1;
    }
    false
}

/// The two file names that can define the custom base `name` for `extension`: the
/// name itself, and the same base in the opposite direction.
pub open spec fn candidate_names(name: Seq<char>, extension: Seq<char>) -> (Seq<char>, Seq<char>) {
    let opposite = if direction_text(name) == "msd"@ {
        "lsd"@
    } else {
        "msd"@
    };
    (name + extension, opposite + "_"@ + base_text(name) + extension)
}

/// The two file names that can define the custom base `name` for `extension`, in order
/// of precedence: `<name><extension>`, then the same base in the opposite direction.
pub fn custom_base_candidate_names(name: &str, extension: &str) -> (r: Result<(String, String), NumSysError>)
    ensures
        first_underscore(name@) < 0 ==> r is Err && r->Err_0 is MalformedName && r->Err_0->MalformedName_0@
            == name@,
        first_underscore(name@) >= 0 ==> r is Ok && r->Ok_0.0@ == candidate_names(name@, extension@).0
            && r->Ok_0.1@ == candidate_names(name@, extension@).1,
{
    let msd_or_lsd = match determine_msd_or_lsd(name) {
        Ok(d) => d,
        Err(e) => {
            return Err(e);
        },
    };
    let is_msd = same_text(msd_or_lsd, "msd");
    let base = determine_base(name);
    let opposite = if is_msd {
        "lsd"
    } else {
        "msd"
    };
    let main = joined(name, extension);
    let mut complement = String::from_str(opposite);
    complement.append("_");
    complement.append(base);
    complement.append(extension);
    Ok((main, complement))
}

/// Makes `inp` lead from `src` to `dest` alone, replacing what it led to before.
fn add_new_transition(fa: &mut Fa, src: usize, dest: usize, inp: i32)
    requires
        src < old(fa).d@.len(),
    ensures
        final(fa).q == old(fa).q,
        final(fa).q0 == old(fa).q0,
        final(fa).alphabet_size == old(fa).alphabet_size,
        final(fa).true_false == old(fa).true_false,
        final(fa).o == old(fa).o,
        final(fa).d@.len() == old(fa).d@.len(),
        forall|p: int| 0 <= p < old(fa).d@.len() && p != src ==> #[trigger] final(fa).d@[p] == old(fa).d@[p],
        forall|sym: i32| #[trigger] final(fa).row(src as int).contains_key(sym) <==> old(fa).row(src as int).contains_key(sym) || sym == inp,
        forall|sym: i32| sym != inp && #[trigger] old(fa).row(src as int).contains_key(sym) ==> final(fa).row(src as int)[sym] == old(fa).row(src as int)[sym],
        final(fa).dests(src as int, inp) == seq![dest],
{
    let mut v: Vec<usize> = Vec::new();
    v.push(dest);
    let mut row = fa.d[src].clone();
    proof {
        assert(row@ == old(fa).row(src as int));
    }
    row.insert(inp, v);
    fa.d.set(src, row);
}

/// `input_size` tracks that all have the digits `alphabet`.
pub open spec fn same_tracks(alphabet: Seq<i32>, input_size: nat) -> Seq<Seq<i32>> {
    Seq::new(input_size, |i: int| alphabet)
}

/// With every track the same, the number of symbols is a power of the track size.
proof fn lemma_symbol_count_same_tracks(alph: Seq<Seq<i32>>, s: Seq<i32>, i: int)
    requires
        forall|j: int| 0 <= j < alph.len() ==> #[trigger] alph[j] == s,
        0 <= i <= alph.len(),
    ensures
        crate::automaton::symbol_count_from(alph, i) == pow(s.len() as int, (alph.len() - i) as nat),
    decreases alph.len() - i,
{
    reveal(pow);
    if i < alph.len() {
        lemma_symbol_count_same_tracks(alph, s, i + 1);
        assert(pow(s.len() as int, (alph.len() - i) as nat) == s.len() * pow(
            s.len() as int,
            (alph.len() - i - 1) as nat,
        ));
    }
}

/// An automaton with `o.len()` states and the outputs `o`, start state `0`, no
/// transitions, and `input_size` tracks that all have the digits `alphabet`; its
/// alphabet size is the number of digit tuples and it has no labels.
pub fn init_basic_automaton(o: Vec<i32>, input_size: usize, alphabet: &[i32], is_msd: bool) -> (a: Automaton)
    requires
        pow(alphabet@.len() as int, input_size as nat) <= usize::MAX,
    ensures
        a.fa.true_false is None,
        a.fa.q0 == 0,
        a.fa.q == o@.len(),
        a.fa.o == o,
        a.fa.alphabet_size == pow(alphabet@.len() as int, input_size as nat),
        a.fa.d@.len() == o@.len(),
        forall|p: int| 0 <= p < o@.len() ==> #[trigger] a.fa.row(p) == Map::<i32, Vec<usize>>::empty(),
        crate::automaton::alphabet_view(a.alphabet@) == same_tracks(alphabet@, input_size as nat),
        a.label@.len() == 0,
        a.msd@ == Seq::new(input_size as nat, |i: int| Some(is_msd)),
        !a.canonized,
{
    let q = o.len();
    let mut d: Vec<BTreeMap<i32, Vec<usize>>> = Vec::new();
    let mut p: usize = 0;
    while p < q
        invariant
            p <= q,
            d@.len() == p,
            forall|x: int| 0 <= x < p ==> #[trigger] d@[x]@ == Map::<i32, Vec<usize>>::empty(),
        decreases q - p,
    {
        d.push(BTreeMap::new());
        p = p + 1;
    }
    let mut digits: Vec<i32> = Vec::new();
    let n = alphabet.len();
    let mut i: usize = 0;
    while i < n
        invariant
            n == alphabet@.len(),
            i <= n,
            digits@ == alphabet@.take(i as int),
        decreases n - i,
    {
        digits.push(alphabet[i]);
        proof {
            assert(alphabet@.take(i + 1) =~= alphabet@.take(i as int).push(alphabet@[i as int]));
        }
        i = i + 1;
    }
    proof {
        assert(alphabet@.take(n as int) =~= alphabet@);
    }
    let mut tracks: Vec<Vec<i32>> = Vec::new();
    let mut msd: Vec<Option<bool>> = Vec::new();
    let mut size: usize = 1;
    let mut t: usize = 0;
    proof {
        reveal(pow);
    }
    while t < input_size
        invariant
            t <= input_size,
            digits@ == alphabet@,
            n == alphabet@.len(),
            tracks@.len() == t,
            forall|x: int| 0 <= x < t ==> #[trigger] tracks@[x]@ == alphabet@,
            msd@ == Seq::new(t as nat, |x: int| Some(is_msd)),
            size == pow(n as int, t as nat),
            pow(n as int, input_size as nat) <= usize::MAX,
        decreases input_size - t,
    {
        let copy = digits.clone();
        proof {
            assert(copy@ == digits@);
            reveal(pow);
            assert(pow(n as int, (t + 1) as nat) == n * pow(n as int, t as nat));
            if n > 0 {
                vstd::arithmetic::power::lemma_pow_increases(n as nat, (t + 1) as nat, input_size as nat);
            } else {
                let pw = pow(n as int, t as nat);
                assert(n * pw == 0) by (nonlinear_arith)
                    requires
                        n == 0,
                ;
            }
        }
        tracks.push(copy);
        msd.push(Some(is_msd));
        size = n * size;
        t = t + 1;
        proof {
            assert(msd@ =~= Seq::new(t as nat, |x: int| Some(is_msd)));
        }
    }
    let fa = Fa { true_false: None, q0: 0, q, alphabet_size: size, o, d };
    let a = Automaton::new(fa, tracks, Vec::new(), msd);
    proof {
        assert(crate::automaton::alphabet_view(a.alphabet@) =~= same_tracks(alphabet@, input_size as nat));
    }
    a
}

/// The carry that the addition automaton's state stands for, after reading digit
/// triples `(i, j, k)` with `k` the sum's digit: state `0` means the sum's prefix equals
/// the sum of the other two prefixes, state `1` that it is one more.
pub open spec fn addition_step(n: int, state: int, i: int, j: int, k: int) -> Option<int> {
    let next = n * state + k - i - j;
    if next == 0 || next == 1 {
        Some(next)
    } else {
        None
    }
}

/// The symbol of the digit triple `(i, j, k)` over `n` digits, track 0 fastest.
pub open spec fn triple_symbol(n: int, i: int, j: int, k: int) -> int {
    i + n * j + n * n * k
}

/// State `s` of `fa` has the addition automaton's transitions on the triple `(i, j, k)`.
pub open spec fn addition_entry(fa: &Fa, n: int, s: int, i: int, j: int, k: int) -> bool {
    let sym = triple_symbol(n, i, j, k) as i32;
    &&& fa.row(s).contains_key(sym) <==> addition_step(n, s, i, j, k) is Some
    &&& addition_step(n, s, i, j, k) is Some ==> fa.dests(s, sym) == seq![addition_step(n, s, i, j, k)->0 as usize]
}

/// Both states of `fa` have the addition automaton's transitions on `(i, j, k)`.
pub open spec fn addition_entries(fa: &Fa, n: int, i: int, j: int, k: int) -> bool {
    addition_entry(fa, n, 0, i, j, k) && addition_entry(fa, n, 1, i, j, k)
}

/// The automaton over three tracks of base-`n` digits, read most significant digit
/// first, that accepts exactly when the third number is the sum of the first two:
/// state `0` (accepting) and state `1` stand for the carry `addition_step` tracks.
#[verifier::spinoff_prover]
#[verifier::rlimit(40)]
pub fn base_n_addition_automaton(n: i32, is_msd: bool) -> (a: Automaton)
    requires
        1 <= n <= 1290,
    ensures
        a.fa.true_false is None,
        a.fa.q == 2,
        a.fa.q0 == 0,
        a.fa.o@ == seq![1i32, 0],
        a.fa.alphabet_size == n * n * n,
        a.fa.d@.len() == 2,
        forall|s: int, sym: i32|
            0 <= s < 2 && #[trigger] a.fa.row(s).contains_key(sym) ==> 0 <= sym < n * n * n,
        forall|i: int, j: int, k: int|
            0 <= i < n && 0 <= j < n && 0 <= k < n ==> #[trigger] addition_entries(&a.fa, n as int, i, j, k),
        crate::automaton::alphabet_view(a.alphabet@) == same_tracks(Seq::new(n as nat, |d: int| d as i32), 3),
        a.label@.len() == 0,
        a.msd@ == seq![Some(is_msd), Some(is_msd), Some(is_msd)],
        !a.canonized,
{
    let mut digits: Vec<i32> = Vec::new();
    let mut d: i32 = 0;
    while d < n
        invariant
            0 <= d <= n,
            digits@ == Seq::new(d as nat, |x: int| x as i32),
        decreases n - d,
    {
        digits.push(d);
        proof {
            assert(digits@ =~= Seq::new((d + 1) as nat, |x: int| x as i32));
        }
        d = d + 1;
    }
    let mut o: Vec<i32> = Vec::new();
    o.push(1);
    o.push(0);
    proof {
        reveal(pow);
        let p3 = pow(n as int, 3);
        let p2 = pow(n as int, 2);
        let p1 = pow(n as int, 1);
        assert(pow(n as int, 0) == 1);
        assert(p1 == n * pow(n as int, 0));
        assert(p2 == n * p1);
        assert(p3 == n * p2);
        assert(p3 == n * n * n) by (nonlinear_arith)
            requires
                p3 == n * p2,
                p2 == n * p1,
                p1 == n,
        ;
        assert(n * n * n <= 2146689000) by (nonlinear_arith)
            requires
                1 <= n <= 1290,
        ;
        assert(digits@.len() == n);
    }
    let mut addition = init_basic_automaton(o, 3, digits.as_slice(), is_msd);
    proof {
        assert(addition.msd@ =~= seq![Some(is_msd), Some(is_msd), Some(is_msd)]);
        assert(addition.fa.o@ =~= seq![1i32, 0]);
    }
    let ghost nn = n as int;
    let ghost a0 = addition;
    let mut l: i32 = 0;
    let mut k: i32 = 0;
    while k < n
        invariant
            1 <= n <= 1290,
            nn == n,
            nn * nn * nn <= 2146689000,
            0 <= k <= n,
            l == nn * nn * k,
            addition.fa.q == 2,
            addition.fa.d@.len() == 2,
            addition.fa.true_false is None,
            addition.fa.q0 == 0,
            addition.fa.o@ == seq![1i32, 0],
            addition.fa.alphabet_size == nn * nn * nn,
            addition.alphabet == a0.alphabet,
            addition.label == a0.label,
            addition.msd == a0.msd,
            !addition.canonized,
            forall|s: int, sym: i32|
                0 <= s < 2 && #[trigger] addition.fa.row(s).contains_key(sym) ==> 0 <= sym < l,
            forall|i: int, j: int, kk: int|
                0 <= i < n && 0 <= j < n && 0 <= kk < k ==> #[trigger] addition_entries(&addition.fa, nn, i, j, kk),
        decreases n - k,
    {
        let mut j: i32 = 0;
        while j < n
            invariant
                1 <= n <= 1290,
                nn == n,
                nn * nn * nn <= 2146689000,
                0 <= k < n,
                0 <= j <= n,
                l == nn * nn * k + nn * j,
                addition.fa.q == 2,
                addition.fa.d@.len() == 2,
                addition.fa.true_false is None,
                addition.fa.q0 == 0,
                addition.fa.o@ == seq![1i32, 0],
                addition.fa.alphabet_size == nn * nn * nn,
                addition.alphabet == a0.alphabet,
                addition.label == a0.label,
                addition.msd == a0.msd,
                !addition.canonized,
                forall|s: int, sym: i32|
                    0 <= s < 2 && #[trigger] addition.fa.row(s).contains_key(sym) ==> 0 <= sym < l,
                forall|i: int, jj: int, kk: int|
                    0 <= i < n && 0 <= jj < n && 0 <= kk < n && (kk < k || (kk == k && jj < j))
                        ==> #[trigger] addition_entries(&addition.fa, nn, i, jj, kk),
            decreases n - j,
        {
            let mut i: i32 = 0;
            while i < n
                invariant
                    1 <= n <= 1290,
                    nn == n,
                    nn * nn * nn <= 2146689000,
                    0 <= k < n,
                    0 <= j < n,
                    0 <= i <= n,
                    l == nn * nn * k + nn * j + i,
                    addition.fa.q == 2,
                    addition.fa.d@.len() == 2,
                    addition.fa.true_false is None,
                    addition.fa.q0 == 0,
                    addition.fa.o@ == seq![1i32, 0],
                    addition.fa.alphabet_size == nn * nn * nn,
                    addition.alphabet == a0.alphabet,
                    addition.label == a0.label,
                    addition.msd == a0.msd,
                    !addition.canonized,
                    forall|s: int, sym: i32|
                        0 <= s < 2 && #[trigger] addition.fa.row(s).contains_key(sym) ==> 0 <= sym < l,
                    forall|ii: int, jj: int, kk: int|
                        0 <= ii < n && 0 <= jj < n && 0 <= kk < n && (kk < k || (kk == k && jj < j) || (kk == k
                            && jj == j && ii < i)) ==> #[trigger] addition_entries(&addition.fa, nn, ii, jj, kk),
                decreases n - i,
            {
                proof {
                    assert(nn * nn * k + nn * j + i < nn * nn * nn) by (nonlinear_arith)
                        requires
                            0 <= k < nn,
                            0 <= j < nn,
                            0 <= i < nn,
                    ;
                    assert(triple_symbol(nn, i as int, j as int, k as int) == l);
                }
                let ghost before = addition.fa;
                if i + j == k {
                    add_new_transition(&mut addition.fa, 0, 0, l);
                } else if i + j + 1 == k {
                    add_new_transition(&mut addition.fa, 0, 1, l);
                }
                let ghost mid = addition.fa;
                proof {
                    assert(mid.d@[1] == before.d@[1]);
                    assert(mid.row(0).contains_key(l) <==> (i + j == k || i + j + 1 == k));
                    assert(i + j == k ==> mid.dests(0, l) == seq![0usize]);
                    assert(i + j + 1 == k ==> mid.dests(0, l) == seq![1usize]);
                    assert forall|sym: i32| sym != l implies (#[trigger] mid.row(0).contains_key(sym)
                        == before.row(0).contains_key(sym)) && (before.row(0).contains_key(sym) ==> mid.dests(0, sym)
                        == before.dests(0, sym)) by {}
                }
                if i + j + 1 == k + n {
                    add_new_transition(&mut addition.fa, 1, 1, l);
                } else if i + j == k + n {
                    add_new_transition(&mut addition.fa, 1, 0, l);
                }
                proof {
                    let fin = addition.fa;
                    assert(mid.row(1) == before.row(1));
                    assert(!before.row(1).contains_key(l));
                    assert(!mid.row(1).contains_key(l));
                    assert(fin.d@[0] == mid.d@[0]);
                    assert(fin.row(0) == mid.row(0));
                    assert(fin.row(1).contains_key(l) <==> (i + j + 1 == k + n || i + j == k + n));
                    assert(i + j + 1 == k + n ==> fin.dests(1, l) == seq![1usize]);
                    assert(i + j == k + n ==> fin.dests(1, l) == seq![0usize]);
                    assert forall|sym: i32| sym != l implies (#[trigger] fin.row(1).contains_key(sym)
                        == mid.row(1).contains_key(sym)) && (mid.row(1).contains_key(sym) ==> fin.dests(1, sym)
                        == mid.dests(1, sym)) by {}
                    assert(mid.row(1) == before.row(1));
                    lemma_triple_symbols_differ(nn, i as int, j as int, k as int);
                    assert forall|ii: int, jj: int, kk: int|
                        0 <= ii < n && 0 <= jj < n && 0 <= kk < n && (kk < k || (kk == k && jj < j) || (kk == k
                            && jj == j && ii < i + 1)) implies #[trigger] addition_entries(&fin, nn, ii, jj, kk) by {
                        let sym = triple_symbol(nn, ii, jj, kk) as i32;
                        if kk == k && jj == j && ii == i {
                            assert(sym == l);
                            assert(addition_step(nn, 0, ii, jj, kk) == if i + j == k {
                                Some(0int)
                            } else if i + j + 1 == k {
                                Some(1int)
                            } else {
                                None::<int>
                            });
                            assert(addition_step(nn, 1, ii, jj, kk) == if i + j == k + n {
                                Some(0int)
                            } else if i + j + 1 == k + n {
                                Some(1int)
                            } else {
                                None::<int>
                            });
                        } else {
                            assert(triple_symbol(nn, ii, jj, kk) < l);
                            assert(sym != l);
                            assert(addition_entries(&before, nn, ii, jj, kk));
                            assert(fin.row(0).contains_key(sym) == before.row(0).contains_key(sym));
                            assert(fin.row(1).contains_key(sym) == before.row(1).contains_key(sym));
                        }
                    }
                    assert forall|s: int, sym: i32|
                        0 <= s < 2 && #[trigger] fin.row(s).contains_key(sym) implies 0 <= sym < l + 1 by {
                        if sym != l {
                            if s == 0 {
                                assert(before.row(0).contains_key(sym));
                            } else {
                                assert(before.row(1).contains_key(sym));
                            }
                        }
                    }
                }
                l = l + 1;
                i = i + 1;
            }
            proof {
                assert(l == nn * nn * k + nn * (j + 1)) by (nonlinear_arith)
                    requires
                        l == nn * nn * k + nn * j + nn,
                ;
            }
            j = j + 1;
        }
        proof {
            assert(l == nn * nn * (k + 1)) by (nonlinear_arith)
                requires
                    l == nn * nn * k + nn * nn,
            ;
        }
        k = k + 1;
    }
    proof {
        assert(l == nn * nn * nn);
    }
    addition
}


/// The value of a digit word read most significant digit first in base `n`.
pub open spec fn msd_value(n: int, ds: Seq<int>) -> int
    decreases ds.len(),
{
    if ds.len() == 0 {
        0
    } else {
        n * msd_value(n, ds.drop_last()) + ds.last()
    }
}

/// The word of symbols whose `t`-th symbol encodes the digits `(a[t], b[t], c[t])`.
pub open spec fn triple_word(n: int, a: Seq<int>, b: Seq<int>, c: Seq<int>) -> Seq<i32> {
    Seq::new(a.len(), |t: int| triple_symbol(n, a[t], b[t], c[t]) as i32)
}

/// Every digit of `ds` is below `n`.
pub open spec fn digits_below(n: int, ds: Seq<int>) -> bool {
    forall|t: int| 0 <= t < ds.len() ==> 0 <= #[trigger] ds[t] < n
}

/// The carry the addition automaton is in after reading `a`, `b` and `c`: `c - a - b`
/// when that is `0` or `1`, and no state at all otherwise.
pub open spec fn expected_carry(n: int, a: Seq<int>, b: Seq<int>, c: Seq<int>) -> Option<int> {
    let d = msd_value(n, c) - msd_value(n, a) - msd_value(n, b);
    if d == 0 || d == 1 {
        Some(d)
    } else {
        None
    }
}

/// The addition automaton adds: reading three equally long base-`n` numbers most
/// significant digit first, it ends in state `c - a - b` while that is `0` or `1` and
/// has no run otherwise, so it accepts exactly when `c == a + b`.
pub proof fn law_addition_automaton_adds(fa: &Fa, n: int, a: Seq<int>, b: Seq<int>, c: Seq<int>)
    requires
        1 <= n <= 1290,
        fa.q == 2,
        fa.d@.len() == 2,
        fa.o@ == seq![1i32, 0],
        forall|i: int, j: int, k: int|
            0 <= i < n && 0 <= j < n && 0 <= k < n ==> #[trigger] addition_entries(fa, n, i, j, k),
        a.len() == b.len(),
        b.len() == c.len(),
        digits_below(n, a),
        digits_below(n, b),
        digits_below(n, c),
    ensures
        run_from(fa, 0, triple_word(n, a, b, c)) == expected_carry(n, a, b, c),
        (run_from(fa, 0, triple_word(n, a, b, c)) matches Some(s) && fa.o@[s] != 0) <==> msd_value(n, c) == msd_value(
            n,
            a,
        ) + msd_value(n, b),
    decreases a.len(),
{
    let w = triple_word(n, a, b, c);
    if a.len() > 0 {
        let a0 = a.drop_last();
        let b0 = b.drop_last();
        let c0 = c.drop_last();
        assert(digits_below(n, a0)) by {
            assert forall|t: int| 0 <= t < a0.len() implies 0 <= #[trigger] a0[t] < n by {
                assert(a0[t] == a[t]);
            }
        }
        assert(digits_below(n, b0)) by {
            assert forall|t: int| 0 <= t < b0.len() implies 0 <= #[trigger] b0[t] < n by {
                assert(b0[t] == b[t]);
            }
        }
        assert(digits_below(n, c0)) by {
            assert forall|t: int| 0 <= t < c0.len() implies 0 <= #[trigger] c0[t] < n by {
                assert(c0[t] == c[t]);
            }
        }
        law_addition_automaton_adds(fa, n, a0, b0, c0);
        assert(w.drop_last() =~= triple_word(n, a0, b0, c0));
        let last = a.len() - 1;
        let i = a[last];
        let j = b[last];
        let k = c[last];
        assert(0 <= i < n && 0 <= j < n && 0 <= k < n);
        assert(w.last() == triple_symbol(n, i, j, k) as i32);
        assert(addition_entries(fa, n, i, j, k));
        let dp = msd_value(n, c0) - msd_value(n, a0) - msd_value(n, b0);
        assert(msd_value(n, a) == n * msd_value(n, a0) + i);
        assert(msd_value(n, b) == n * msd_value(n, b0) + j);
        assert(msd_value(n, c) == n * msd_value(n, c0) + k);
        let dn = msd_value(n, c) - msd_value(n, a) - msd_value(n, b);
        assert(dn == n * dp + k - i - j) by (nonlinear_arith)
            requires
                msd_value(n, a) == n * msd_value(n, a0) + i,
                msd_value(n, b) == n * msd_value(n, b0) + j,
                msd_value(n, c) == n * msd_value(n, c0) + k,
                dp == msd_value(n, c0) - msd_value(n, a0) - msd_value(n, b0),
                dn == msd_value(n, c) - msd_value(n, a) - msd_value(n, b),
        ;
        if dp == 0 || dp == 1 {
            assert(addition_entry(fa, n, dp, i, j, k));
            assert(addition_step(n, dp, i, j, k) == expected_carry(n, a, b, c));
        } else {
            assert(!(dn == 0 || dn == 1)) by (nonlinear_arith)
                requires
                    dn == n * dp + k - i - j,
                    dp != 0,
                    dp != 1,
                    n >= 1,
                    0 <= i < n,
                    0 <= j < n,
                    0 <= k < n,
            ;
        }
    }
}

/// `s` is in ascending order.
pub open spec fn ascending(s: Seq<i32>) -> bool {
    forall|x: int, y: int| 0 <= x <= y < s.len() ==> #[trigger] s[x] <= #[trigger] s[y]
}

/// Sorts the digits in ascending order: `slice::sort_unstable`, which std documents as
/// sorting the slice (equal elements may be reordered, which for integers is
/// unobservable); the result is an ascending rearrangement of the same digits.
#[verifier::external_body]
fn sort_digits(v: &mut Vec<i32>)
    ensures
        final(v)@.to_multiset() == old(v)@.to_multiset(),
        ascending(final(v)@),
{
    v.sort_unstable();
}

/// The automaton over two tracks of the digits `alphabet` that accepts when the first
/// track's word comes before the second's in lexicographic order on equally long
/// words. The digits are sorted first; the symbol `i + size * j` stands for the `i`-th
/// digit on the first track and the `j`-th on the second. State 0 (the start,
/// rejecting) means "equal so far", state 1 (accepting) "already smaller".
#[verifier::spinoff_prover]
#[verifier::rlimit(40)]
pub fn lexicographic_less_than(alphabet: &[i32], is_msd: bool) -> (a: Automaton)
    requires
        alphabet@.len() <= 46340,
    ensures
        a.fa.true_false is None,
        a.fa.q == 2,
        a.fa.q0 == 0,
        a.fa.o@ == seq![0i32, 1],
        a.fa.d@.len() == 2,
        a.fa.alphabet_size == alphabet@.len() * alphabet@.len(),
        forall|sym: i32| #[trigger] a.fa.d@[0]@.contains_key(sym) ==> 0 <= sym < alphabet@.len() * alphabet@.len(),
        forall|sym: i32| #[trigger] a.fa.d@[1]@.contains_key(sym) <==> 0 <= sym < alphabet@.len() * alphabet@.len(),
        forall|x: int, y: int|
            0 <= x < alphabet@.len() && 0 <= y < alphabet@.len() ==> {
                let sym = #[trigger] pair_symbol(alphabet@.len() as int, x, y) as i32;
                &&& a.fa.d@[0]@.contains_key(sym) <==> x <= y
                &&& x == y ==> a.fa.d@[0]@[sym]@ == seq![0usize]
                &&& x < y ==> a.fa.d@[0]@[sym]@ == seq![1usize]
                &&& a.fa.d@[1]@[sym]@ == seq![1usize]
            },
        a.alphabet@.len() == 2,
        a.alphabet@[0]@ == a.alphabet@[1]@,
        a.alphabet@[0]@.to_multiset() == alphabet@.to_multiset(),
        ascending(a.alphabet@[0]@),
        a.label@.len() == 0,
        a.msd@ == seq![Some(is_msd), Some(is_msd)],
        !a.canonized,
{
    let mut sorted: Vec<i32> = Vec::new();
    let n = alphabet.len();
    let mut t: usize = 0;
    while t < n
        invariant
            n == alphabet@.len(),
            t <= n,
            sorted@ == alphabet@.take(t as int),
        decreases n - t,
    {
        sorted.push(alphabet[t]);
        proof {
            assert(alphabet@.take(t + 1) =~= alphabet@.take(t as int).push(alphabet@[t as int]));
        }
        t = t + 1;
    }
    proof {
        assert(alphabet@.take(n as int) =~= alphabet@);
    }
    let ghost before_sort = sorted@;
    sort_digits(&mut sorted);
    let size = sorted.len();
    proof {
        assert(sorted@.len() == before_sort.len()) by {
            vstd::seq_lib::to_multiset_len(sorted@);
            vstd::seq_lib::to_multiset_len(before_sort);
        }
        reveal(pow);
        assert(pow(size as int, 2) == size * pow(size as int, 1));
        assert(pow(size as int, 1) == size * pow(size as int, 0));
        assert(size * size <= 2147395600) by (nonlinear_arith)
            requires
                size <= 46340,
        ;
    }
    let mut o: Vec<i32> = Vec::new();
    o.push(0);
    o.push(1);
    let mut less_than = init_basic_automaton(o, 2, sorted.as_slice(), is_msd);
    proof {
        assert(less_than.msd@ =~= seq![Some(is_msd), Some(is_msd)]);
        assert(less_than.fa.o@ =~= seq![0i32, 1]);
        let av = crate::automaton::alphabet_view(less_than.alphabet@);
        assert(av == same_tracks(sorted@, 2));
        assert(av.len() == less_than.alphabet@.len());
        assert(av[0] == less_than.alphabet@[0]@);
        assert(av[1] == less_than.alphabet@[1]@);
        assert(av[0] == sorted@);
        assert(av[1] == sorted@);
    }
    let ghost a0 = less_than;
    let ghost nn = size as int;
    proof {
        assert(less_than.fa.row(0) == less_than.fa.d@[0]@);
        assert(less_than.fa.row(1) == less_than.fa.d@[1]@);
        assert(less_than.fa.d@[0]@ == Map::<i32, Vec<usize>>::empty());
        assert(less_than.fa.d@[1]@ == Map::<i32, Vec<usize>>::empty());
    }
    let mut i: usize = 0;
    while i < size
        invariant
            size == nn,
            nn * nn <= 2147395600,
            0 <= i <= size,
            less_than.fa.true_false is None,
            less_than.fa.q == 2,
            less_than.fa.q0 == 0,
            less_than.fa.o@ == seq![0i32, 1],
            less_than.fa.d@.len() == 2,
            less_than.fa.alphabet_size == nn * nn,
            less_than.alphabet == a0.alphabet,
            less_than.label == a0.label,
            less_than.msd == a0.msd,
            !less_than.canonized,
            forall|sym: i32| #[trigger] less_than.fa.d@[0]@.contains_key(sym) ==> 0 <= sym < nn * nn,
            forall|sym: i32| #[trigger] less_than.fa.d@[1]@.contains_key(sym) ==> 0 <= sym < nn * nn,
            forall|x: int, y: int|
                0 <= x < i && 0 <= y < nn ==> #[trigger] less_than_entries(&less_than.fa, nn, x, y),
            forall|x: int, y: int|
                i <= x < nn && 0 <= y < nn ==> !#[trigger] less_than.fa.d@[0]@.contains_key(pair_symbol(nn, x, y) as i32),
            forall|x: int, y: int| 0 <= x < i && 0 <= y < nn ==> #[trigger] loop_entry(&less_than.fa, nn, x, y),
        decreases size - i,
    {
        let mut j: usize = 0;
        while j < size
            invariant
                size == nn,
                nn * nn <= 2147395600,
                0 <= i < size,
                0 <= j <= size,
                less_than.fa.true_false is None,
                less_than.fa.q == 2,
                less_than.fa.q0 == 0,
                less_than.fa.o@ == seq![0i32, 1],
                less_than.fa.d@.len() == 2,
                less_than.fa.alphabet_size == nn * nn,
                less_than.alphabet == a0.alphabet,
                less_than.label == a0.label,
                less_than.msd == a0.msd,
                !less_than.canonized,
                forall|sym: i32| #[trigger] less_than.fa.d@[0]@.contains_key(sym) ==> 0 <= sym < nn * nn,
                forall|sym: i32| #[trigger] less_than.fa.d@[1]@.contains_key(sym) ==> 0 <= sym < nn * nn,
                forall|x: int, y: int|
                    0 <= y < nn && (0 <= x < i || (x == i && 0 <= y < j)) ==> #[trigger] less_than_entries(
                        &less_than.fa,
                        nn,
                        x,
                        y,
                    ),
                forall|x: int, y: int|
                    0 <= y < nn && i <= x < nn && (x > i || y >= j) ==> !#[trigger] less_than.fa.d@[0]@.contains_key(
                        pair_symbol(nn, x, y) as i32,
                    ),
                forall|x: int, y: int|
                    0 <= y < nn && (0 <= x < i || (x == i && 0 <= y < j)) ==> #[trigger] loop_entry(
                        &less_than.fa,
                        nn,
                        x,
                        y,
                    ),
            decreases size - j,
        {
            proof {
                lemma_pair_symbols(nn, i as int, j as int);
            }
            let s0 = (j * size + i) as i32;
            let s1 = (i * size + j) as i32;
            let ghost before = less_than.fa;
            if i == j {
                add_new_transition(&mut less_than.fa, 0, 0, s0);
            } else if i < j {
                add_new_transition(&mut less_than.fa, 0, 1, s0);
            }
            let ghost mid = less_than.fa;
            add_new_transition(&mut less_than.fa, 1, 1, s1);
            proof {
                let fin = less_than.fa;
                assert(mid.d@[1] == before.d@[1]);
                assert(fin.d@[0] == mid.d@[0]);
                assert(fin.row(0) == fin.d@[0]@);
                assert(fin.row(1) == fin.d@[1]@);
                assert(mid.row(0) == mid.d@[0]@);
                assert(mid.row(1) == mid.d@[1]@);
                assert(before.row(0) == before.d@[0]@);
                assert(before.row(1) == before.d@[1]@);
                assert(s0 == pair_symbol(nn, i as int, j as int) as i32);
                assert(s1 == pair_symbol(nn, j as int, i as int) as i32);
                assert forall|x: int, y: int|
                    0 <= y < nn && (0 <= x < i || (x == i && 0 <= y < j + 1)) implies #[trigger] less_than_entries(
                        &fin,
                        nn,
                        x,
                        y,
                    ) by {
                    let sym = pair_symbol(nn, x, y) as i32;
                    if x == i && y == j {
                        assert(sym == s0);
                        assert(fin.d@[0]@ == mid.d@[0]@);
                        assert(!before.row(0).contains_key(s0));
                    } else {
                        lemma_pair_symbols(nn, x, y);
                        lemma_pair_symbols_distinct(nn, x, y, i as int, j as int);
                        assert(sym != s0);
                        assert(less_than_entries(&before, nn, x, y));
                        assert(fin.d@[0]@.contains_key(sym) == before.d@[0]@.contains_key(sym));
                    }
                }
                assert forall|x: int, y: int|
                    0 <= y < nn && (0 <= x < i || (x == i && 0 <= y < j + 1)) implies #[trigger] loop_entry(
                        &fin,
                        nn,
                        x,
                        y,
                    ) by {
                    let sym = pair_symbol(nn, y, x) as i32;
                    if x == i && y == j {
                        assert(sym == s1);
                    } else {
                        lemma_pair_symbols(nn, x, y);
                        lemma_pair_symbols_distinct(nn, y, x, j as int, i as int);
                        assert(sym != s1);
                        assert(loop_entry(&before, nn, x, y));
                        assert(before.d@[1]@.contains_key(sym));
                    }
                }
                assert forall|sym: i32| #[trigger] fin.d@[0]@.contains_key(sym) implies 0 <= sym < nn * nn by {
                    if sym != s0 {
                        assert(before.d@[0]@.contains_key(sym));
                    }
                }
                assert forall|x: int, y: int|
                    0 <= y < nn && i <= x < nn && (x > i || y >= j + 1) implies !#[trigger] fin.d@[0]@.contains_key(
                        pair_symbol(nn, x, y) as i32,
                    ) by {
                    lemma_pair_symbols(nn, x, y);
                    lemma_pair_symbols_distinct(nn, x, y, i as int, j as int);
                    assert(pair_symbol(nn, x, y) as i32 != s0);
                    assert(!before.d@[0]@.contains_key(pair_symbol(nn, x, y) as i32));
                }
                assert forall|sym: i32| #[trigger] fin.d@[1]@.contains_key(sym) implies 0 <= sym < nn * nn by {
                    if sym != s1 {
                        assert(before.d@[1]@.contains_key(sym));
                    }
                }
            }
            j = j + 1;
        }
        i = i + 1;
    }
    proof {
        assert forall|sym: i32| 0 <= sym < nn * nn implies #[trigger] less_than.fa.d@[1]@.contains_key(sym) by {
            let y = sym as int % nn;
            let x = sym as int / nn;
            vstd::arithmetic::div_mod::lemma_fundamental_div_mod(sym as int, nn);
            assert(0 <= x < nn) by (nonlinear_arith)
                requires
                    sym == nn * x + y,
                    0 <= y < nn,
                    0 <= sym < nn * nn,
                    nn > 0,
            ;
            assert(pair_symbol(nn, y, x) == sym);
            assert(loop_entry(&less_than.fa, nn, x, y));
        }
        assert forall|x: int, y: int| 0 <= x < nn && 0 <= y < nn implies #[trigger] less_than_entries(
            &less_than.fa,
            nn,
            x,
            y,
        ) by {}
        assert forall|x: int, y: int| 0 <= x < nn && 0 <= y < nn implies {
            let sym = #[trigger] pair_symbol(nn, x, y) as i32;
            &&& less_than.fa.d@[0]@.contains_key(sym) <==> x <= y
            &&& x == y ==> less_than.fa.d@[0]@[sym]@ == seq![0usize]
            &&& x < y ==> less_than.fa.d@[0]@[sym]@ == seq![1usize]
            &&& less_than.fa.d@[1]@[sym]@ == seq![1usize]
        } by {
            assert(less_than_entries(&less_than.fa, nn, x, y));
            assert(loop_entry(&less_than.fa, nn, y, x));
            lemma_pair_symbols(nn, x, y);
        }
    }
    less_than
}

/// State 1 of `fa` loops on the digit pair `(y, x)`.
pub open spec fn loop_entry(fa: &Fa, n: int, x: int, y: int) -> bool {
    let sym = pair_symbol(n, y, x) as i32;
    fa.d@[1]@.contains_key(sym) && fa.d@[1]@[sym]@ == seq![1usize]
}

/// State 0 of `fa` has the lexicographic less-than transitions on `(x, y)`.
pub open spec fn less_than_entries(fa: &Fa, n: int, x: int, y: int) -> bool {
    let sym = pair_symbol(n, x, y) as i32;
    &&& fa.d@[0]@.contains_key(sym) <==> x <= y
    &&& x == y ==> fa.d@[0]@[sym]@ == seq![0usize]
    &&& x < y ==> fa.d@[0]@[sym]@ == seq![1usize]
}

/// The symbols of digit pairs are in range and fit an `i32`.
proof fn lemma_pair_symbols(n: int, x: int, y: int)
    requires
        0 <= x < n,
        0 <= y < n,
        n * n <= 2147395600,
    ensures
        0 <= pair_symbol(n, x, y) < n * n,
        0 <= pair_symbol(n, y, x) < n * n,
        y * n + x == pair_symbol(n, x, y),
        x * n + y == pair_symbol(n, y, x),
{
    assert(0 <= x + n * y < n * n) by (nonlinear_arith)
        requires
            0 <= x < n,
            0 <= y < n,
    ;
    assert(0 <= y + n * x < n * n) by (nonlinear_arith)
        requires
            0 <= x < n,
            0 <= y < n,
    ;
    assert(y * n == n * y) by (nonlinear_arith);
    assert(x * n == n * x) by (nonlinear_arith);
}

/// Different digit pairs have different symbols.
proof fn lemma_pair_symbols_distinct(n: int, x: int, y: int, u: int, v: int)
    requires
        0 <= x < n,
        0 <= y < n,
        0 <= u < n,
        0 <= v < n,
        x != u || y != v,
    ensures
        pair_symbol(n, x, y) != pair_symbol(n, u, v),
{
    if pair_symbol(n, x, y) == pair_symbol(n, u, v) {
        vstd::arithmetic::div_mod::lemma_fundamental_div_mod_converse(x + n * y, n, y, x);
        vstd::arithmetic::div_mod::lemma_fundamental_div_mod_converse(u + n * v, n, v, u);
        assert(x + n * y == y * n + x) by (nonlinear_arith);
        assert(u + n * v == v * n + u) by (nonlinear_arith);
    }
}

/// The automaton over two tracks of the digits `alphabet` that accepts when both tracks
/// carry the same word: one accepting state looping on every symbol `i * size + i`.
#[verifier::spinoff_prover]
#[verifier::rlimit(40)]
pub fn equality_automaton(alphabet: &[i32], is_msd: bool) -> (a: Automaton)
    requires
        alphabet@.len() <= 46340,
    ensures
        a.fa.true_false is None,
        a.fa.q == 1,
        a.fa.q0 == 0,
        a.fa.o@ == seq![1i32],
        a.fa.d@.len() == 1,
        a.fa.alphabet_size == alphabet@.len() * alphabet@.len(),
        forall|x: int, y: int|
            0 <= x < alphabet@.len() && 0 <= y < alphabet@.len() ==> (#[trigger] a.fa.d@[0]@.contains_key(
                pair_symbol(alphabet@.len() as int, x, y) as i32,
            ) <==> x == y),
        forall|x: int| 0 <= x < alphabet@.len() ==> #[trigger] a.fa.d@[0]@[pair_symbol(alphabet@.len() as int, x, x) as i32]@ == seq![0usize],
        forall|sym: i32| #[trigger] a.fa.d@[0]@.contains_key(sym) ==> 0 <= sym < alphabet@.len() * alphabet@.len(),
        crate::automaton::alphabet_view(a.alphabet@) == same_tracks(alphabet@, 2),
        a.label@.len() == 0,
        a.msd@ == seq![Some(is_msd), Some(is_msd)],
        !a.canonized,
{
    let size = alphabet.len();
    let ghost nn = size as int;
    proof {
        reveal(pow);
        assert(pow(nn, 2) == nn * pow(nn, 1));
        assert(pow(nn, 1) == nn * pow(nn, 0));
        assert(nn * nn <= 2147395600) by (nonlinear_arith)
            requires
                0 <= nn <= 46340,
        ;
    }
    let mut o: Vec<i32> = Vec::new();
    o.push(1);
    let mut equality = init_basic_automaton(o, 2, alphabet, is_msd);
    proof {
        assert(equality.msd@ =~= seq![Some(is_msd), Some(is_msd)]);
        assert(equality.fa.o@ =~= seq![1i32]);
    }
    let ghost a0 = equality;
    proof {
        assert(equality.fa.row(0) == equality.fa.d@[0]@);
        assert(equality.fa.d@[0]@ == Map::<i32, Vec<usize>>::empty());
    }
    let mut i: usize = 0;
    while i < size
        invariant
            size == nn,
            nn * nn <= 2147395600,
            0 <= i <= size,
            equality.fa.true_false is None,
            equality.fa.q == 1,
            equality.fa.q0 == 0,
            equality.fa.o@ == seq![1i32],
            equality.fa.d@.len() == 1,
            equality.fa.alphabet_size == nn * nn,
            equality.alphabet == a0.alphabet,
            equality.label == a0.label,
            equality.msd == a0.msd,
            !equality.canonized,
            forall|sym: i32| #[trigger] equality.fa.d@[0]@.contains_key(sym) ==> exists|x: int|
                0 <= x < i && sym == pair_symbol(nn, x, x),
            forall|x: int| 0 <= x < i ==> #[trigger] equality.fa.d@[0]@.contains_key(pair_symbol(nn, x, x) as i32)
                && equality.fa.d@[0]@[pair_symbol(nn, x, x) as i32]@ == seq![0usize],
        decreases size - i,
    {
        proof {
            lemma_pair_symbols(nn, i as int, i as int);
        }
        let sym = (i * size + i) as i32;
        let ghost before = equality.fa;
        add_new_transition(&mut equality.fa, 0, 0, sym);
        proof {
            assert(sym == pair_symbol(nn, i as int, i as int) as i32);
            assert(equality.fa.row(0) == equality.fa.d@[0]@);
            assert(before.row(0) == before.d@[0]@);
            assert forall|x: int| 0 <= x < i + 1 implies #[trigger] equality.fa.d@[0]@.contains_key(
                pair_symbol(nn, x, x) as i32,
            ) && equality.fa.d@[0]@[pair_symbol(nn, x, x) as i32]@ == seq![0usize] by {
                if x < i {
                    lemma_pair_symbols(nn, x, x);
                    lemma_pair_symbols_distinct(nn, x, x, i as int, i as int);
                    let t = pair_symbol(nn, x, x) as i32;
                    assert(t != sym);
                    assert(before.row(0).contains_key(t));
                    assert(equality.fa.row(0).contains_key(t));
                    assert(equality.fa.row(0)[t] == before.row(0)[t]);
                } else {
                    assert(equality.fa.dests(0, sym) == seq![0usize]);
                }
            }
            assert forall|s: i32| #[trigger] equality.fa.d@[0]@.contains_key(s) implies exists|x: int|
                0 <= x < i + 1 && s == pair_symbol(nn, x, x) by {
                if s != sym {
                    assert(equality.fa.row(0).contains_key(s));
                    assert(before.row(0).contains_key(s));
                } else {
                    assert(0 <= i < i + 1 && s == pair_symbol(nn, i as int, i as int));
                }
            }
        }
        i = i + 1;
    }
    proof {
        assert forall|x: int, y: int|
            0 <= x < nn && 0 <= y < nn implies (#[trigger] equality.fa.d@[0]@.contains_key(pair_symbol(nn, x, y) as i32)
            <==> x == y) by {
            lemma_pair_symbols(nn, x, y);
            if equality.fa.d@[0]@.contains_key(pair_symbol(nn, x, y) as i32) {
                let z = choose|z: int| 0 <= z < size && pair_symbol(nn, x, y) as i32 == pair_symbol(nn, z, z);
                lemma_pair_symbols(nn, z, z);
                if x != z || y != z {
                    lemma_pair_symbols_distinct(nn, x, y, z, z);
                }
            }
        }
        assert forall|sym: i32| #[trigger] equality.fa.d@[0]@.contains_key(sym) implies 0 <= sym < nn * nn by {
            let z = choose|z: int| 0 <= z < size && sym == pair_symbol(nn, z, z);
            lemma_pair_symbols(nn, z, z);
        }
        assert forall|x: int| 0 <= x < nn implies #[trigger] equality.fa.d@[0]@[pair_symbol(nn, x, x) as i32]@ == seq![0usize] by {
            assert(equality.fa.d@[0]@.contains_key(pair_symbol(nn, x, x) as i32));
        }
    }
    equality
}

/// Earlier digit triples have smaller symbols.
proof fn lemma_triple_symbols_differ(n: int, i: int, j: int, k: int)
    requires
        n >= 1,
        0 <= i < n,
        0 <= j < n,
        0 <= k < n,
    ensures
        forall|ii: int, jj: int, kk: int|
            0 <= ii < n && 0 <= jj < n && 0 <= kk < n && (kk < k || (kk == k && jj < j) || (kk == k && jj == j
                && ii < i)) ==> #[trigger] triple_symbol(n, ii, jj, kk) < triple_symbol(n, i, j, k),
        triple_symbol(n, i, j, k) >= 0,
{
    assert forall|ii: int, jj: int, kk: int|
        0 <= ii < n && 0 <= jj < n && 0 <= kk < n && (kk < k || (kk == k && jj < j) || (kk == k && jj == j && ii
            < i)) implies #[trigger] triple_symbol(n, ii, jj, kk) < triple_symbol(n, i, j, k) by {
        if kk < k {
            assert(ii + n * jj + n * n * kk < n * n * (kk + 1)) by (nonlinear_arith)
                requires
                    0 <= ii < n,
                    0 <= jj < n,
                    n >= 1,
            ;
            assert(n * n * (kk + 1) <= n * n * k) by (nonlinear_arith)
                requires
                    kk + 1 <= k,
                    n >= 1,
            ;
            assert(0 <= i + n * j) by (nonlinear_arith)
                requires
                    0 <= i,
                    0 <= j,
                    n >= 1,
            ;
        } else if jj < j {
            assert(ii + n * jj < n * (jj + 1)) by (nonlinear_arith)
                requires
                    0 <= ii < n,
            ;
            assert(n * (jj + 1) <= n * j) by (nonlinear_arith)
                requires
                    jj + 1 <= j,
                    n >= 1,
            ;
        }
    }
    assert(triple_symbol(n, i, j, k) >= 0) by (nonlinear_arith)
        requires
            0 <= i,
            0 <= j,
            0 <= k,
            n >= 1,
    ;
}

/// The two automaton files that one custom-base lookup considers, already read: the
/// file named after the number system itself, and the file of the same base read in
/// the other direction.
#[derive(Debug, Clone, Default)]
pub struct CustomBaseCandidates {
    /// The automaton of the file named after the number system, if there is one.
    pub main: Option<Automaton>,
    /// The automaton of the file of the same base in the other direction, if there is
    /// one; it is used only when `main` is absent, with its language reversed.
    pub complement: Option<Automaton>,
}

impl CustomBaseCandidates {
    /// The automaton the lookup settles on: the one named after the number system when
    /// there is one, as it is; otherwise the one of the other direction with its
    /// language reversed (its tracks keep their reading direction); otherwise none.
    pub fn resolve(self) -> (r: Option<Automaton>)
        requires
            self.main is None && self.complement is Some ==> crate::logicalops::reversible(&self.complement->Some_0),
        ensures
            self.main is Some ==> r == self.main,
            self.main is None && self.complement is None ==> r is None,
            self.main is None && self.complement is Some ==> r is Some && crate::logicalops::reversal_of(
                &self.complement->Some_0,
                &r->Some_0,
                false,
            ),
    {
        match self.main {
            Some(main) => Some(main),
            None => match self.complement {
                Some(complement) => {
                    let mut c = complement;
                    crate::logicalops::reverse(&mut c, false);
                    Some(c)
                },
                None => None,
            },
        }
    }
}

/// The three custom-base lookups a number system makes: its addition automaton, its
/// less-than automaton, and the automaton of all its valid representations.
#[derive(Debug, Clone, Default)]
pub struct CustomBaseFiles {
    /// The lookup for `<name>_addition.txt`.
    pub addition: CustomBaseCandidates,
    /// The lookup for `<name>_less_than.txt`.
    pub less_than: CustomBaseCandidates,
    /// The lookup for `<name>.txt`, the valid representations.
    pub all_representations: CustomBaseCandidates,
}

/// Digit pair `(x, y)` of `base`, where `x` is the first track's digit.
pub open spec fn pair_symbol(base: int, x: int, y: int) -> int {
    x + base * y
}

/// The word of symbols whose `t`-th symbol encodes the digits `(a[t], b[t])`.
pub open spec fn pair_word(n: int, a: Seq<int>, b: Seq<int>) -> Seq<i32> {
    Seq::new(a.len(), |t: int| pair_symbol(n, a[t], b[t]) as i32)
}

/// The state of the less-than automaton after reading `a` and `b`: `0` while they are
/// equal, `1` once `a` is below `b`, and no state once `a` is above `b`.
pub open spec fn expected_comparison(n: int, a: Seq<int>, b: Seq<int>) -> Option<int> {
    if msd_value(n, a) == msd_value(n, b) {
        Some(0)
    } else if msd_value(n, a) < msd_value(n, b) {
        Some(1)
    } else {
        None
    }
}

/// The less-than automaton compares: reading two equally long base-`n` numbers most
/// significant digit first, it ends in state `0` when they are equal, in state `1` when
/// the first is smaller and has no run when it is larger, so it accepts exactly when
/// the first number is less than the second.
pub proof fn law_less_than_msd_compares(fa: &Fa, n: int, a: Seq<int>, b: Seq<int>)
    requires
        2 <= n <= 46340,
        fa.q == 2,
        fa.d@.len() == 2,
        fa.o@ == seq![0i32, 1],
        forall|x: int, y: int|
            0 <= x < n && 0 <= y < n ==> {
                let sym = #[trigger] pair_symbol(n, x, y) as i32;
                &&& fa.d@[0]@.contains_key(sym) <==> x <= y
                &&& x == y ==> fa.d@[0]@[sym]@ == seq![0usize]
                &&& x < y ==> fa.d@[0]@[sym]@ == seq![1usize]
                &&& fa.d@[1]@.contains_key(sym)
                &&& fa.d@[1]@[sym]@ == seq![1usize]
            },
        a.len() == b.len(),
        digits_below(n, a),
        digits_below(n, b),
    ensures
        run_from(fa, 0, pair_word(n, a, b)) == expected_comparison(n, a, b),
        (run_from(fa, 0, pair_word(n, a, b)) matches Some(s) && fa.o@[s] != 0) <==> msd_value(n, a) < msd_value(n, b),
    decreases a.len(),
{
    let w = pair_word(n, a, b);
    if a.len() > 0 {
        let a0 = a.drop_last();
        let b0 = b.drop_last();
        assert(digits_below(n, a0)) by {
            assert forall|t: int| 0 <= t < a0.len() implies 0 <= #[trigger] a0[t] < n by {
                assert(a0[t] == a[t]);
            }
        }
        assert(digits_below(n, b0)) by {
            assert forall|t: int| 0 <= t < b0.len() implies 0 <= #[trigger] b0[t] < n by {
                assert(b0[t] == b[t]);
            }
        }
        law_less_than_msd_compares(fa, n, a0, b0);
        assert(w.drop_last() =~= pair_word(n, a0, b0));
        let last = a.len() - 1;
        let x = a[last];
        let y = b[last];
        assert(0 <= x < n && 0 <= y < n);
        let sym = pair_symbol(n, x, y) as i32;
        assert(w.last() == sym);
        assert(fa.d@[0]@.contains_key(sym) <==> x <= y);
        let va = msd_value(n, a0);
        let vb = msd_value(n, b0);
        assert(msd_value(n, a) == n * va + x);
        assert(msd_value(n, b) == n * vb + y);
        if va < vb {
            assert(n * va + x < n * vb + y) by (nonlinear_arith)
                requires
                    va < vb,
                    0 <= x < n,
                    0 <= y < n,
            ;
        } else if va > vb {
            assert(n * va + x > n * vb + y) by (nonlinear_arith)
                requires
                    va > vb,
                    0 <= x < n,
                    0 <= y < n,
            ;
        }
    }
}

/// The automaton over two tracks `a` and `b` of base-`base` digits, read most
/// significant digit first, that accepts when `a`'s number is less than `b`'s.
///
/// State 0 (the start, rejecting) means "equal so far": it stays on equal digits,
/// moves to state 1 on `a`'s digit below `b`'s, and has no transition when `a`'s digit
/// is above `b`'s. State 1 (accepting) stays on every digit pair.
pub fn less_than_msd(base: i32) -> (a: Automaton)
    requires
        2 <= base <= 46340,
    ensures
        a.fa.true_false is None,
        a.fa.q == 2,
        a.fa.q0 == 0,
        a.fa.o@ == seq![0i32, 1],
        a.fa.alphabet_size == base * base,
        a.fa.d@.len() == 2,
        forall|sym: i32| #[trigger] a.fa.d@[0]@.contains_key(sym) ==> 0 <= sym < base * base,
        forall|sym: i32| #[trigger] a.fa.d@[1]@.contains_key(sym) <==> 0 <= sym < base * base,
        forall|x: int, y: int|
            0 <= x < base && 0 <= y < base ==> {
                let sym = #[trigger] pair_symbol(base as int, x, y) as i32;
                &&& a.fa.d@[0]@.contains_key(sym) <==> x <= y
                &&& x == y ==> a.fa.d@[0]@[sym]@ == seq![0usize]
                &&& x < y ==> a.fa.d@[0]@[sym]@ == seq![1usize]
                &&& a.fa.d@[1]@[sym]@ == seq![1usize]
            },
        a.alphabet@.len() == 2,
        a.alphabet@[0]@ == Seq::new(base as nat, |d: int| d as i32),
        a.alphabet@[1]@ == Seq::new(base as nat, |d: int| d as i32),
        a.label@.len() == 2,
        a.label@[0]@ == "a"@,
        a.label@[1]@ == "b"@,
        a.msd@ == seq![Some(true), Some(true)],
        !a.canonized,
{
    let mut digits: Vec<i32> = Vec::new();
    let mut d: i32 = 0;
    while d < base
        invariant
            0 <= d <= base,
            digits@ == Seq::new(d as nat, |x: int| x as i32),
        decreases base - d,
    {
        digits.push(d);
        proof {
            assert(digits@ =~= Seq::new((d + 1) as nat, |x: int| x as i32));
        }
        d = d + 1;
    }
    let mut row0: BTreeMap<i32, Vec<usize>> = BTreeMap::new();
    let mut row1: BTreeMap<i32, Vec<usize>> = BTreeMap::new();
    proof {
        assert(base * base <= 2147395600) by (nonlinear_arith)
            requires
                2 <= base <= 46340,
        ;
    }
    let mut j: i32 = 0;
    while j < base
        invariant
            2 <= base <= 46340,
            base * base <= 2147395600,
            0 <= j <= base,
            forall|sym: i32| #[trigger] row1@.contains_key(sym) <==> 0 <= sym < base * j,
            forall|sym: i32| #[trigger] row0@.contains_key(sym) ==> 0 <= sym < base * j,
            forall|x: int, y: int|
                0 <= x < base && 0 <= y < j ==> {
                    let sym = #[trigger] pair_symbol(base as int, x, y) as i32;
                    &&& row0@.contains_key(sym) <==> x <= y
                    &&& x == y ==> row0@[sym]@ == seq![0usize]
                    &&& x < y ==> row0@[sym]@ == seq![1usize]
                    &&& row1@[sym]@ == seq![1usize]
                },
        decreases base - j,
    {
        proof {
            assert(base * j + base <= base * base) by (nonlinear_arith)
                requires
                    j < base,
                    2 <= base,
            ;
            assert(0 <= base * j) by (nonlinear_arith)
                requires
                    0 <= j,
                    0 <= base,
            ;
        }
        let mut i: i32 = 0;
        while i < base
            invariant
                2 <= base <= 46340,
                base * base <= 2147395600,
                0 <= j < base,
                0 <= i <= base,
                0 <= base * j,
                base * j + base <= base * base,
                forall|sym: i32| #[trigger] row1@.contains_key(sym) <==> 0 <= sym < base * j + i,
                forall|sym: i32| #[trigger] row0@.contains_key(sym) ==> 0 <= sym < base * j + i,
                forall|x: int, y: int|
                    0 <= x < base && 0 <= y < j ==> {
                        let sym = #[trigger] pair_symbol(base as int, x, y) as i32;
                        &&& row0@.contains_key(sym) <==> x <= y
                        &&& x == y ==> row0@[sym]@ == seq![0usize]
                        &&& x < y ==> row0@[sym]@ == seq![1usize]
                        &&& row1@[sym]@ == seq![1usize]
                    },
                forall|x: int|
                    0 <= x < i ==> {
                        let sym = #[trigger] pair_symbol(base as int, x, j as int) as i32;
                        &&& row0@.contains_key(sym) <==> x <= j
                        &&& x == j ==> row0@[sym]@ == seq![0usize]
                        &&& x < j ==> row0@[sym]@ == seq![1usize]
                        &&& row1@[sym]@ == seq![1usize]
                    },
            decreases base - i,
        {
            let sym = i + base * j;
            proof {
                assert(pair_symbol(base as int, i as int, j as int) == sym);
                assert forall|x: int, y: int| 0 <= x < base && 0 <= y < j implies pair_symbol(base as int, x, y) < base * j by {
                    assert(pair_symbol(base as int, x, y) < base * j) by (nonlinear_arith)
                        requires
                            0 <= x < base,
                            0 <= y < j,
                    ;
                }
            }
            let ghost r0 = row0@;
            let ghost r1 = row1@;
            if i == j {
                let mut v: Vec<usize> = Vec::new();
                v.push(0);
                row0.insert(sym, v);
            } else if i < j {
                let mut v: Vec<usize> = Vec::new();
                v.push(1);
                row0.insert(sym, v);
            }
            let mut w: Vec<usize> = Vec::new();
            w.push(1);
            row1.insert(sym, w);
            proof {
                assert forall|x: int, y: int| 0 <= x < base && 0 <= y < j implies {
                    let s2 = #[trigger] pair_symbol(base as int, x, y) as i32;
                    &&& row0@.contains_key(s2) <==> x <= y
                    &&& x == y ==> row0@[s2]@ == seq![0usize]
                    &&& x < y ==> row0@[s2]@ == seq![1usize]
                    &&& row1@[s2]@ == seq![1usize]
                } by {
                    let s2 = pair_symbol(base as int, x, y) as i32;
                    assert(pair_symbol(base as int, x, y) < base * j);
                    assert(s2 != sym);
                }
                assert forall|x: int| 0 <= x < i + 1 implies {
                    let s2 = #[trigger] pair_symbol(base as int, x, j as int) as i32;
                    &&& row0@.contains_key(s2) <==> x <= j
                    &&& x == j ==> row0@[s2]@ == seq![0usize]
                    &&& x < j ==> row0@[s2]@ == seq![1usize]
                    &&& row1@[s2]@ == seq![1usize]
                } by {
                    if x < i {
                        let s2 = pair_symbol(base as int, x, j as int) as i32;
                        assert(s2 != sym);
                    }
                }
            }
            i = i + 1;
        }
        proof {
            assert(base * (j + 1) == base * j + base) by (nonlinear_arith);
        }
        j = j + 1;
    }
    let mut o: Vec<i32> = Vec::new();
    o.push(0);
    o.push(1);
    let mut d: Vec<BTreeMap<i32, Vec<usize>>> = Vec::new();
    d.push(row0);
    d.push(row1);
    proof {
        assert(base * base <= 2147395600) by (nonlinear_arith)
            requires
                2 <= base <= 46340,
        ;
    }
    let fa = Fa::with_states(0, 2, (base * base) as usize, o, d);
    let mut alphabet: Vec<Vec<i32>> = Vec::new();
    alphabet.push(digits.clone());
    alphabet.push(digits);
    let mut label: Vec<String> = Vec::new();
    label.push(String::from_str("a"));
    label.push(String::from_str("b"));
    let mut msd: Vec<Option<bool>> = Vec::new();
    msd.push(Some(true));
    msd.push(Some(true));
    let a = Automaton::new(fa, alphabet, label, msd);
    proof {
        assert(a.fa.o@ =~= seq![0i32, 1]);
        assert(a.msd@ =~= seq![Some(true), Some(true)]);
    }
    a
}

} // verus!
