use vstd::prelude::*;

use crate::evaluation::{abs_fetch, fetch, find_key, member_index};
use crate::jsonpp::{
    copy_value, float_is_zero, lemma_members, lemma_trees, members,
    paths, texts, tree, trees, truthy, Definition, Dynamic, EvalError, JsonPP, Tree,
};
use crate::paths::{
    absolute, all_digits, copy_text, digits_value, make_absolute, path_eq, path_view, ref_chain,
    ref_path, text_eq, Chunk, PathChunk,
};

verus! {

broadcast use lemma_trees, lemma_members;

/// A number operand as the numeric builtins see it.
#[derive(Debug, Clone, Copy, PartialEq, Eq, Structural)]
pub enum Num {
    Int(i64),
    /// IEEE-754 bit pattern.
    Float(u64),
}

/// The numeric folds.
#[derive(Debug, Clone, Copy, PartialEq, Eq, Structural)]
pub enum ArithOp {
    Sum,
    Sub,
    Mul,
    Div,
    Mod,
    Pow,
    Log,
    Min,
    Max,
}

/// The numeric comparisons.
#[derive(Debug, Clone, Copy, PartialEq, Eq, Structural)]
pub enum CmpOp {
    Gt,
    Lt,
    Gte,
    Lte,
}

/// Work that a builtin needs and the library leaves to its caller: floating-point
/// arithmetic and reading files.
#[derive(Debug)]
pub enum Request {
    /// Left fold of the operands with the operation in `f64`, each integer converted with
    /// `as f64`; `pow` is `powf`, `log` is `b.log(a)`, `min`/`max` are `f64::min`/`f64::max`.
    /// Answered with a float.
    FloatFold(ArithOp, Vec<Num>),
    /// The comparison in `f64`, each integer converted with `as f64`. Answered with a boolean.
    FloatCompare(CmpOp, Num, Num),
    /// `f.round() as i64`. Answered with an integer.
    RoundFloat(u64),
    /// `i as f64`. Answered with a float.
    IntToFloat(i64),
    /// The text read as an `f64`. Answered with a float, or a failure where it does not read.
    ParseFloat(Vec<char>),
    /// Each float written as `f64`'s `Display` writes it. Answered with the texts.
    FloatTexts(Vec<u64>),
    /// The bytes of the file at this path. Answered with the bytes, or a failure.
    Include(Vec<char>),
    /// The JSON++ tree that the file at this path holds. Answered with the tree, or a failure.
    Import(Vec<char>),
}

/// The mathematical form of a `Request`.
pub enum Ask {
    FloatFold(ArithOp, Seq<Num>),
    FloatCompare(CmpOp, Num, Num),
    RoundFloat(u64),
    IntToFloat(i64),
    ParseFloat(Seq<char>),
    FloatTexts(Seq<u64>),
    Include(Seq<char>),
    Import(Seq<char>),
}

impl View for Request {
    type V = Ask;

    open spec fn view(&self) -> Ask {
        match self {
            Request::FloatFold(op, ns) => Ask::FloatFold(*op, ns@),
            Request::FloatCompare(op, a, b) => Ask::FloatCompare(*op, *a, *b),
            Request::RoundFloat(f) => Ask::RoundFloat(*f),
            Request::IntToFloat(i) => Ask::IntToFloat(*i),
            Request::ParseFloat(s) => Ask::ParseFloat(s@),
            Request::FloatTexts(fs) => Ask::FloatTexts(fs@),
            Request::Include(p) => Ask::Include(p@),
            Request::Import(p) => Ask::Import(p@),
        }
    }
}

/// What resolving one dynamic gives.
#[derive(Debug)]
pub enum Resolution {
    Value(JsonPP),
    Failed(EvalError),
    /// The dynamic waits for the caller's answer to this request.
    Request(Request),
}

/// The mathematical form of a `Resolution`.
pub enum Outcome {
    Value(Tree),
    Failed(EvalError),
    Request(Ask),
}

impl View for Resolution {
    type V = Outcome;

    open spec fn view(&self) -> Outcome {
        match self {
            Resolution::Value(v) => Outcome::Value(v@),
            Resolution::Failed(e) => Outcome::Failed(*e),
            Resolution::Request(r) => Outcome::Request(r@),
        }
    }
}

/// The bit pattern of `1.0`.
pub const ONE_BITS: u64 = 0x3FF0_0000_0000_0000;

/// A number operand.
pub open spec fn num_of(t: Tree) -> Option<Num> {
    match t {
        Tree::Int(i) => Some(Num::Int(i)),
        Tree::Float(f) => Some(Num::Float(f)),
        _ => None,
    }
}

/// Every element is a number operand.
pub open spec fn all_numeric(s: Seq<Tree>) -> bool {
    forall|i: int| 0 <= i < s.len() ==> (#[trigger] num_of(s[i])) is Some
}

/// The numbers of a sequence of number operands.
pub open spec fn nums(s: Seq<Tree>) -> Seq<Num> {
    s.map_values(|t: Tree| num_of(t).unwrap())
}

/// The largest `k` with `base^k <= v` (for `base >= 2`, `v >= 1`).
pub open spec fn ilog(base: int, v: int) -> nat
    decreases v
    via ilog_decreases
{
    if base < 2 || v < base {
        0
    } else {
        1 + ilog(base, v / base)
    }
}

#[via_fn]
proof fn ilog_decreases(base: int, v: int) {
    if !(base < 2 || v < base) {
        assert(0 <= v / base < v) by (nonlinear_arith)
            requires
                base >= 2,
                v >= base,
        ;
    }
}

/// `a` to the power `e`.
pub open spec fn power(a: int, e: nat) -> int
    decreases e,
{
    if e == 0 {
        1
    } else {
        a * power(a, (e - 1) as nat)
    }
}

/// `x` is in the range of `i64`.
pub open spec fn fits_i64(x: int) -> bool {
    i64::MIN <= x <= i64::MAX
}

/// Truncating integer division, as Rust's `/` on `i64`.
pub open spec fn trunc_div(a: int, b: int) -> int {
    if b == 0 {
        0
    } else if (a >= 0) == (b > 0) || a == 0 {
        if a >= 0 {
            a / b
        } else {
            (-a) / (-b)
        }
    } else if a < 0 {
        -((-a) / b)
    } else {
        -(a / (-b))
    }
}

/// Truncating remainder, as Rust's `%` on `i64`: it has the sign of `a`.
pub open spec fn trunc_rem(a: int, b: int) -> int {
    if a == 0 || b == 0 {
        0
    } else if a > 0 && b > 0 {
        a % b
    } else if a < 0 && b < 0 {
        -((-a) % (-b))
    } else if a < 0 {
        -((-a) % b)
    } else {
        a % (-b)
    }
}

/// One step of a fold on two integers.
pub open spec fn int_step(op: ArithOp, a: i64, b: i64) -> Result<i64, EvalError> {
    let r: int = match op {
        ArithOp::Sum => a + b,
        ArithOp::Sub => a - b,
        ArithOp::Mul => a * b,
        ArithOp::Div => trunc_div(a as int, b as int),
        ArithOp::Mod => trunc_rem(a as int, b as int),
        ArithOp::Pow => power(a as int, b as nat),
        ArithOp::Log => ilog(a as int, b as int) as int,
        ArithOp::Min => if a <= b { a as int } else { b as int },
        ArithOp::Max => if a >= b { a as int } else { b as int },
    };
    if (op is Div || op is Mod) && b == 0 {
        Err(EvalError::DivisionByZero)
    } else if op is Log && (a < 2 || b < 1) {
        Err(EvalError::InvalidOperand)
    } else if fits_i64(r) {
        Ok(r as i64)
    } else {
        Err(EvalError::InvalidOperand)
    }
}

/// The rest of a fold once it works in floating point: every operand must be a number,
/// and a logarithm must not have base one.
pub open spec fn float_fold(op: ArithOp, first: Num, rest: Seq<Tree>) -> Outcome {
    if !all_numeric(rest) {
        Outcome::Failed(EvalError::TypeMismatch)
    } else if op is Log && (first == Num::Int(1) || first == Num::Float(ONE_BITS)) {
        Outcome::Failed(EvalError::InvalidOperand)
    } else {
        Outcome::Request(Ask::FloatFold(op, seq![first] + nums(rest)))
    }
}

/// A left fold from the integer `acc` over `rest`: integer steps until the first float,
/// then the remainder in floating point.
pub open spec fn fold_from(op: ArithOp, acc: i64, rest: Seq<Tree>) -> Outcome
    decreases rest.len(),
{
    if rest.len() == 0 {
        Outcome::Value(Tree::Int(acc))
    } else {
        match rest[0] {
            Tree::Int(b) => if op is Pow && b < 0 {
                float_fold(op, Num::Int(acc), rest)
            } else {
                match int_step(op, acc, b) {
                    Ok(r) => fold_from(op, r, rest.drop_first()),
                    Err(e) => Outcome::Failed(e),
                }
            },
            Tree::Float(_) => float_fold(op, Num::Int(acc), rest),
            _ => Outcome::Failed(EvalError::TypeMismatch),
        }
    }
}

/// The numeric builtins: `sum`, `mul`, `min`, `max` take one or more operands, the others
/// exactly two. A single operand is the result when it is a number. `div` and `mod` by zero
/// fail. Two integers stay integral (`pow` with an exponent of zero or more is the exact
/// power); `pow` with a negative integer exponent, or any float, works in floating point.
pub open spec fn arith(op: ArithOp, args: Seq<Tree>) -> Outcome {
    let variadic = op is Sum || op is Mul || op is Min || op is Max;
    if (variadic && args.len() < 1) || (!variadic && args.len() != 2) {
        Outcome::Failed(EvalError::ArityMismatch)
    } else if (op is Div || op is Mod) && (args[1] == Tree::Int(0) || (args[1] matches Tree::Float(
        f,
    ) && crate::jsonpp::float_is_zero(f))) {
        Outcome::Failed(EvalError::DivisionByZero)
    } else if args.len() == 1 {
        if num_of(args[0]) is Some {
            Outcome::Value(args[0])
        } else {
            Outcome::Failed(EvalError::TypeMismatch)
        }
    } else {
        match args[0] {
            Tree::Int(a) => fold_from(op, a, args.drop_first()),
            Tree::Float(f) => float_fold(op, Num::Float(f), args.drop_first()),
            _ => Outcome::Failed(EvalError::TypeMismatch),
        }
    }
}

proof fn lemma_power_small(a: int, e: nat)
    requires
        -1 <= a <= 1,
    ensures
        a == 0 ==> power(a, e) == (if e == 0 { 1int } else { 0int }),
        a == 1 ==> power(a, e) == 1,
        a == -1 ==> power(a, e) == (if e % 2 == 0 { 1int } else { -1int }),
    decreases e,
{
    if e > 0 {
        lemma_power_small(a, (e - 1) as nat);
    }
}

proof fn lemma_power_grows(a: int, n: nat, m: nat)
    requires
        a <= -1 || a >= 1,
        n <= m,
    ensures
        abs(power(a, n)) <= abs(power(a, m)),
    decreases m,
{
    if n < m {
        lemma_power_grows(a, n, (m - 1) as nat);
        let x = power(a, (m - 1) as nat);
        assert(abs(a * x) >= abs(x)) by (nonlinear_arith)
            requires
                a <= -1 || a >= 1,
        ;
    }
}

/// Absolute value.
pub open spec fn abs(x: int) -> int {
    if x < 0 {
        -x
    } else {
        x
    }
}

/// `a` to the power `e` for `e >= 0`; `None` where it does not fit in `i64`.
fn checked_power(a: i64, e: i64) -> (r: Option<i64>)
    requires
        e >= 0,
    ensures
        r matches Some(x) ==> x == power(a as int, e as nat),
        r is None ==> !fits_i64(power(a as int, e as nat)),
{
    proof {
        if -1 <= a <= 1 {
            lemma_power_small(a as int, e as nat);
        }
    }
    if e == 0 {
        return Some(1);
    }
    if a == 0 {
        return Some(0);
    }
    if a == 1 {
        return Some(1);
    }
    if a == -1 {
        return if e % 2 == 0 {
            Some(1)
        } else {
            Some(-1)
        };
    }
    let mut result: i64 = 1;
    let mut k: i64 = 0;
    while k < e
        invariant
            0 <= k <= e,
            a <= -2 || a >= 2,
            result as int == power(a as int, k as nat),
        decreases e - k,
    {
        let ghost next = power(a as int, (k + 1) as nat);
        assert(next == result * a) by {
            assert(next == a * power(a as int, k as nat));
            assert(a * result == result * a) by (nonlinear_arith);
        }
        match result.checked_mul(a) {
            Some(x) => {
                result = x;
            },
            None => {
                proof {
                    if e > k + 1 {
                        let after = power(a as int, (k + 2) as nat);
                        assert(after == a * next);
                        assert(abs(after) >= 2 * abs(next)) by (nonlinear_arith)
                            requires
                                after == a * next,
                                a <= -2 || a >= 2,
                        ;
                        lemma_power_grows(a as int, (k + 2) as nat, e as nat);
                    }
                }
                return None;
            },
        }
        k = k + 1;
    }
    Some(result)
}

proof fn lemma_ilog_bounded(base: int, v: int)
    requires
        base >= 2,
        v >= 0,
    ensures
        ilog(base, v) <= v,
    decreases v,
{
    if v >= base {
        assert(0 <= v / base <= v / 2 && v / 2 + 1 <= v) by (nonlinear_arith)
            requires
                base >= 2,
                v >= base,
        ;
        lemma_ilog_bounded(base, v / base);
    }
}

/// `floor(log_base(v))` for `base >= 2`, `v >= 1`.
fn int_log(base: i64, v: i64) -> (r: i64)
    requires
        base >= 2,
        v >= 1,
    ensures
        r as int == ilog(base as int, v as int),
{
    let mut k: i64 = 0;
    let mut rest: i64 = v;
    proof {
        lemma_ilog_bounded(base as int, v as int);
    }
    while rest >= base
        invariant
            base >= 2,
            rest >= 1,
            0 <= k,
            k + ilog(base as int, rest as int) == ilog(base as int, v as int),
            ilog(base as int, v as int) <= v,
        decreases rest,
    {
        assert(rest / base < rest && rest / base >= 1) by (nonlinear_arith)
            requires
                base >= 2,
                rest >= base,
        ;
        rest = rest / base;
        k = k + 1;
    }
    k
}

/// One integer step of a numeric fold.
fn int_step_exec(op: ArithOp, a: i64, b: i64) -> (r: Result<i64, EvalError>)
    requires
        op is Pow ==> b >= 0,
    ensures
        r == int_step(op, a, b),
{
    match op {
        ArithOp::Sum => match a.checked_add(b) {
            Some(x) => Ok(x),
            None => Err(EvalError::InvalidOperand),
        },
        ArithOp::Sub => match a.checked_sub(b) {
            Some(x) => Ok(x),
            None => Err(EvalError::InvalidOperand),
        },
        ArithOp::Mul => match a.checked_mul(b) {
            Some(x) => Ok(x),
            None => Err(EvalError::InvalidOperand),
        },
        ArithOp::Div => {
            if b == 0 {
                return Err(EvalError::DivisionByZero);
            }
            match a.checked_div(b) {
                Some(x) => Ok(x),
                None => Err(EvalError::InvalidOperand),
            }
        },
        ArithOp::Mod => {
            if b == 0 {
                return Err(EvalError::DivisionByZero);
            }
            if b == -1 {
                return Ok(0);
            }
            match a.checked_rem(b) {
                Some(x) => Ok(x),
                None => Err(EvalError::InvalidOperand),
            }
        },
        ArithOp::Pow => match checked_power(a, b) {
            Some(x) => Ok(x),
            None => Err(EvalError::InvalidOperand),
        },
        ArithOp::Log => {
            if a < 2 || b < 1 {
                return Err(EvalError::InvalidOperand);
            }
            Ok(int_log(a, b))
        },
        ArithOp::Min => Ok(if a <= b { a } else { b }),
        ArithOp::Max => Ok(if a >= b { a } else { b }),
    }
}

/// The number operand, if `v` is one.
fn num_exec(v: &JsonPP) -> (r: Option<Num>)
    ensures
        r == num_of(v@),
{
    match v {
        JsonPP::Int(i) => Some(Num::Int(*i)),
        JsonPP::Float(f) => Some(Num::Float(*f)),
        _ => None,
    }
}

/// The floating-point rest of a fold (see `float_fold`).
fn float_fold_exec(op: ArithOp, first: Num, args: &Vec<JsonPP>, start: usize) -> (r: Resolution)
    requires
        start <= args@.len(),
    ensures
        r@ == float_fold(op, first, trees(args@).skip(start as int)),
{
    let ghost rest = trees(args@).skip(start as int);
    let mut ns: Vec<Num> = vec![first];
    let mut i: usize = start;
    while i < args.len()
        invariant
            start <= i <= args@.len(),
            rest == trees(args@).skip(start as int),
            ns@.len() == i - start + 1,
            ns@[0] == first,
            forall|j: int| 0 <= j < i - start ==> (#[trigger] num_of(rest[j])) is Some && ns@[j + 1]
                == num_of(rest[j]).unwrap(),
        decreases args@.len() - i,
    {
        match num_exec(&args[i]) {
            Some(n) => {
                ns.push(n);
            },
            None => {
                assert(num_of(rest[i - start]) is None);
                return Resolution::Failed(EvalError::TypeMismatch);
            },
        }
        i = i + 1;
    }
    assert(all_numeric(rest));
    if matches!(op, ArithOp::Log) && (first == Num::Int(1) || first == Num::Float(ONE_BITS)) {
        return Resolution::Failed(EvalError::InvalidOperand);
    }
    assert(ns@ =~= seq![first] + nums(rest));
    Resolution::Request(Request::FloatFold(op, ns))
}

/// A left fold from the integer `acc` over `args[start..]` (see `fold_from`).
fn fold_ints(op: ArithOp, first: i64, args: &Vec<JsonPP>, start: usize) -> (r: Resolution)
    requires
        start <= args@.len(),
    ensures
        r@ == fold_from(op, first, trees(args@).skip(start as int)),
{
    let mut acc: i64 = first;
    let mut i: usize = start;
    let ghost goal = fold_from(op, acc, trees(args@).skip(start as int));
    while i < args.len()
        invariant
            start <= i <= args@.len(),
            goal == fold_from(op, first, trees(args@).skip(start as int)),
            goal == fold_from(op, acc, trees(args@).skip(i as int)),
        decreases args@.len() - i,
    {
        let ghost rest = trees(args@).skip(i as int);
        assert(rest.drop_first() =~= trees(args@).skip(i + 1));
        assert(rest.len() > 0);
        assert(rest[0] == tree(args@[i as int]));
        assert(goal == fold_from(op, acc, rest));
        match &args[i] {
            JsonPP::Int(b) => {
                if matches!(op, ArithOp::Pow) && *b < 0 {
                    return float_fold_exec(op, Num::Int(acc), args, i);
                }
                match int_step_exec(op, acc, *b) {
                    Ok(x) => {
                        acc = x;
                    },
                    Err(e) => {
                        return Resolution::Failed(e);
                    },
                }
            },
            JsonPP::Float(_) => {
                return float_fold_exec(op, Num::Int(acc), args, i);
            },
            _ => {
                return Resolution::Failed(EvalError::TypeMismatch);
            },
        }
        i = i + 1;
    }
    assert(trees(args@).skip(i as int).len() == 0);
    Resolution::Value(JsonPP::Int(acc))
}

/// The numeric builtins (see `arith`).
pub fn num_reduce(op: ArithOp, args: &Vec<JsonPP>) -> (r: Resolution)
    ensures
        r@ == arith(op, trees(args@)),
{
    let variadic = matches!(op, ArithOp::Sum | ArithOp::Mul | ArithOp::Min | ArithOp::Max);
    if (variadic && args.len() < 1) || (!variadic && args.len() != 2) {
        return Resolution::Failed(EvalError::ArityMismatch);
    }
    if matches!(op, ArithOp::Div | ArithOp::Mod) {
        let zero = match &args[1] {
            JsonPP::Int(d) => *d == 0,
            JsonPP::Float(f) => *f == 0 || *f == 0x8000_0000_0000_0000u64,
            _ => false,
        };
        if zero {
            return Resolution::Failed(EvalError::DivisionByZero);
        }
    }
    if args.len() == 1 {
        return match &args[0] {
            JsonPP::Int(i) => Resolution::Value(JsonPP::Int(*i)),
            JsonPP::Float(f) => Resolution::Value(JsonPP::Float(*f)),
            _ => Resolution::Failed(EvalError::TypeMismatch),
        };
    }
    assert(trees(args@).drop_first() =~= trees(args@).skip(1));
    match &args[0] {
        JsonPP::Int(a) => fold_ints(op, *a, args, 1),
        JsonPP::Float(f) => float_fold_exec(op, Num::Float(*f), args, 1),
        _ => Resolution::Failed(EvalError::TypeMismatch),
    }
}

/// The comparisons `gt`, `lt`, `gte`, `lte`: two numbers; two integers compare exactly,
/// a float makes it a floating-point comparison.
pub open spec fn compare(op: CmpOp, args: Seq<Tree>) -> Outcome {
    if args.len() != 2 {
        Outcome::Failed(EvalError::ArityMismatch)
    } else {
        match (args[0], args[1]) {
            (Tree::Int(a), Tree::Int(b)) => Outcome::Value(
                Tree::Bool(
                    match op {
                        CmpOp::Gt => a > b,
                        CmpOp::Lt => a < b,
                        CmpOp::Gte => a >= b,
                        CmpOp::Lte => a <= b,
                    },
                ),
            ),
            _ => if num_of(args[0]) is Some && num_of(args[1]) is Some {
                Outcome::Request(
                    Ask::FloatCompare(op, num_of(args[0]).unwrap(), num_of(args[1]).unwrap()),
                )
            } else {
                Outcome::Failed(EvalError::TypeMismatch)
            },
        }
    }
}

/// The comparisons (see `compare`).
pub fn num_cmp(op: CmpOp, args: &Vec<JsonPP>) -> (r: Resolution)
    ensures
        r@ == compare(op, trees(args@)),
{
    if args.len() != 2 {
        return Resolution::Failed(EvalError::ArityMismatch);
    }
    match (&args[0], &args[1]) {
        (JsonPP::Int(a), JsonPP::Int(b)) => Resolution::Value(
            JsonPP::Bool(
                match op {
                    CmpOp::Gt => *a > *b,
                    CmpOp::Lt => *a < *b,
                    CmpOp::Gte => *a >= *b,
                    CmpOp::Lte => *a <= *b,
                },
            ),
        ),
        _ => match (num_exec(&args[0]), num_exec(&args[1])) {
            (Some(a), Some(b)) => Resolution::Request(Request::FloatCompare(op, a, b)),
            _ => Resolution::Failed(EvalError::TypeMismatch),
        },
    }
}

/// A float bit pattern that is NaN.
pub open spec fn float_is_nan(f: u64) -> bool {
    f % 0x8000_0000_0000_0000u64 > 0x7FF0_0000_0000_0000u64
}

/// `==` on two `f64`s given by their bit patterns: zeros of either sign are equal, NaN
/// equals nothing.
pub open spec fn float_eq(a: u64, b: u64) -> bool {
    (float_is_zero(a) && float_is_zero(b)) || (a == b && !float_is_nan(a))
}

/// Structural equality across all variants; object members compare by key, in any order.
pub open spec fn tree_eq(a: Tree, b: Tree) -> bool
    decreases a,
{
    match a {
        Tree::Undefined => b is Undefined,
        Tree::Null => b is Null,
        Tree::Bool(x) => b matches Tree::Bool(y) && x == y,
        Tree::Str(x) => b matches Tree::Str(y) && x == y,
        Tree::Int(x) => b matches Tree::Int(y) && x == y,
        Tree::Float(x) => b matches Tree::Float(y) && float_eq(x, y),
        Tree::Array(xs) => b matches Tree::Array(ys) && xs.len() == ys.len() && seq_eq(xs, ys),
        Tree::Object(xs) => b matches Tree::Object(ys) && xs.len() == ys.len() && members_in(xs, ys),
        Tree::Identifier(x) => b matches Tree::Identifier(y) && x == y,
        Tree::Definition(vx, tx) => b matches Tree::Definition(vy, ty) && vx == vy && tree_eq(
            *tx,
            *ty,
        ),
        Tree::Dynamic(ax, px, dx) => b matches Tree::Dynamic(ay, py, dy) && ax.len() == ay.len()
            && seq_eq(ax, ay) && px == py && dx == dy,
    }
}

/// Element-wise equality of the first `xs.len()` elements.
pub open spec fn seq_eq(xs: Seq<Tree>, ys: Seq<Tree>) -> bool
    decreases xs,
{
    if xs.len() == 0 {
        true
    } else {
        seq_eq(xs.drop_last(), ys) && tree_eq(xs.last(), ys[xs.len() - 1])
    }
}

/// Every member of `xs` has an equal member under its key in `ys`.
pub open spec fn members_in(xs: Seq<(Seq<char>, Tree)>, ys: Seq<(Seq<char>, Tree)>) -> bool
    decreases xs,
{
    if xs.len() == 0 {
        true
    } else {
        members_in(xs.drop_last(), ys) && match find_key(ys, xs.last().0) {
            Some(j) => tree_eq(xs.last().1, ys[j].1),
            None => false,
        }
    }
}

fn float_eq_exec(a: u64, b: u64) -> (r: bool)
    ensures
        r == float_eq(a, b),
{
    let za = a == 0 || a == 0x8000_0000_0000_0000u64;
    let zb = b == 0 || b == 0x8000_0000_0000_0000u64;
    (za && zb) || (a == b && a % 0x8000_0000_0000_0000u64 <= 0x7FF0_0000_0000_0000u64)
}

fn paths_eq(a: &Vec<Vec<PathChunk>>, b: &Vec<Vec<PathChunk>>) -> (r: bool)
    ensures
        r == (paths(a@) == paths(b@)),
{
    if a.len() != b.len() {
        assert(paths(a@).len() != paths(b@).len());
        return false;
    }
    let mut i: usize = 0;
    while i < a.len()
        invariant
            a@.len() == b@.len(),
            i <= a@.len(),
            forall|j: int| 0 <= j < i ==> paths(a@)[j] == paths(b@)[j],
        decreases a@.len() - i,
    {
        if !path_eq(a[i].as_slice(), b[i].as_slice()) {
            assert(paths(a@)[i as int] != paths(b@)[i as int]);
            return false;
        }
        i = i + 1;
    }
    assert(paths(a@) =~= paths(b@));
    true
}

fn texts_eq(a: &Vec<Vec<char>>, b: &Vec<Vec<char>>) -> (r: bool)
    ensures
        r == (texts(a@) == texts(b@)),
{
    if a.len() != b.len() {
        assert(texts(a@).len() != texts(b@).len());
        return false;
    }
    let mut i: usize = 0;
    while i < a.len()
        invariant
            a@.len() == b@.len(),
            i <= a@.len(),
            forall|j: int| 0 <= j < i ==> texts(a@)[j] == texts(b@)[j],
        decreases a@.len() - i,
    {
        if !text_eq(&a[i], &b[i]) {
            assert(texts(a@)[i as int] != texts(b@)[i as int]);
            return false;
        }
        i = i + 1;
    }
    assert(texts(a@) =~= texts(b@));
    true
}

/// Element-wise equality of two sequences of values of one length.
fn values_seq_eq(xs: &Vec<JsonPP>, ys: &Vec<JsonPP>) -> (r: bool)
    requires
        xs@.len() == ys@.len(),
    ensures
        r == seq_eq(trees(xs@), trees(ys@)),
    decreases xs, 0nat,
{
    let mut i: usize = 0;
    while i < xs.len()
        invariant
            xs@.len() == ys@.len(),
            i <= xs@.len(),
            seq_eq(trees(xs@).take(i as int), trees(ys@)),
        decreases xs@.len() - i,
    {
        proof {
            assert(decreases_to!(xs => xs[i as int]));
            assert(trees(xs@).take(i + 1).drop_last() =~= trees(xs@).take(i as int));
            lemma_trees(xs@);
            lemma_trees(ys@);
            assert(trees(xs@).take(i + 1).last() == trees(xs@)[i as int]);
        }
        if !values_equal(&xs[i], &ys[i]) {
            proof {
                lemma_seq_eq_prefix(trees(xs@), trees(ys@), i + 1);
            }
            return false;
        }
        i = i + 1;
    }
    assert(trees(xs@).take(i as int) =~= trees(xs@));
    true
}

proof fn lemma_seq_eq_prefix(xs: Seq<Tree>, ys: Seq<Tree>, k: int)
    requires
        0 <= k <= xs.len(),
        !seq_eq(xs.take(k), ys),
    ensures
        !seq_eq(xs, ys),
    decreases xs.len(),
{
    if k < xs.len() {
        assert(xs.drop_last().take(k) =~= xs.take(k));
        lemma_seq_eq_prefix(xs.drop_last(), ys, k);
    } else {
        assert(xs.take(k) =~= xs);
    }
}

proof fn lemma_members_in_prefix(xs: Seq<(Seq<char>, Tree)>, ys: Seq<(Seq<char>, Tree)>, k: int)
    requires
        0 <= k <= xs.len(),
        !members_in(xs.take(k), ys),
    ensures
        !members_in(xs, ys),
    decreases xs.len(),
{
    if k < xs.len() {
        assert(xs.drop_last().take(k) =~= xs.take(k));
        lemma_members_in_prefix(xs.drop_last(), ys, k);
    } else {
        assert(xs.take(k) =~= xs);
    }
}

/// Every member of `xs` has an equal member in `ys` (see `members_in`).
fn members_match(xs: &Vec<(Vec<char>, JsonPP)>, ys: &Vec<(Vec<char>, JsonPP)>) -> (r: bool)
    ensures
        r == members_in(members(xs@), members(ys@)),
    decreases xs, 0nat,
{
    let mut i: usize = 0;
    while i < xs.len()
        invariant
            i <= xs@.len(),
            members_in(members(xs@).take(i as int), members(ys@)),
        decreases xs@.len() - i,
    {
        proof {
            assert(decreases_to!(xs => xs[i as int]));
            assert(members(xs@).take(i + 1).drop_last() =~= members(xs@).take(i as int));
        }
        let ok = match member_index(ys, &xs[i].0) {
            Some(j) => values_equal(&xs[i].1, &ys[j].1),
            None => false,
        };
        if !ok {
            proof {
                lemma_members_in_prefix(members(xs@), members(ys@), i + 1);
            }
            return false;
        }
        i = i + 1;
    }
    assert(members(xs@).take(i as int) =~= members(xs@));
    true
}

/// Structural equality (see `tree_eq`).
pub fn values_equal(a: &JsonPP, b: &JsonPP) -> (r: bool)
    ensures
        r == tree_eq(a@, b@),
    decreases a, 1nat,
{
    match a {
        JsonPP::Undefined => match b {
            JsonPP::Undefined => true,
            _ => false,
        },
        JsonPP::Null => match b {
            JsonPP::Null => true,
            _ => false,
        },
        JsonPP::Bool(x) => match b {
            JsonPP::Bool(y) => *x == *y,
            _ => false,
        },
        JsonPP::String(x) => match b {
            JsonPP::String(y) => text_eq(x, y),
            _ => false,
        },
        JsonPP::Int(x) => match b {
            JsonPP::Int(y) => *x == *y,
            _ => false,
        },
        JsonPP::Float(x) => match b {
            JsonPP::Float(y) => {
                float_eq_exec(*x, *y)
            },
            _ => false,
        },
        JsonPP::Array(xs) => match b {
            JsonPP::Array(ys) => {
                proof {
                    lemma_trees(xs@);
                    lemma_trees(ys@);
                }
                let r = xs.len() == ys.len() && values_seq_eq(xs, ys);
                assert(r == tree_eq(a@, b@));
                r
            },
            _ => false,
        },
        JsonPP::Object(xs) => match b {
            JsonPP::Object(ys) => {
                proof {
                    lemma_members(xs@);
                    lemma_members(ys@);
                }
                let r = xs.len() == ys.len() && members_match(xs, ys);
                assert(r == tree_eq(a@, b@));
                r
            },
            _ => false,
        },
        JsonPP::Identifier(x) => match b {
            JsonPP::Identifier(y) => text_eq(x, y),
            _ => false,
        },
        JsonPP::Definition(x) => match b {
            JsonPP::Definition(y) => {
                let r = texts_eq(&x.vars, &y.vars) && values_equal(&x.template, &y.template);
                assert(r == tree_eq(a@, b@));
                r
            },
            _ => false,
        },
        JsonPP::Dynamic(x) => match b {
            JsonPP::Dynamic(y) => {
                proof {
                    lemma_trees(x.args@);
                    lemma_trees(y.args@);
                }
                let r = x.args.len() == y.args.len() && values_seq_eq(&x.args, &y.args) && path_eq(
                    x.path.as_slice(),
                    y.path.as_slice(),
                ) && paths_eq(&x.dependencies, &y.dependencies);
                assert(r == tree_eq(a@, b@));
                r
            },
            _ => false,
        },
    }
}

/// `if`: three operands; the condition is taken by its truth value. Both branches arrive
/// resolved; the unchosen one is dropped.
pub open spec fn if_spec(args: Seq<Tree>) -> Outcome {
    if args.len() != 3 {
        Outcome::Failed(EvalError::ArityMismatch)
    } else if truthy(args[0]) {
        Outcome::Value(args[1])
    } else {
        Outcome::Value(args[2])
    }
}

/// `if` (see `if_spec`).
pub fn if_impl(args: &Vec<JsonPP>) -> (r: Resolution)
    ensures
        r@ == if_spec(trees(args@)),
{
    if args.len() != 3 {
        return Resolution::Failed(EvalError::ArityMismatch);
    }
    if args[0].is_truthy() {
        Resolution::Value(copy_value(&args[1]))
    } else {
        Resolution::Value(copy_value(&args[2]))
    }
}

/// Bytes that UTF-8 takes for the character.
pub open spec fn char_utf8_len(c: char) -> nat {
    if (c as u32) < 0x80 {
        1
    } else if (c as u32) < 0x800 {
        2
    } else if (c as u32) < 0x10000 {
        3
    } else {
        4
    }
}

/// Bytes that UTF-8 takes for the text.
pub open spec fn utf8_len(s: Seq<char>) -> nat
    decreases s.len(),
{
    if s.len() == 0 {
        0
    } else {
        utf8_len(s.drop_last()) + char_utf8_len(s.last())
    }
}

/// A count as an integer value, where it fits.
pub open spec fn count_value(n: nat) -> Outcome {
    if n <= i64::MAX {
        Outcome::Value(Tree::Int(n as i64))
    } else {
        Outcome::Failed(EvalError::InvalidOperand)
    }
}

/// `len`: bytes of a string, elements of an array, members of an object.
pub open spec fn len_spec(args: Seq<Tree>) -> Outcome {
    if args.len() != 1 {
        Outcome::Failed(EvalError::ArityMismatch)
    } else {
        match args[0] {
            Tree::Str(s) => count_value(utf8_len(s)),
            Tree::Array(xs) => count_value(xs.len()),
            Tree::Object(ms) => count_value(ms.len()),
            _ => Outcome::Failed(EvalError::TypeMismatch),
        }
    }
}

#[verifier::loop_isolation(false)]
pub fn len_impl(args: &Vec<JsonPP>) -> (r: Resolution)
    ensures
        r@ == len_spec(trees(args@)),
{
    if args.len() != 1 {
        return Resolution::Failed(EvalError::ArityMismatch);
    }
    let n: usize = match &args[0] {
        JsonPP::String(s) => {
            let mut total: u64 = 0;
            let mut i: usize = 0;
            while i < s.len()
                invariant
                    i <= s@.len(),
                    total as nat == utf8_len(s@.take(i as int)),
                    total <= 0x7FFF_FFFF_FFFF_FFFF,
                decreases s@.len() - i,
            {
                let c = s[i];
                let code = c as u32;
                let w: u64 = if code < 0x80 {
                    1
                } else if code < 0x800 {
                    2
                } else if code < 0x10000 {
                    3
                } else {
                    4
                };
                assert(s@.take(i + 1).drop_last() =~= s@.take(i as int));
                assert(s@.take(i + 1).last() == c);
                assert(utf8_len(s@.take(i + 1)) == total + w);
                if total + w > 0x7FFF_FFFF_FFFF_FFFF {
                    proof {
                        lemma_utf8_len_prefix(s@, i + 1);
                    }
                    return Resolution::Failed(EvalError::InvalidOperand);
                }
                total = total + w;
                i = i + 1;
            }
            assert(s@.take(i as int) =~= s@);
            return Resolution::Value(JsonPP::Int(total as i64));
        },
        JsonPP::Array(xs) => {
            proof {
                lemma_trees(xs@);
            }
            xs.len()
        },
        JsonPP::Object(ms) => {
            proof {
                lemma_members(ms@);
            }
            ms.len()
        },
        _ => {
            return Resolution::Failed(EvalError::TypeMismatch);
        },
    };
    if n as u64 > 0x7FFF_FFFF_FFFF_FFFFu64 {
        return Resolution::Failed(EvalError::InvalidOperand);
    }
    Resolution::Value(JsonPP::Int(n as i64))
}

proof fn lemma_utf8_len_prefix(s: Seq<char>, k: int)
    requires
        0 <= k <= s.len(),
    ensures
        utf8_len(s.take(k)) <= utf8_len(s),
    decreases s.len(),
{
    if k < s.len() {
        assert(s.drop_last().take(k) =~= s.take(k));
        lemma_utf8_len_prefix(s.drop_last(), k);
    } else {
        assert(s.take(k) =~= s);
    }
}

/// `ref`: the value at the path that the reference string names, seen from `self_path`.
pub open spec fn ref_spec(args: Seq<Tree>, self_path: Seq<Chunk>, root: Tree) -> Outcome {
    if args.len() != 1 {
        Outcome::Failed(EvalError::ArityMismatch)
    } else {
        match args[0] {
            Tree::Str(s) => match ref_path(s) {
                None => Outcome::Failed(EvalError::InvalidOperand),
                Some(chain) => match fetch(absolute(self_path, chain), root) {
                    Some(v) => Outcome::Value(v),
                    None => Outcome::Failed(EvalError::DanglingReference),
                },
            },
            _ => Outcome::Failed(EvalError::TypeMismatch),
        }
    }
}

/// `ref` (see `ref_spec`).
pub fn ref_impl(args: &Vec<JsonPP>, self_path: &[PathChunk], root: &JsonPP) -> (r: Resolution)
    ensures
        r@ == ref_spec(trees(args@), path_view(self_path@), root@),
{
    if args.len() != 1 {
        return Resolution::Failed(EvalError::ArityMismatch);
    }
    match &args[0] {
        JsonPP::String(target) => match ref_chain(target) {
            None => Resolution::Failed(EvalError::InvalidOperand),
            Some(chain) => {
                let abs = make_absolute(self_path, chain.as_slice());
                match abs_fetch(abs.as_slice(), root) {
                    Some(v) => Resolution::Value(copy_value(v)),
                    None => Resolution::Failed(EvalError::DanglingReference),
                }
            },
        },
        _ => Resolution::Failed(EvalError::TypeMismatch),
    }
}

/// What `i64::from_str` accepts: an optional sign, then one or more ASCII digits whose
/// value fits in `i64`.
pub open spec fn parse_int(s: Seq<char>) -> Option<i64> {
    let signed = s.len() > 0 && (s[0] == '+' || s[0] == '-');
    let d = if signed { s.drop_first() } else { s };
    let v: int = if s.len() > 0 && s[0] == '-' { -digits_value(d) } else { digits_value(d) as int };
    if d.len() > 0 && all_digits(d) && fits_i64(v) {
        Some(v as i64)
    } else {
        None
    }
}

/// Reads an integer in the form `i64::from_str` accepts.
pub fn parse_i64(s: &Vec<char>) -> (r: Option<i64>)
    ensures
        r == parse_int(s@),
{
    let neg = s.len() > 0 && s[0] == '-';
    let start: usize = if s.len() > 0 && (s[0] == '+' || s[0] == '-') { 1 } else { 0 };
    let ghost d = if s@.len() > 0 && (s@[0] == '+' || s@[0] == '-') { s@.drop_first() } else { s@ };
    assert(d =~= s@.subrange(start as int, s@.len() as int));
    if start >= s.len() {
        return None;
    }
    let limit: u64 = 0x8000_0000_0000_0000;
    let mut value: u64 = 0;
    let mut i: usize = start;
    while i < s.len()
        invariant
            start <= i <= s@.len(),
            d == s@.subrange(start as int, s@.len() as int),
            d == (if s@.len() > 0 && (s@[0] == '+' || s@[0] == '-') { s@.drop_first() } else { s@ }),
            all_digits(s@.subrange(start as int, i as int)),
            value as nat == digits_value(s@.subrange(start as int, i as int)),
            value <= limit,
            limit == 0x8000_0000_0000_0000u64,
        decreases s@.len() - i,
    {
        let c = s[i];
        if c < '0' || c > '9' {
            assert(d[i - start] == c);
            assert(!all_digits(d));
            return None;
        }
        let digit: u64 = (c as u32 - '0' as u32) as u64;
        assert(s@.subrange(start as int, i + 1).drop_last() =~= s@.subrange(start as int, i as int));
        if value > (limit - digit) / 10 {
            proof {
                if all_digits(d) {
                    assert(d.take(i + 1 - start) =~= s@.subrange(start as int, i + 1));
                    crate::paths::lemma_digits_monotone(d, (i + 1 - start) as int);
                }
            }
            return None;
        }
        value = value * 10 + digit;
        i = i + 1;
        assert(all_digits(s@.subrange(start as int, i as int)));
    }
    assert(s@.subrange(start as int, i as int) =~= d);
    if neg {
        if value == limit {
            Some(i64::MIN)
        } else {
            Some(-(value as i64))
        }
    } else if value == limit {
        None
    } else {
        Some(value as i64)
    }
}

/// `int`: integers stay, `null` is 0, booleans are 0 or 1, a float is rounded, a string is
/// read as an integer.
pub open spec fn int_spec(args: Seq<Tree>) -> Outcome {
    if args.len() != 1 {
        Outcome::Failed(EvalError::ArityMismatch)
    } else {
        match args[0] {
            Tree::Int(i) => Outcome::Value(Tree::Int(i)),
            Tree::Null => Outcome::Value(Tree::Int(0)),
            Tree::Bool(b) => Outcome::Value(Tree::Int(if b { 1 } else { 0 })),
            Tree::Float(f) => Outcome::Request(Ask::RoundFloat(f)),
            Tree::Str(s) => match parse_int(s) {
                Some(i) => Outcome::Value(Tree::Int(i)),
                None => Outcome::Failed(EvalError::InvalidOperand),
            },
            _ => Outcome::Failed(EvalError::TypeMismatch),
        }
    }
}

/// `int` (see `int_spec`).
pub fn int_impl(args: &Vec<JsonPP>) -> (r: Resolution)
    ensures
        r@ == int_spec(trees(args@)),
{
    if args.len() != 1 {
        return Resolution::Failed(EvalError::ArityMismatch);
    }
    match &args[0] {
        JsonPP::Int(i) => Resolution::Value(JsonPP::Int(*i)),
        JsonPP::Null => Resolution::Value(JsonPP::Int(0)),
        JsonPP::Bool(b) => Resolution::Value(JsonPP::Int(if *b { 1 } else { 0 })),
        JsonPP::Float(f) => Resolution::Request(Request::RoundFloat(*f)),
        JsonPP::String(s) => match parse_i64(s) {
            Some(i) => Resolution::Value(JsonPP::Int(i)),
            None => Resolution::Failed(EvalError::InvalidOperand),
        },
        _ => Resolution::Failed(EvalError::TypeMismatch),
    }
}

/// `float`: floats stay, `null` is 0.0, booleans are 0.0 or 1.0, an integer is converted, a
/// string is read as a float.
pub open spec fn float_spec(args: Seq<Tree>) -> Outcome {
    if args.len() != 1 {
        Outcome::Failed(EvalError::ArityMismatch)
    } else {
        match args[0] {
            Tree::Float(f) => Outcome::Value(Tree::Float(f)),
            Tree::Null => Outcome::Value(Tree::Float(0)),
            Tree::Bool(b) => Outcome::Value(Tree::Float(if b { ONE_BITS } else { 0 })),
            Tree::Int(i) => Outcome::Request(Ask::IntToFloat(i)),
            Tree::Str(s) => Outcome::Request(Ask::ParseFloat(s)),
            _ => Outcome::Failed(EvalError::TypeMismatch),
        }
    }
}

/// `float` (see `float_spec`).
pub fn float_impl(args: &Vec<JsonPP>) -> (r: Resolution)
    ensures
        r@ == float_spec(trees(args@)),
{
    if args.len() != 1 {
        return Resolution::Failed(EvalError::ArityMismatch);
    }
    match &args[0] {
        JsonPP::Float(f) => Resolution::Value(JsonPP::Float(*f)),
        JsonPP::Null => Resolution::Value(JsonPP::Float(0)),
        JsonPP::Bool(b) => Resolution::Value(JsonPP::Float(if *b { ONE_BITS } else { 0 })),
        JsonPP::Int(i) => Resolution::Request(Request::IntToFloat(*i)),
        JsonPP::String(s) => Resolution::Request(Request::ParseFloat(copy_text(s))),
        _ => Resolution::Failed(EvalError::TypeMismatch),
    }
}

/// The integers from `a` up to, not including, `b`.
pub open spec fn range_seq(a: i64, b: i64) -> Seq<Tree> {
    Seq::new(if b > a { (b - a) as nat } else { 0 }, |i: int| Tree::Int((a + i) as i64))
}

/// `range`: two integers.
pub open spec fn range_spec(args: Seq<Tree>) -> Outcome {
    if args.len() != 2 {
        Outcome::Failed(EvalError::ArityMismatch)
    } else {
        match (args[0], args[1]) {
            (Tree::Int(a), Tree::Int(b)) => Outcome::Value(Tree::Array(range_seq(a, b))),
            _ => Outcome::Failed(EvalError::TypeMismatch),
        }
    }
}

#[verifier::loop_isolation(false)]
pub fn range_impl(args: &Vec<JsonPP>) -> (r: Resolution)
    ensures
        r@ == range_spec(trees(args@)),
{
    if args.len() != 2 {
        return Resolution::Failed(EvalError::ArityMismatch);
    }
    match (&args[0], &args[1]) {
        (JsonPP::Int(a), JsonPP::Int(b)) => {
            let mut out: Vec<JsonPP> = Vec::new();
            let mut k: i64 = *a;
            while k < *b
                invariant
                    *a <= k <= (if *b > *a { *b } else { *a }),
                    out@.len() == k - *a,
                    forall|j: int| 0 <= j < out@.len() ==> tree(#[trigger] out@[j]) == Tree::Int(
                        (*a + j) as i64,
                    ),
                decreases *b - k,
            {
                out.push(JsonPP::Int(k));
                k = k + 1;
            }
            assert(trees(out@) =~= range_seq(*a, *b));
            Resolution::Value(JsonPP::Array(out))
        },
        _ => Resolution::Failed(EvalError::TypeMismatch),
    }
}

/// `keys`: the keys of an object, as strings.
pub open spec fn keys_spec(args: Seq<Tree>) -> Outcome {
    if args.len() != 1 {
        Outcome::Failed(EvalError::ArityMismatch)
    } else {
        match args[0] {
            Tree::Object(ms) => Outcome::Value(
                Tree::Array(ms.map_values(|m: (Seq<char>, Tree)| Tree::Str(m.0))),
            ),
            _ => Outcome::Failed(EvalError::TypeMismatch),
        }
    }
}

#[verifier::loop_isolation(false)]
pub fn keys_impl(args: &Vec<JsonPP>) -> (r: Resolution)
    ensures
        r@ == keys_spec(trees(args@)),
{
    if args.len() != 1 {
        return Resolution::Failed(EvalError::ArityMismatch);
    }
    match &args[0] {
        JsonPP::Object(ms) => {
            let mut out: Vec<JsonPP> = Vec::new();
            let mut i: usize = 0;
            while i < ms.len()
                invariant
                    i <= ms@.len(),
                    out@.len() == i,
                    forall|j: int| 0 <= j < i ==> tree(#[trigger] out@[j]) == Tree::Str(ms@[j].0@),
                decreases ms@.len() - i,
            {
                out.push(JsonPP::String(copy_text(&ms[i].0)));
                i = i + 1;
            }
            assert(trees(out@) =~= members(ms@).map_values(|m: (Seq<char>, Tree)| Tree::Str(m.0)));
            Resolution::Value(JsonPP::Array(out))
        },
        _ => Resolution::Failed(EvalError::TypeMismatch),
    }
}

/// `values`: the member values of an object.
pub open spec fn values_spec(args: Seq<Tree>) -> Outcome {
    if args.len() != 1 {
        Outcome::Failed(EvalError::ArityMismatch)
    } else {
        match args[0] {
            Tree::Object(ms) => Outcome::Value(
                Tree::Array(ms.map_values(|m: (Seq<char>, Tree)| m.1)),
            ),
            _ => Outcome::Failed(EvalError::TypeMismatch),
        }
    }
}

#[verifier::loop_isolation(false)]
pub fn values_impl(args: &Vec<JsonPP>) -> (r: Resolution)
    ensures
        r@ == values_spec(trees(args@)),
{
    if args.len() != 1 {
        return Resolution::Failed(EvalError::ArityMismatch);
    }
    match &args[0] {
        JsonPP::Object(ms) => {
            let mut out: Vec<JsonPP> = Vec::new();
            let mut i: usize = 0;
            while i < ms.len()
                invariant
                    i <= ms@.len(),
                    out@.len() == i,
                    forall|j: int| 0 <= j < i ==> tree(#[trigger] out@[j]) == tree(ms@[j].1),
                decreases ms@.len() - i,
            {
                out.push(copy_value(&ms[i].1));
                i = i + 1;
            }
            assert(trees(out@) =~= members(ms@).map_values(|m: (Seq<char>, Tree)| m.1));
            Resolution::Value(JsonPP::Array(out))
        },
        _ => Resolution::Failed(EvalError::TypeMismatch),
    }
}

/// `include` and `import`: one string, the path of a file, handed to the caller.
pub open spec fn file_spec(args: Seq<Tree>, import: bool) -> Outcome {
    if args.len() != 1 {
        Outcome::Failed(EvalError::ArityMismatch)
    } else {
        match args[0] {
            Tree::Str(p) => Outcome::Request(if import { Ask::Import(p) } else { Ask::Include(p) }),
            _ => Outcome::Failed(EvalError::TypeMismatch),
        }
    }
}

/// `include`: asks the caller for the file's bytes (see `file_spec`).
pub fn include_impl(args: &Vec<JsonPP>) -> (r: Resolution)
    ensures
        r@ == file_spec(trees(args@), false),
{
    if args.len() != 1 {
        return Resolution::Failed(EvalError::ArityMismatch);
    }
    match &args[0] {
        JsonPP::String(p) => Resolution::Request(Request::Include(copy_text(p))),
        _ => Resolution::Failed(EvalError::TypeMismatch),
    }
}

/// `import`: asks the caller for the file's tree (see `file_spec`).
pub fn import_impl(args: &Vec<JsonPP>) -> (r: Resolution)
    ensures
        r@ == file_spec(trees(args@), true),
{
    if args.len() != 1 {
        return Resolution::Failed(EvalError::ArityMismatch);
    }
    match &args[0] {
        JsonPP::String(p) => Resolution::Request(Request::Import(copy_text(p))),
        _ => Resolution::Failed(EvalError::TypeMismatch),
    }
}

/// The names, where every element is an identifier.
pub open spec fn identifier_names(s: Seq<Tree>) -> Option<Seq<Seq<char>>>
    decreases s.len(),
{
    if s.len() == 0 {
        Some(Seq::empty())
    } else {
        match (identifier_names(s.drop_last()), s.last()) {
            (Some(ns), Tree::Identifier(n)) => Some(ns.push(n)),
            _ => None,
        }
    }
}

/// No two names are equal.
pub open spec fn distinct(s: Seq<Seq<char>>) -> bool {
    forall|i: int, j: int| 0 <= i < j < s.len() ==> s[i] != s[j]
}

/// `def`: the leading operands are distinct parameter names, the last one the template.
pub open spec fn def_spec(args: Seq<Tree>) -> Outcome {
    if args.len() < 2 {
        Outcome::Failed(EvalError::ArityMismatch)
    } else {
        match identifier_names(args.drop_last()) {
            None => Outcome::Failed(EvalError::TypeMismatch),
            Some(names) => if distinct(names) {
                Outcome::Value(Tree::Definition(names, Box::new(args.last())))
            } else {
                Outcome::Failed(EvalError::InvalidOperand)
            },
        }
    }
}

/// Whether no two texts are equal.
#[verifier::loop_isolation(false)]
fn texts_distinct(vars: &Vec<Vec<char>>) -> (r: bool)
    ensures
        r == distinct(texts(vars@)),
{
    let ghost ts = texts(vars@);
    let mut b: usize = 0;
    while b < vars.len()
        invariant
            b <= vars@.len(),
            ts == texts(vars@),
            forall|x: int, y: int| 0 <= x < y < b ==> ts[x] != ts[y],
        decreases vars@.len() - b,
    {
        let mut a: usize = 0;
        while a < b
            invariant
                a <= b < vars@.len(),
                forall|x: int, y: int| 0 <= x < y < b ==> ts[x] != ts[y],
                forall|x: int| 0 <= x < a ==> ts[x] != ts[b as int],
            decreases b - a,
        {
            if text_eq(&vars[a], &vars[b]) {
                assert(ts[a as int] == ts[b as int]);
                return false;
            }
            a = a + 1;
        }
        b = b + 1;
    }
    true
}

#[verifier::loop_isolation(false)]
pub fn def_impl(args: &Vec<JsonPP>) -> (r: Resolution)
    ensures
        r@ == def_spec(trees(args@)),
{
    if args.len() < 2 {
        return Resolution::Failed(EvalError::ArityMismatch);
    }
    let n = args.len() - 1;
    let ghost params = trees(args@).drop_last();
    let mut vars: Vec<Vec<char>> = Vec::new();
    let mut i: usize = 0;
    while i < n
        invariant
            n == args@.len() - 1,
            i <= n,
            params == trees(args@).drop_last(),
            identifier_names(params.take(i as int)) == Some(texts(vars@)),
        decreases n - i,
    {
        assert(params.take(i + 1).drop_last() =~= params.take(i as int));
        assert(params.take(i + 1).last() == tree(args@[i as int]));
        match &args[i] {
            JsonPP::Identifier(name) => {
                vars.push(copy_text(name));
                assert(texts(vars@) =~= texts(vars@.drop_last()).push(name@));
            },
            _ => {
                proof {
                    lemma_names_none_extends(params, i + 1);
                }
                return Resolution::Failed(EvalError::TypeMismatch);
            },
        }
        i = i + 1;
    }
    assert(params.take(n as int) =~= params);
    if !texts_distinct(&vars) {
        return Resolution::Failed(EvalError::InvalidOperand);
    }
    Resolution::Value(
        JsonPP::Definition(Definition { vars, template: Box::new(copy_value(&args[n])) }),
    )
}

proof fn lemma_names_none_extends(s: Seq<Tree>, k: int)
    requires
        0 <= k <= s.len(),
        identifier_names(s.take(k)) is None,
    ensures
        identifier_names(s) is None,
    decreases s.len(),
{
    if k < s.len() {
        assert(s.drop_last().take(k) =~= s.take(k));
        lemma_names_none_extends(s.drop_last(), k);
    } else {
        assert(s.take(k) =~= s);
    }
}

/// The new dynamic `(callable x)`.
pub open spec fn call_of(callable: Tree, x: Tree) -> Tree {
    Tree::Dynamic(seq![callable, x], Seq::empty(), Seq::empty())
}

/// The new dynamic `(if (callable x) x undefined)`.
pub open spec fn guard_of(callable: Tree, x: Tree) -> Tree {
    Tree::Dynamic(
        seq![Tree::Identifier("if"@), call_of(callable, x), x, Tree::Undefined],
        Seq::empty(),
        Seq::empty(),
    )
}

/// `map` (`keep` false) and `filter` (`keep` true): a container of the same shape whose
/// elements are new dynamics over the old elements.
pub open spec fn map_spec(args: Seq<Tree>, keep: bool) -> Outcome {
    if args.len() != 2 {
        Outcome::Failed(EvalError::ArityMismatch)
    } else {
        let c = args[0];
        let wrap = |x: Tree| if keep { guard_of(c, x) } else { call_of(c, x) };
        match args[1] {
            Tree::Array(xs) => Outcome::Value(Tree::Array(xs.map_values(wrap))),
            Tree::Object(ms) => Outcome::Value(
                Tree::Object(ms.map_values(|m: (Seq<char>, Tree)| (m.0, wrap(m.1)))),
            ),
            _ => Outcome::Failed(EvalError::TypeMismatch),
        }
    }
}

/// A new dynamic over `args`, with no path and no dependencies yet.
fn fresh_dynamic(args: Vec<JsonPP>) -> (r: JsonPP)
    ensures
        r@ == Tree::Dynamic(trees(args@), Seq::empty(), Seq::empty()),
{
    let path: Vec<PathChunk> = Vec::new();
    let dependencies: Vec<Vec<PathChunk>> = Vec::new();
    assert(path_view(path@) =~= Seq::<Chunk>::empty());
    assert(paths(dependencies@) =~= Seq::<Seq<Chunk>>::empty());
    JsonPP::Dynamic(Dynamic { args, path, dependencies })
}

fn call_exec(callable: &JsonPP, x: &JsonPP) -> (r: JsonPP)
    ensures
        r@ == call_of(callable@, x@),
{
    let args = vec![copy_value(callable), copy_value(x)];
    assert(trees(args@) =~= seq![callable@, x@]);
    fresh_dynamic(args)
}

fn wrap_exec(callable: &JsonPP, x: &JsonPP, keep: bool) -> (r: JsonPP)
    ensures
        r@ == (if keep { guard_of(callable@, x@) } else { call_of(callable@, x@) }),
{
    if keep {
        let head = JsonPP::Identifier(crate::jsonpp::text_of("if"));
        let args = vec![head, call_exec(callable, x), copy_value(x), JsonPP::Undefined];
        assert(trees(args@) =~= seq![
            Tree::Identifier("if"@),
            call_of(callable@, x@),
            x@,
            Tree::Undefined,
        ]);
        fresh_dynamic(args)
    } else {
        call_exec(callable, x)
    }
}

/// `map` and `filter` (see `map_spec`).
#[verifier::loop_isolation(false)]
pub fn map_impl(args: &Vec<JsonPP>, keep: bool) -> (r: Resolution)
    ensures
        r@ == map_spec(trees(args@), keep),
{
    if args.len() != 2 {
        return Resolution::Failed(EvalError::ArityMismatch);
    }
    let callable = &args[0];
    let ghost c = callable@;
    let ghost wrap = |x: Tree| if keep { guard_of(c, x) } else { call_of(c, x) };
    match &args[1] {
        JsonPP::Array(xs) => {
            let mut out: Vec<JsonPP> = Vec::new();
            let mut i: usize = 0;
            while i < xs.len()
                invariant
                    i <= xs@.len(),
                    out@.len() == i,
                    forall|j: int| 0 <= j < i ==> tree(#[trigger] out@[j]) == wrap(tree(xs@[j])),
                decreases xs@.len() - i,
            {
                out.push(wrap_exec(callable, &xs[i], keep));
                i = i + 1;
            }
            assert(trees(out@) =~= trees(xs@).map_values(wrap));
            Resolution::Value(JsonPP::Array(out))
        },
        JsonPP::Object(ms) => {
            let mut out: Vec<(Vec<char>, JsonPP)> = Vec::new();
            let mut i: usize = 0;
            while i < ms.len()
                invariant
                    i <= ms@.len(),
                    out@.len() == i,
                    forall|j: int|
                        0 <= j < i ==> (#[trigger] out@[j]).0@ == ms@[j].0@ && tree(out@[j].1)
                            == wrap(tree(ms@[j].1)),
                decreases ms@.len() - i,
            {
                out.push((copy_text(&ms[i].0), wrap_exec(callable, &ms[i].1, keep)));
                i = i + 1;
            }
            assert(members(out@) =~= members(ms@).map_values(
                |m: (Seq<char>, Tree)| (m.0, wrap(m.1)),
            ));
            Resolution::Value(JsonPP::Object(out))
        },
        _ => Resolution::Failed(EvalError::TypeMismatch),
    }
}

/// The left fold of new dynamics `(callable acc x)` over a non-empty sequence.
pub open spec fn reduce_fold(callable: Tree, xs: Seq<Tree>) -> Tree
    decreases xs.len(),
{
    if xs.len() <= 1 {
        xs[0]
    } else {
        Tree::Dynamic(
            seq![callable, reduce_fold(callable, xs.drop_last()), xs.last()],
            Seq::empty(),
            Seq::empty(),
        )
    }
}

/// `reduce`: an array folds into nested dynamics; an empty one is `undefined`.
pub open spec fn reduce_spec(args: Seq<Tree>) -> Outcome {
    if args.len() != 2 {
        Outcome::Failed(EvalError::ArityMismatch)
    } else {
        match args[1] {
            Tree::Array(xs) => Outcome::Value(
                if xs.len() == 0 {
                    Tree::Undefined
                } else {
                    reduce_fold(args[0], xs)
                },
            ),
            _ => Outcome::Failed(EvalError::TypeMismatch),
        }
    }
}

#[verifier::loop_isolation(false)]
pub fn reduce_impl(args: &Vec<JsonPP>) -> (r: Resolution)
    ensures
        r@ == reduce_spec(trees(args@)),
{
    if args.len() != 2 {
        return Resolution::Failed(EvalError::ArityMismatch);
    }
    let callable = &args[0];
    match &args[1] {
        JsonPP::Array(xs) => {
            if xs.len() == 0 {
                return Resolution::Value(JsonPP::Undefined);
            }
            let mut acc = copy_value(&xs[0]);
            let mut i: usize = 1;
            assert(trees(xs@).take(1).len() == 1);
            while i < xs.len()
                invariant
                    1 <= i <= xs@.len(),
                    acc@ == reduce_fold(callable@, trees(xs@).take(i as int)),
                decreases xs@.len() - i,
            {
                assert(trees(xs@).take(i + 1).drop_last() =~= trees(xs@).take(i as int));
                let args2 = vec![copy_value(callable), acc, copy_value(&xs[i])];
                assert(trees(args2@) =~= seq![
                    callable@,
                    reduce_fold(callable@, trees(xs@).take(i as int)),
                    tree(xs@[i as int]),
                ]);
                acc = fresh_dynamic(args2);
                i = i + 1;
            }
            assert(trees(xs@).take(i as int) =~= trees(xs@));
            Resolution::Value(acc)
        },
        _ => Resolution::Failed(EvalError::TypeMismatch),
    }
}

/// `m` written into `acc`: an existing key takes the new value, a new key is appended.
pub open spec fn upsert(acc: Seq<(Seq<char>, Tree)>, m: (Seq<char>, Tree)) -> Seq<(Seq<char>, Tree)> {
    match find_key(acc, m.0) {
        Some(j) => acc.update(j, m),
        None => acc.push(m),
    }
}

/// Each member of `ms` written into `acc` in order (see `upsert`).
pub open spec fn upsert_all(acc: Seq<(Seq<char>, Tree)>, ms: Seq<(Seq<char>, Tree)>) -> Seq<
    (Seq<char>, Tree),
>
    decreases ms.len(),
{
    if ms.len() == 0 {
        acc
    } else {
        upsert(upsert_all(acc, ms.drop_last()), ms.last())
    }
}

/// What `merge` makes of its operands, all of one kind.
pub open spec fn merged(args: Seq<Tree>) -> Tree
    decreases args.len(),
{
    if args.len() == 0 {
        Tree::Str(Seq::empty())
    } else if args.len() == 1 {
        match args[0] {
            Tree::Object(ms) => Tree::Object(upsert_all(Seq::empty(), ms)),
            t => t,
        }
    } else {
        let prev = merged(args.drop_last());
        match (prev, args.last()) {
            (Tree::Str(a), Tree::Str(b)) => Tree::Str(a + b),
            (Tree::Array(a), Tree::Array(b)) => Tree::Array(a + b),
            (Tree::Object(a), Tree::Object(b)) => Tree::Object(upsert_all(a, b)),
            _ => prev,
        }
    }
}

/// Every operand is a string.
pub open spec fn all_str(s: Seq<Tree>) -> bool {
    forall|i: int| 0 <= i < s.len() ==> #[trigger] s[i] is Str
}

/// Every operand is an array.
pub open spec fn all_array(s: Seq<Tree>) -> bool {
    forall|i: int| 0 <= i < s.len() ==> #[trigger] s[i] is Array
}

/// Every operand is an object.
pub open spec fn all_object(s: Seq<Tree>) -> bool {
    forall|i: int| 0 <= i < s.len() ==> #[trigger] s[i] is Object
}

/// `merge`: one or more strings, arrays or objects, all of one kind, concatenated; for
/// objects a later key wins.
pub open spec fn merge_spec(args: Seq<Tree>) -> Outcome {
    if args.len() == 0 {
        Outcome::Failed(EvalError::ArityMismatch)
    } else if all_str(args) || all_array(args) || all_object(args) {
        Outcome::Value(merged(args))
    } else {
        Outcome::Failed(EvalError::TypeMismatch)
    }
}

proof fn lemma_merged_kind(args: Seq<Tree>)
    requires
        args.len() > 0,
    ensures
        all_str(args) ==> merged(args) is Str,
        all_array(args) ==> merged(args) is Array,
        all_object(args) ==> merged(args) is Object,
    decreases args.len(),
{
    if args.len() > 1 {
        lemma_merged_kind(args.drop_last());
        assert(args.drop_last().len() > 0);
        assert(args.drop_last()[0] == args[0]);
        assert(all_str(args) ==> all_str(args.drop_last()));
        assert(all_array(args) ==> all_array(args.drop_last()));
        assert(all_object(args) ==> all_object(args.drop_last()));
    } else {
        assert(args.drop_last().len() == 0);
    }
}

/// Writes one member into `out` (see `upsert`).
pub fn upsert_exec(out: &mut Vec<(Vec<char>, JsonPP)>, key: &Vec<char>, value: &JsonPP)
    ensures
        members(final(out)@) == upsert(members(old(out)@), (key@, value@)),
{
    match member_index(out, key) {
        Some(j) => {
            let ghost before = out@;
            out.set(j, (copy_text(key), copy_value(value)));
            assert(members(out@) =~= members(before).update(j as int, (key@, value@)));
        },
        None => {
            out.push((copy_text(key), copy_value(value)));
            assert(members(out@).drop_last() =~= members(out@.drop_last()));
        },
    }
}

#[verifier::loop_isolation(false)]
pub fn merge_impl(args: &Vec<JsonPP>) -> (r: Resolution)
    ensures
        r@ == merge_spec(trees(args@)),
{
    if args.len() == 0 {
        return Resolution::Failed(EvalError::ArityMismatch);
    }
    let mut strs = true;
    let mut arrays = true;
    let mut objects = true;
    let mut i: usize = 0;
    while i < args.len()
        invariant
            i <= args@.len(),
            strs == all_str(trees(args@).take(i as int)),
            arrays == all_array(trees(args@).take(i as int)),
            objects == all_object(trees(args@).take(i as int)),
        decreases args@.len() - i,
    {
        let ghost before = trees(args@).take(i as int);
        let ghost after = trees(args@).take(i + 1);
        assert(after[i as int] == tree(args@[i as int]));
        assert(forall|j: int| 0 <= j < i ==> after[j] == before[j]);
        match &args[i] {
            JsonPP::String(_) => {
                arrays = false;
                objects = false;
            },
            JsonPP::Array(_) => {
                strs = false;
                objects = false;
            },
            JsonPP::Object(_) => {
                strs = false;
                arrays = false;
            },
            _ => {
                strs = false;
                arrays = false;
                objects = false;
            },
        }
        i = i + 1;
    }
    assert(trees(args@).take(i as int) =~= trees(args@));
    if !(strs || arrays || objects) {
        return Resolution::Failed(EvalError::TypeMismatch);
    }
    let ghost all = trees(args@);
    let mut out_str: Vec<char> = Vec::new();
    let mut out_arr: Vec<JsonPP> = Vec::new();
    let mut out_obj: Vec<(Vec<char>, JsonPP)> = Vec::new();
    let mut k: usize = 0;
    while k < args.len()
        invariant
            k <= args@.len(),
            all == trees(args@),
            strs ==> all_str(all),
            arrays ==> all_array(all),
            objects ==> all_object(all),
            strs || arrays || objects,
            k > 0 && strs ==> merged(all.take(k as int)) == Tree::Str(out_str@),
            k > 0 && arrays ==> merged(all.take(k as int)) == Tree::Array(trees(out_arr@)),
            k > 0 && objects ==> merged(all.take(k as int)) == Tree::Object(members(out_obj@)),
            k == 0 ==> out_str@.len() == 0 && out_arr@.len() == 0 && out_obj@.len() == 0,
        decreases args@.len() - k,
    {
        let ghost prefix = all.take(k + 1);
        assert(prefix.drop_last() =~= all.take(k as int));
        assert(prefix.last() == tree(args@[k as int]));
        proof {
            if k > 0 {
                lemma_merged_kind(all.take(k as int));
                assert(strs ==> all_str(all.take(k as int)));
                assert(arrays ==> all_array(all.take(k as int)));
                assert(objects ==> all_object(all.take(k as int)));
            }
        }
        match &args[k] {
            JsonPP::String(s) => {
                let mut j: usize = 0;
                let ghost start = out_str@;
                while j < s.len()
                    invariant
                        j <= s@.len(),
                        out_str@ == start + s@.take(j as int),
                    decreases s@.len() - j,
                {
                    out_str.push(s[j]);
                    j = j + 1;
                    assert(out_str@ =~= start + s@.take(j as int));
                }
                assert(s@.take(j as int) =~= s@);
                assert(k == 0 ==> start + s@ =~= s@);
            },
            JsonPP::Array(xs) => {
                let mut j: usize = 0;
                let ghost start = trees(out_arr@);
                while j < xs.len()
                    invariant
                        j <= xs@.len(),
                        trees(out_arr@) == start + trees(xs@).take(j as int),
                    decreases xs@.len() - j,
                {
                    let ghost old_arr = out_arr@;
                    proof {
                        lemma_trees(xs@);
                    }
                    let v = copy_value(&xs[j]);
                    out_arr.push(v);
                    assert(trees(out_arr@) =~= trees(old_arr).push(tree(xs@[j as int])));
                    assert(trees(xs@).take(j + 1) =~= trees(xs@).take(j as int).push(
                        tree(xs@[j as int]),
                    ));
                    j = j + 1;
                    assert(trees(out_arr@) =~= start + trees(xs@).take(j as int));
                }
                assert(trees(xs@).take(j as int) =~= trees(xs@));
                assert(k == 0 ==> start + trees(xs@) =~= trees(xs@));
            },
            JsonPP::Object(ms) => {
                let mut j: usize = 0;
                let ghost start = members(out_obj@);
                assert(k == 0 ==> start =~= Seq::<(Seq<char>, Tree)>::empty());
                while j < ms.len()
                    invariant
                        j <= ms@.len(),
                        members(out_obj@) == upsert_all(start, members(ms@).take(j as int)),
                    decreases ms@.len() - j,
                {
                    proof {
                        lemma_members(ms@);
                    }
                    assert(members(ms@).take(j + 1).drop_last() =~= members(ms@).take(j as int));
                    assert(members(ms@).take(j + 1).last() == (ms@[j as int].0@, tree(
                        ms@[j as int].1,
                    )));
                    upsert_exec(&mut out_obj, &ms[j].0, &ms[j].1);
                    j = j + 1;
                }
                assert(members(ms@).take(j as int) =~= members(ms@));
            },
            _ => {},
        }
        k = k + 1;
    }
    assert(all.take(k as int) =~= all);
    if strs {
        Resolution::Value(JsonPP::String(out_str))
    } else if arrays {
        Resolution::Value(JsonPP::Array(out_arr))
    } else {
        Resolution::Value(JsonPP::Object(out_obj))
    }
}

/// Index of the first occurrence of `f`.
pub open spec fn find_bits(bits: Seq<u64>, f: u64) -> Option<int>
    decreases bits.len(),
{
    if bits.len() == 0 {
        None
    } else {
        match find_bits(bits.drop_last(), f) {
            Some(i) => Some(i),
            None => if bits.last() == f {
                Some(bits.len() - 1)
            } else {
                None
            },
        }
    }
}

/// The text given for the float `f`: the one at its first position in `bits`.
pub open spec fn float_text(f: u64, bits: Seq<u64>, texts: Seq<Seq<char>>) -> Seq<char> {
    match find_bits(bits, f) {
        Some(j) => if j < texts.len() {
            texts[j]
        } else {
            Seq::empty()
        },
        None => Seq::empty(),
    }
}

/// The decimal digit of `d` (for `d < 10`).
pub open spec fn digit_char(d: nat) -> char {
    if d == 0 {
        '0'
    } else if d == 1 {
        '1'
    } else if d == 2 {
        '2'
    } else if d == 3 {
        '3'
    } else if d == 4 {
        '4'
    } else if d == 5 {
        '5'
    } else if d == 6 {
        '6'
    } else if d == 7 {
        '7'
    } else if d == 8 {
        '8'
    } else {
        '9'
    }
}

/// Decimal digits of `n`.
pub open spec fn nat_text(n: nat) -> Seq<char>
    decreases n,
{
    if n < 10 {
        seq![digit_char(n)]
    } else {
        nat_text(n / 10).push(digit_char(n % 10))
    }
}

/// Decimal form of `i`, with a leading `-` when negative.
pub open spec fn int_text(i: int) -> Seq<char> {
    if i < 0 {
        seq!['-'] + nat_text((-i) as nat)
    } else {
        nat_text(i as nat)
    }
}

/// The parts separated by `", "`.
pub open spec fn join(parts: Seq<Seq<char>>) -> Seq<char>
    decreases parts.len(),
{
    if parts.len() == 0 {
        Seq::empty()
    } else if parts.len() == 1 {
        parts[0]
    } else {
        join(parts.drop_last()) + ", "@ + parts.last()
    }
}

/// The human-readable text of a value, as `str` makes it: strings as they are, `null`,
/// `true`, `false`, decimal integers, floats as given, `[a, b]`, `{"k": v}`. `None` for
/// what has no text (undefined, identifiers, definitions, dynamics, at any depth).
pub open spec fn show(t: Tree, bits: Seq<u64>, texts: Seq<Seq<char>>) -> Option<Seq<char>>
    decreases t,
{
    match t {
        Tree::Str(s) => Some(s),
        Tree::Null => Some("null"@),
        Tree::Bool(b) => Some(if b { "true"@ } else { "false"@ }),
        Tree::Int(i) => Some(int_text(i as int)),
        Tree::Float(f) => Some(float_text(f, bits, texts)),
        Tree::Array(xs) => match show_all(xs, bits, texts) {
            Some(parts) => Some("["@ + join(parts) + "]"@),
            None => None,
        },
        Tree::Object(ms) => match show_members(ms, bits, texts) {
            Some(parts) => Some("{"@ + join(parts) + "}"@),
            None => None,
        },
        _ => None,
    }
}

/// The texts of the elements, where all have one.
pub open spec fn show_all(xs: Seq<Tree>, bits: Seq<u64>, texts: Seq<Seq<char>>) -> Option<
    Seq<Seq<char>>,
>
    decreases xs,
{
    if xs.len() == 0 {
        Some(Seq::empty())
    } else {
        match (show_all(xs.drop_last(), bits, texts), show(xs.last(), bits, texts)) {
            (Some(ps), Some(p)) => Some(ps.push(p)),
            _ => None,
        }
    }
}

/// The `"key": text` parts of the members, where all values have a text.
pub open spec fn show_members(
    ms: Seq<(Seq<char>, Tree)>,
    bits: Seq<u64>,
    texts: Seq<Seq<char>>,
) -> Option<Seq<Seq<char>>>
    decreases ms,
{
    if ms.len() == 0 {
        Some(Seq::empty())
    } else {
        match (show_members(ms.drop_last(), bits, texts), show(ms.last().1, bits, texts)) {
            (Some(ps), Some(p)) => Some(ps.push("\""@ + ms.last().0 + "\": "@ + p)),
            _ => None,
        }
    }
}

/// The floats of a value, in the order `show` meets them.
pub open spec fn floats_in(t: Tree) -> Seq<u64>
    decreases t,
{
    match t {
        Tree::Float(f) => seq![f],
        Tree::Array(xs) => floats_all(xs),
        Tree::Object(ms) => floats_members(ms),
        _ => Seq::empty(),
    }
}

/// The floats of the elements, in order.
pub open spec fn floats_all(xs: Seq<Tree>) -> Seq<u64>
    decreases xs,
{
    if xs.len() == 0 {
        Seq::empty()
    } else {
        floats_all(xs.drop_last()) + floats_in(xs.last())
    }
}

/// The floats of the member values, in order.
pub open spec fn floats_members(ms: Seq<(Seq<char>, Tree)>) -> Seq<u64>
    decreases ms,
{
    if ms.len() == 0 {
        Seq::empty()
    } else {
        floats_members(ms.drop_last()) + floats_in(ms.last().1)
    }
}

/// `str`: the text of the operand (see `show`). A value that holds floats first asks the
/// caller for their texts.
pub open spec fn str_spec(args: Seq<Tree>) -> Outcome {
    if args.len() != 1 {
        Outcome::Failed(EvalError::ArityMismatch)
    } else {
        match show(args[0], Seq::empty(), Seq::empty()) {
            None => Outcome::Failed(EvalError::TypeMismatch),
            Some(t) => if floats_in(args[0]).len() == 0 {
                Outcome::Value(Tree::Str(t))
            } else {
                Outcome::Request(Ask::FloatTexts(floats_in(args[0])))
            },
        }
    }
}

proof fn lemma_show_defined(t: Tree, b1: Seq<u64>, t1: Seq<Seq<char>>, b2: Seq<u64>, t2: Seq<Seq<char>>)
    ensures
        show(t, b1, t1) is Some <==> show(t, b2, t2) is Some,
    decreases t,
{
    match t {
        Tree::Array(xs) => lemma_show_all_defined(xs, b1, t1, b2, t2),
        Tree::Object(ms) => lemma_show_members_defined(ms, b1, t1, b2, t2),
        _ => {},
    }
}

proof fn lemma_show_all_defined(
    xs: Seq<Tree>,
    b1: Seq<u64>,
    t1: Seq<Seq<char>>,
    b2: Seq<u64>,
    t2: Seq<Seq<char>>,
)
    ensures
        show_all(xs, b1, t1) is Some <==> show_all(xs, b2, t2) is Some,
    decreases xs,
{
    if xs.len() > 0 {
        lemma_show_all_defined(xs.drop_last(), b1, t1, b2, t2);
        lemma_show_defined(xs.last(), b1, t1, b2, t2);
    }
}

proof fn lemma_show_members_defined(
    ms: Seq<(Seq<char>, Tree)>,
    b1: Seq<u64>,
    t1: Seq<Seq<char>>,
    b2: Seq<u64>,
    t2: Seq<Seq<char>>,
)
    ensures
        show_members(ms, b1, t1) is Some <==> show_members(ms, b2, t2) is Some,
    decreases ms,
{
    if ms.len() > 0 {
        lemma_show_members_defined(ms.drop_last(), b1, t1, b2, t2);
        lemma_show_defined(ms.last().1, b1, t1, b2, t2);
    }
}

/// Appends the characters of `s`.
pub fn append_text(out: &mut Vec<char>, s: &Vec<char>)
    ensures
        final(out)@ == old(out)@ + s@,
{
    let ghost start = out@;
    let mut i: usize = 0;
    while i < s.len()
        invariant
            i <= s@.len(),
            out@ == start + s@.take(i as int),
        decreases s@.len() - i,
    {
        out.push(s[i]);
        i = i + 1;
        assert(out@ =~= start + s@.take(i as int));
    }
    assert(s@.take(i as int) =~= s@);
}

/// Appends the characters of a literal.
fn append_word(out: &mut Vec<char>, word: &str)
    ensures
        final(out)@ == old(out)@ + word@,
{
    let w = crate::jsonpp::text_of(word);
    append_text(out, &w);
}

fn digit_exec(d: u64) -> (c: char)
    requires
        d < 10,
    ensures
        c == digit_char(d as nat),
{
    if d == 0 {
        '0'
    } else if d == 1 {
        '1'
    } else if d == 2 {
        '2'
    } else if d == 3 {
        '3'
    } else if d == 4 {
        '4'
    } else if d == 5 {
        '5'
    } else if d == 6 {
        '6'
    } else if d == 7 {
        '7'
    } else if d == 8 {
        '8'
    } else {
        '9'
    }
}

fn nat_text_exec(n: u64) -> (r: Vec<char>)
    ensures
        r@ == nat_text(n as nat),
    decreases n,
{
    if n < 10 {
        let r = vec![digit_exec(n)];
        assert(r@ =~= seq![digit_char(n as nat)]);
        r
    } else {
        let mut r = nat_text_exec(n / 10);
        r.push(digit_exec(n % 10));
        r
    }
}

/// Decimal text of an integer (see `int_text`).
pub fn int_text_exec(i: i64) -> (r: Vec<char>)
    ensures
        r@ == int_text(i as int),
{
    if i < 0 {
        let m: u64 = if i == i64::MIN {
            0x8000_0000_0000_0000u64
        } else {
            (-i) as u64
        };
        let mut r = vec!['-'];
        let digits = nat_text_exec(m);
        append_text(&mut r, &digits);
        assert(r@ =~= seq!['-'] + nat_text((-i) as nat));
        r
    } else {
        nat_text_exec(i as u64)
    }
}

/// Position of the first occurrence of `f` (see `find_bits`).
fn find_bits_exec(bits: &Vec<u64>, f: u64) -> (r: Option<usize>)
    ensures
        r matches Some(j) ==> find_bits(bits@, f) == Some(j as int),
        r is None ==> find_bits(bits@, f) is None,
{
    let mut i: usize = 0;
    while i < bits.len()
        invariant
            i <= bits@.len(),
            find_bits(bits@.take(i as int), f) is None,
        decreases bits@.len() - i,
    {
        assert(bits@.take(i + 1).drop_last() =~= bits@.take(i as int));
        if bits[i] == f {
            proof {
                lemma_find_bits_prefix(bits@, i + 1);
            }
            return Some(i);
        }
        i = i + 1;
    }
    assert(bits@.take(i as int) =~= bits@);
    None
}

proof fn lemma_find_bits_prefix(bits: Seq<u64>, k: int)
    requires
        0 <= k <= bits.len(),
        find_bits(bits.take(k), bits[k - 1]) is Some || k == 0,
    ensures
        k > 0 ==> find_bits(bits, bits[k - 1]) == find_bits(bits.take(k), bits[k - 1]),
    decreases bits.len(),
{
    if k < bits.len() && k > 0 {
        assert(bits.drop_last().take(k) =~= bits.take(k));
        lemma_find_bits_prefix(bits.drop_last(), k);
        assert(bits.drop_last()[k - 1] == bits[k - 1]);
    } else if k > 0 {
        assert(bits.take(k) =~= bits);
    }
}

/// Appends the text of an array (see `show`).
fn show_array(xs: &Vec<JsonPP>, bits: &Vec<u64>, texts: &Vec<Vec<char>>, out: &mut Vec<char>) -> (r:
    bool)
    ensures
        r == show(Tree::Array(trees(xs@)), bits@, crate::jsonpp::texts(texts@)) is Some,
        r ==> final(out)@ == old(out)@ + show(
            Tree::Array(trees(xs@)),
            bits@,
            crate::jsonpp::texts(texts@),
        ).unwrap(),
    decreases xs, 0nat,
{
    let ghost tx = crate::jsonpp::texts(texts@);
    let ghost start = out@;
    append_word(out, "[");
    let mut i: usize = 0;
    let ghost mut parts: Seq<Seq<char>> = Seq::empty();
    while i < xs.len()
        invariant
    i <= xs@.len(),
            tx == crate::jsonpp::texts(texts@),
            show_all(trees(xs@).take(i as int), bits@, tx) == Some(parts),
            out@ == start + "["@ + join(parts),
            parts.len() == i,
        decreases xs@.len() - i,
    {
        proof {
            assert(decreases_to!(xs => xs[i as int]));
            lemma_trees(xs@);
            assert(trees(xs@).take(i + 1).drop_last() =~= trees(xs@).take(i as int));
            assert(trees(xs@).take(i + 1).last() == tree(xs@[i as int]));
        }
        let ghost before = out@;
        if i > 0 {
            append_word(out, ", ");
        }
        let ghost mid = out@;
        if !show_exec(&xs[i], bits, texts, out) {
            proof {
                lemma_show_all_none_extends(trees(xs@), i + 1, bits@, tx);
            }
            return false;
        }
        proof {
            let p = show(tree(xs@[i as int]), bits@, tx).unwrap();
            let old_parts = parts;
            parts = parts.push(p);
            assert(parts.drop_last() =~= old_parts);
            if i == 0 {
                assert(join(parts) == p);
                assert(out@ =~= start + "["@ + join(parts));
            } else {
                assert(join(parts) == join(parts.drop_last()) + ", "@ + p);
                assert(out@ =~= start + "["@ + join(parts));
            }
        }
        i = i + 1;
    }
    append_word(out, "]");
    assert(trees(xs@).take(i as int) =~= trees(xs@));
    assert(out@ =~= start + ("["@ + join(parts) + "]"@));
    true
}

/// Appends the text of an object (see `show`).
fn show_object(
    ms: &Vec<(Vec<char>, JsonPP)>,
    bits: &Vec<u64>,
    texts: &Vec<Vec<char>>,
    out: &mut Vec<char>,
) -> (r: bool)
    ensures
        r == show(Tree::Object(members(ms@)), bits@, crate::jsonpp::texts(texts@)) is Some,
        r ==> final(out)@ == old(out)@ + show(
            Tree::Object(members(ms@)),
            bits@,
            crate::jsonpp::texts(texts@),
        ).unwrap(),
    decreases ms, 0nat,
{
    let ghost tx = crate::jsonpp::texts(texts@);
    let ghost start = out@;
    append_word(out, "{");
    let mut i: usize = 0;
    let ghost mut parts: Seq<Seq<char>> = Seq::empty();
    while i < ms.len()
        invariant
            i <= ms@.len(),
            tx == crate::jsonpp::texts(texts@),
            show_members(members(ms@).take(i as int), bits@, tx) == Some(parts),
            out@ == start + "{"@ + join(parts),
            parts.len() == i,
        decreases ms@.len() - i,
    {
        proof {
            assert(decreases_to!(ms => ms[i as int]));
            lemma_members(ms@);
            assert(members(ms@).take(i + 1).drop_last() =~= members(ms@).take(i as int));
            assert(members(ms@).take(i + 1).last() == (ms@[i as int].0@, tree(
                ms@[i as int].1,
            )));
        }
        if i > 0 {
            append_word(out, ", ");
        }
        let ghost mid = out@;
        append_word(out, "\"");
        append_text(out, &ms[i].0);
        append_word(out, "\": ");
        let ghost head = out@;
        if !show_exec(&ms[i].1, bits, texts, out) {
            proof {
                lemma_show_members_none_extends(members(ms@), i + 1, bits@, tx);
            }
            return false;
        }
        proof {
            let v = show(tree(ms@[i as int].1), bits@, tx).unwrap();
            let p = "\""@ + ms@[i as int].0@ + "\": "@ + v;
            assert(out@ =~= mid + p);
            let old_parts = parts;
            parts = parts.push(p);
            assert(parts.drop_last() =~= old_parts);
            if i == 0 {
                assert(join(parts) == p);
                assert(out@ =~= start + "{"@ + join(parts));
            } else {
                assert(join(parts) == join(parts.drop_last()) + ", "@ + p);
                assert(out@ =~= start + "{"@ + join(parts));
            }
        }
        i = i + 1;
    }
    append_word(out, "}");
    assert(members(ms@).take(i as int) =~= members(ms@));
    assert(out@ =~= start + ("{"@ + join(parts) + "}"@));
    true
}

/// Appends the text of `t` (see `show`); `false`, with `out` in any state, where it has none.
fn show_exec(t: &JsonPP, bits: &Vec<u64>, texts: &Vec<Vec<char>>, out: &mut Vec<char>) -> (r: bool)
    ensures
        r == show(t@, bits@, crate::jsonpp::texts(texts@)) is Some,
        r ==> final(out)@ == old(out)@ + show(t@, bits@, crate::jsonpp::texts(texts@)).unwrap(),
    decreases t, 1nat,
{
    let ghost tx = crate::jsonpp::texts(texts@);
    match t {
        JsonPP::String(s) => {
            append_text(out, s);
            true
        },
        JsonPP::Null => {
            append_word(out, "null");
            true
        },
        JsonPP::Bool(b) => {
            if *b {
                append_word(out, "true");
            } else {
                append_word(out, "false");
            }
            true
        },
        JsonPP::Int(i) => {
            let d = int_text_exec(*i);
            append_text(out, &d);
            true
        },
        JsonPP::Float(f) => {
            match find_bits_exec(bits, *f) {
                Some(j) => {
                    if j < texts.len() {
                        append_text(out, &texts[j]);
                    } else {
                        assert(out@ =~= out@ + Seq::<char>::empty());
                    }
                },
                None => {
                    assert(out@ =~= out@ + Seq::<char>::empty());
                },
            }
            true
        },
        JsonPP::Array(xs) => show_array(xs, bits, texts, out),
        JsonPP::Object(ms) => show_object(ms, bits, texts, out),
        _ => false,
    }
}

proof fn lemma_show_all_none_extends(xs: Seq<Tree>, k: int, bits: Seq<u64>, tx: Seq<Seq<char>>)
    requires
        0 <= k <= xs.len(),
        show_all(xs.take(k), bits, tx) is None,
    ensures
        show_all(xs, bits, tx) is None,
    decreases xs.len(),
{
    if k < xs.len() {
        assert(xs.drop_last().take(k) =~= xs.take(k));
        lemma_show_all_none_extends(xs.drop_last(), k, bits, tx);
    } else {
        assert(xs.take(k) =~= xs);
    }
}

proof fn lemma_show_members_none_extends(
    ms: Seq<(Seq<char>, Tree)>,
    k: int,
    bits: Seq<u64>,
    tx: Seq<Seq<char>>,
)
    requires
        0 <= k <= ms.len(),
        show_members(ms.take(k), bits, tx) is None,
    ensures
        show_members(ms, bits, tx) is None,
    decreases ms.len(),
{
    if k < ms.len() {
        assert(ms.drop_last().take(k) =~= ms.take(k));
        lemma_show_members_none_extends(ms.drop_last(), k, bits, tx);
    } else {
        assert(ms.take(k) =~= ms);
    }
}

/// Appends the floats of `t` in the order `show` meets them.
#[verifier::loop_isolation(false)]
fn collect_floats(t: &JsonPP, out: &mut Vec<u64>)
    ensures
        final(out)@ == old(out)@ + floats_in(t@),
    decreases t,
{
    match t {
        JsonPP::Float(f) => {
            out.push(*f);
            assert(out@ =~= old(out)@ + seq![*f]);
        },
        JsonPP::Array(xs) => {
            let ghost start = out@;
            let mut i: usize = 0;
            while i < xs.len()
                invariant
                    i <= xs@.len(),
                    out@ == start + floats_all(trees(xs@).take(i as int)),
                decreases xs@.len() - i,
            {
                proof {
                    assert(decreases_to!(xs => xs[i as int]));
                    lemma_trees(xs@);
                    assert(trees(xs@).take(i + 1).drop_last() =~= trees(xs@).take(i as int));
                    assert(trees(xs@).take(i + 1).last() == tree(xs@[i as int]));
                }
                collect_floats(&xs[i], out);
                i = i + 1;
                assert(out@ =~= start + floats_all(trees(xs@).take(i as int)));
            }
            assert(trees(xs@).take(i as int) =~= trees(xs@));
        },
        JsonPP::Object(ms) => {
            let ghost start = out@;
            let mut i: usize = 0;
            while i < ms.len()
                invariant
                    i <= ms@.len(),
                    out@ == start + floats_members(members(ms@).take(i as int)),
                decreases ms@.len() - i,
            {
                proof {
                    assert(decreases_to!(ms => ms[i as int]));
                    lemma_members(ms@);
                    assert(members(ms@).take(i + 1).drop_last() =~= members(ms@).take(i as int));
                    assert(members(ms@).take(i + 1).last() == (ms@[i as int].0@, tree(
                        ms@[i as int].1,
                    )));
                }
                collect_floats(&ms[i].1, out);
                i = i + 1;
                assert(out@ =~= start + floats_members(members(ms@).take(i as int)));
            }
            assert(members(ms@).take(i as int) =~= members(ms@));
        },
        _ => {
            assert(out@ =~= old(out)@ + Seq::<u64>::empty());
        },
    }
}

/// `str` (see `str_spec`).
pub fn str_impl(args: &Vec<JsonPP>) -> (r: Resolution)
    ensures
        r@ == str_spec(trees(args@)),
{
    if args.len() != 1 {
        return Resolution::Failed(EvalError::ArityMismatch);
    }
    let no_bits: Vec<u64> = Vec::new();
    let no_texts: Vec<Vec<char>> = Vec::new();
    let mut out: Vec<char> = Vec::new();
    assert(texts(no_texts@) =~= Seq::<Seq<char>>::empty());
    assert(no_bits@ =~= Seq::<u64>::empty());
    if !show_exec(&args[0], &no_bits, &no_texts, &mut out) {
        return Resolution::Failed(EvalError::TypeMismatch);
    }
    let mut floats: Vec<u64> = Vec::new();
    collect_floats(&args[0], &mut floats);
    assert(floats@ =~= floats_in(tree(args@[0])));
    if floats.len() == 0 {
        Resolution::Value(JsonPP::String(out))
    } else {
        Resolution::Request(Request::FloatTexts(floats))
    }
}

/// The text of `arg` once the caller has given the texts of its floats: `texts[j]` is the
/// text of `bits[j]`.
pub fn str_with_texts(arg: &JsonPP, bits: &Vec<u64>, texts: &Vec<Vec<char>>) -> (r: Resolution)
    ensures
        show(arg@, bits@, crate::jsonpp::texts(texts@)) matches Some(t) ==> r@ == Outcome::Value(
            Tree::Str(t),
        ),
        show(arg@, bits@, crate::jsonpp::texts(texts@)) is None ==> r@ == Outcome::Failed(
            EvalError::TypeMismatch,
        ),
{
    let mut out: Vec<char> = Vec::new();
    if show_exec(arg, bits, texts, &mut out) {
        assert(out@ =~= show(arg@, bits@, crate::jsonpp::texts(texts@)).unwrap());
        Resolution::Value(JsonPP::String(out))
    } else {
        Resolution::Failed(EvalError::TypeMismatch)
    }
}

/// `eq`: two operands, compared structurally.
pub open spec fn eq_spec(args: Seq<Tree>) -> Outcome {
    if args.len() != 2 {
        Outcome::Failed(EvalError::ArityMismatch)
    } else {
        Outcome::Value(Tree::Bool(tree_eq(args[0], args[1])))
    }
}

/// `eq` (see `eq_spec`).
pub fn eq_impl(args: &Vec<JsonPP>) -> (r: Resolution)
    ensures
        r@ == eq_spec(trees(args@)),
{
    if args.len() != 2 {
        return Resolution::Failed(EvalError::ArityMismatch);
    }
    Resolution::Value(JsonPP::Bool(values_equal(&args[0], &args[1])))
}

/// What the builtin named `name` gives on `ops`, for a dynamic at `path` in `root`.
pub open spec fn builtin(name: Seq<char>, ops: Seq<Tree>, path: Seq<Chunk>, root: Tree) -> Outcome {
    if name == "sum"@ {
        arith(ArithOp::Sum, ops)
    } else if name == "sub"@ {
        arith(ArithOp::Sub, ops)
    } else if name == "mul"@ {
        arith(ArithOp::Mul, ops)
    } else if name == "div"@ {
        arith(ArithOp::Div, ops)
    } else if name == "mod"@ {
        arith(ArithOp::Mod, ops)
    } else if name == "pow"@ {
        arith(ArithOp::Pow, ops)
    } else if name == "log"@ {
        arith(ArithOp::Log, ops)
    } else if name == "min"@ {
        arith(ArithOp::Min, ops)
    } else if name == "max"@ {
        arith(ArithOp::Max, ops)
    } else if name == "len"@ {
        len_spec(ops)
    } else if name == "ref"@ {
        ref_spec(ops, path, root)
    } else if name == "eq"@ {
        eq_spec(ops)
    } else if name == "gt"@ {
        compare(CmpOp::Gt, ops)
    } else if name == "lt"@ {
        compare(CmpOp::Lt, ops)
    } else if name == "gte"@ {
        compare(CmpOp::Gte, ops)
    } else if name == "lte"@ {
        compare(CmpOp::Lte, ops)
    } else if name == "if"@ {
        if_spec(ops)
    } else if name == "include"@ {
        file_spec(ops, false)
    } else if name == "import"@ {
        file_spec(ops, true)
    } else if name == "str"@ {
        str_spec(ops)
    } else if name == "int"@ {
        int_spec(ops)
    } else if name == "float"@ {
        float_spec(ops)
    } else if name == "range"@ {
        range_spec(ops)
    } else if name == "merge"@ {
        merge_spec(ops)
    } else if name == "def"@ {
        def_spec(ops)
    } else if name == "map"@ {
        map_spec(ops, false)
    } else if name == "filter"@ {
        map_spec(ops, true)
    } else if name == "reduce"@ {
        reduce_spec(ops)
    } else if name == "keys"@ {
        keys_spec(ops)
    } else if name == "values"@ {
        values_spec(ops)
    } else {
        Outcome::Failed(EvalError::UnknownFunction)
    }
}

/// Resolving a dynamic whose operands are final: a builtin named by its head identifier,
/// or the substitution of a definition at its head.
pub open spec fn apply(args: Seq<Tree>, path: Seq<Chunk>, root: Tree) -> Outcome {
    if args.len() == 0 {
        Outcome::Failed(EvalError::ArityMismatch)
    } else {
        let ops = args.drop_first();
        match args[0] {
            Tree::Identifier(name) => builtin(name, ops, path, root),
            Tree::Definition(vars, template) => if vars.len() == ops.len() {
                Outcome::Value(crate::substitution::subst(*template, vars, ops))
            } else {
                Outcome::Failed(EvalError::ArityMismatch)
            },
            _ => Outcome::Failed(EvalError::TypeMismatch),
        }
    }
}

/// The operands of a dynamic: its arguments after the head.
pub fn operands_of(args: &Vec<JsonPP>) -> (r: Vec<JsonPP>)
    requires
        args@.len() > 0,
    ensures
        trees(r@) == trees(args@).drop_first(),
{
    let mut r: Vec<JsonPP> = Vec::new();
    let mut i: usize = 1;
    while i < args.len()
        invariant
            1 <= i <= args@.len(),
            r@.len() == i - 1,
            forall|j: int| 0 <= j < i - 1 ==> tree(#[trigger] r@[j]) == tree(args@[j + 1]),
        decreases args@.len() - i,
    {
        r.push(copy_value(&args[i]));
        i = i + 1;
    }
    assert(trees(r@) =~= trees(args@).drop_first());
    r
}

fn builtin_exec(name: &Vec<char>, ops: &Vec<JsonPP>, path: &[PathChunk], root: &JsonPP) -> (r:
    Resolution)
    ensures
        r@ == builtin(name@, trees(ops@), path_view(path@), root@),
{
    if crate::jsonpp::text_is(name, "sum") {
        num_reduce(ArithOp::Sum, ops)
    } else if crate::jsonpp::text_is(name, "sub") {
        num_reduce(ArithOp::Sub, ops)
    } else if crate::jsonpp::text_is(name, "mul") {
        num_reduce(ArithOp::Mul, ops)
    } else if crate::jsonpp::text_is(name, "div") {
        num_reduce(ArithOp::Div, ops)
    } else if crate::jsonpp::text_is(name, "mod") {
        num_reduce(ArithOp::Mod, ops)
    } else if crate::jsonpp::text_is(name, "pow") {
        num_reduce(ArithOp::Pow, ops)
    } else if crate::jsonpp::text_is(name, "log") {
        num_reduce(ArithOp::Log, ops)
    } else if crate::jsonpp::text_is(name, "min") {
        num_reduce(ArithOp::Min, ops)
    } else if crate::jsonpp::text_is(name, "max") {
        num_reduce(ArithOp::Max, ops)
    } else if crate::jsonpp::text_is(name, "len") {
        len_impl(ops)
    } else if crate::jsonpp::text_is(name, "ref") {
        ref_impl(ops, path, root)
    } else if crate::jsonpp::text_is(name, "eq") {
        eq_impl(ops)
    } else if crate::jsonpp::text_is(name, "gt") {
        num_cmp(CmpOp::Gt, ops)
    } else if crate::jsonpp::text_is(name, "lt") {
        num_cmp(CmpOp::Lt, ops)
    } else if crate::jsonpp::text_is(name, "gte") {
        num_cmp(CmpOp::Gte, ops)
    } else if crate::jsonpp::text_is(name, "lte") {
        num_cmp(CmpOp::Lte, ops)
    } else if crate::jsonpp::text_is(name, "if") {
        if_impl(ops)
    } else if crate::jsonpp::text_is(name, "include") {
        include_impl(ops)
    } else if crate::jsonpp::text_is(name, "import") {
        import_impl(ops)
    } else if crate::jsonpp::text_is(name, "str") {
        str_impl(ops)
    } else if crate::jsonpp::text_is(name, "int") {
        int_impl(ops)
    } else if crate::jsonpp::text_is(name, "float") {
        float_impl(ops)
    } else if crate::jsonpp::text_is(name, "range") {
        range_impl(ops)
    } else if crate::jsonpp::text_is(name, "merge") {
        merge_impl(ops)
    } else if crate::jsonpp::text_is(name, "def") {
        def_impl(ops)
    } else if crate::jsonpp::text_is(name, "map") {
        map_impl(ops, false)
    } else if crate::jsonpp::text_is(name, "filter") {
        map_impl(ops, true)
    } else if crate::jsonpp::text_is(name, "reduce") {
        reduce_impl(ops)
    } else if crate::jsonpp::text_is(name, "keys") {
        keys_impl(ops)
    } else if crate::jsonpp::text_is(name, "values") {
        values_impl(ops)
    } else {
        Resolution::Failed(EvalError::UnknownFunction)
    }
}

impl Dynamic {
    /// Resolves this dynamic, whose operands are final, at `path` in `root` (see `apply`).
    pub fn resolve(&self, path: &[PathChunk], root: &JsonPP) -> (r: Resolution)
        ensures
            r@ == apply(trees(self.args@), path_view(path@), root@),
    {
        if self.args.len() == 0 {
            return Resolution::Failed(EvalError::ArityMismatch);
        }
        let ops = operands_of(&self.args);
        match &self.args[0] {
            JsonPP::Identifier(name) => builtin_exec(name, &ops, path, root),
            JsonPP::Definition(def) => match crate::substitution::definition_substitution(
                def,
                &ops,
            ) {
                Ok(v) => Resolution::Value(v),
                Err(e) => Resolution::Failed(e),
            },
            _ => Resolution::Failed(EvalError::TypeMismatch),
        }
    }
}

} // verus!
