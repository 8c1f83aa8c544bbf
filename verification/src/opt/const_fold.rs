//! Constant folding: evaluate a constant-operand computation at compile time.
//!
//! Where every operand of an operation is a [`Const`], the operation is
//! replaced by the constant it evaluates to — but **only when that evaluation
//! cannot trap**. A tuonelang integer operation traps deterministically on
//! overflow, on division/remainder by zero or `MIN`-over-`-1`, and on a shift
//! amount outside the operand's width; folding such an operation into a value
//! would erase an observable trap, so it is left exactly as it was.
//!
//! The fold arithmetic mirrors the reference interpreter: the same
//! two's-complement ranges and the same wrapping cast rule, so a folded
//! constant is the value the interpreter would have computed at run time.
//! Float arithmetic is folded by the host, which has IEEE 754 arithmetic;
//! float negation is the one float operation folded here, since it only
//! flips the sign bit.

use vstd::prelude::*;
use vstd::arithmetic::power2::pow2;
use crate::mir::{BasicBlock, BinOp, CastKind, Const, FloatKind, IntKind, Operand, Rvalue, Statement, TyRef, UnOp};

verus! {

/// The smallest value of an integer kind.
pub open spec fn int_min(kind: IntKind) -> int {
    match kind {
        IntKind::I8 => -0x80,
        IntKind::I16 => -0x8000,
        IntKind::I32 => -0x8000_0000,
        IntKind::I64 | IntKind::Isize => -0x8000_0000_0000_0000,
        IntKind::U8 | IntKind::U16 | IntKind::U32 | IntKind::U64 | IntKind::Usize => 0,
    }
}

/// The largest value of an integer kind.
pub open spec fn int_max(kind: IntKind) -> int {
    match kind {
        IntKind::I8 => 0x7f,
        IntKind::I16 => 0x7fff,
        IntKind::I32 => 0x7fff_ffff,
        IntKind::I64 | IntKind::Isize => 0x7fff_ffff_ffff_ffff,
        IntKind::U8 => 0xff,
        IntKind::U16 => 0xffff,
        IntKind::U32 => 0xffff_ffff,
        IntKind::U64 | IntKind::Usize => 0xffff_ffff_ffff_ffff,
    }
}

/// The width of an integer kind in bits.
pub open spec fn int_bits(kind: IntKind) -> int {
    match kind {
        IntKind::I8 | IntKind::U8 => 8,
        IntKind::I16 | IntKind::U16 => 16,
        IntKind::I32 | IntKind::U32 => 32,
        IntKind::I64 | IntKind::U64 | IntKind::Isize | IntKind::Usize => 64,
    }
}

/// Whether an integer kind is signed.
pub open spec fn int_signed(kind: IntKind) -> bool {
    match kind {
        IntKind::I8 | IntKind::I16 | IntKind::I32 | IntKind::I64 | IntKind::Isize => true,
        _ => false,
    }
}

/// `v` lies in the range of `kind`.
pub open spec fn in_range(v: int, kind: IntKind) -> bool {
    int_min(kind) <= v <= int_max(kind)
}

/// `v` wrapped into the width of `kind` (two's-complement truncation).
pub open spec fn wrap(v: int, kind: IntKind) -> int {
    let m = int_max(kind) - int_min(kind) + 1;
    let r = v % m;
    if r > int_max(kind) {
        r - m
    } else {
        r
    }
}

/// Division truncating toward zero.
pub open spec fn trunc_div(x: int, d: int) -> int {
    if x == 0 {
        0
    } else if x > 0 && d > 0 {
        x / d
    } else if x < 0 && d < 0 {
        (x * -1) / (d * -1)
    } else if x < 0 {
        ((x * -1) / d) * -1
    } else {
        (x / (d * -1)) * -1
    }
}

/// The remainder of truncating division: the sign of the dividend.
pub open spec fn trunc_rem(x: int, d: int) -> int {
    if x == 0 {
        0
    } else if x > 0 && d > 0 {
        x % d
    } else if x < 0 && d < 0 {
        ((x * -1) % (d * -1)) * -1
    } else if x < 0 {
        ((x * -1) % d) * -1
    } else {
        x % (d * -1)
    }
}

/// A constant's content: unit, a boolean, an integer of a kind, the bits of
/// a float, a character, a string, or a function symbol.
pub enum ConstModel {
    Unit,
    Bool(bool),
    Int(int, IntKind),
    Float(u64, crate::mir::FloatKind),
    Char(char),
    Str(Seq<char>),
    Fn(u32),
}

impl Const {
    /// The content of this constant.
    pub open spec fn model(&self) -> ConstModel {
        match self {
            Const::Unit => ConstModel::Unit,
            Const::Bool(b) => ConstModel::Bool(*b),
            Const::Int(v, k) => ConstModel::Int(*v as int, *k),
            Const::Float(bits, k) => ConstModel::Float(*bits, *k),
            Const::Char(c) => ConstModel::Char(*c),
            Const::Str(s) => ConstModel::Str(s@),
            Const::Fn(f) => ConstModel::Fn(*f),
        }
    }
}

/// Folding an integer operation: the constant it evaluates to, or `None`
/// where the operation would trap.
pub open spec fn fold_int_spec(op: BinOp, a: int, b: int, kind: IntKind) -> Option<ConstModel> {
    match op {
        BinOp::Add => if in_range(a + b, kind) {
            Some(ConstModel::Int(a + b, kind))
        } else {
            None
        },
        BinOp::Sub => if in_range(a - b, kind) {
            Some(ConstModel::Int(a - b, kind))
        } else {
            None
        },
        BinOp::Mul => if in_range(a * b, kind) {
            Some(ConstModel::Int(a * b, kind))
        } else {
            None
        },
        BinOp::Div => if b == 0 || (a == int_min(kind) && b == -1) {
            None
        } else {
            Some(ConstModel::Int(trunc_div(a, b), kind))
        },
        BinOp::Rem => if b == 0 || (a == int_min(kind) && b == -1) {
            None
        } else {
            Some(ConstModel::Int(trunc_rem(a, b), kind))
        },
        BinOp::Eq => Some(ConstModel::Bool(a == b)),
        BinOp::Ne => Some(ConstModel::Bool(a != b)),
        BinOp::Lt => Some(ConstModel::Bool(a < b)),
        BinOp::Le => Some(ConstModel::Bool(a <= b)),
        BinOp::Gt => Some(ConstModel::Bool(a > b)),
        BinOp::Ge => Some(ConstModel::Bool(a >= b)),
        BinOp::BitAnd => Some(ConstModel::Int(wrap((a as i128 & b as i128) as int, kind), kind)),
        BinOp::BitOr => Some(ConstModel::Int(wrap((a as i128 | b as i128) as int, kind), kind)),
        BinOp::BitXor => Some(ConstModel::Int(wrap((a as i128 ^ b as i128) as int, kind), kind)),
        BinOp::Shl => if b < 0 || b >= int_bits(kind) {
            None
        } else {
            Some(ConstModel::Int(wrap(a * pow2(b as nat), kind), kind))
        },
        BinOp::Shr => if b < 0 || b >= int_bits(kind) {
            None
        } else {
            Some(ConstModel::Int(wrap(a / (pow2(b as nat) as int), kind), kind))
        },
    }
}

/// The inclusive `[min, max]` range of an integer kind. `Isize`/`Usize` are
/// 64-bit, matching the interpreter's target-independent choice.
pub fn int_bounds(kind: IntKind) -> (r: (i128, i128))
    ensures
        r.0 == int_min(kind),
        r.1 == int_max(kind),
{
    match kind {
        IntKind::I8 => (-0x80, 0x7f),
        IntKind::I16 => (-0x8000, 0x7fff),
        IntKind::I32 => (-0x8000_0000, 0x7fff_ffff),
        IntKind::I64 | IntKind::Isize => (-0x8000_0000_0000_0000, 0x7fff_ffff_ffff_ffff),
        IntKind::U8 => (0, 0xff),
        IntKind::U16 => (0, 0xffff),
        IntKind::U32 => (0, 0xffff_ffff),
        IntKind::U64 | IntKind::Usize => (0, 0xffff_ffff_ffff_ffff),
    }
}

/// The width in bits of an integer kind — the shift-amount bound.
pub fn int_width_bits(kind: IntKind) -> (r: u32)
    ensures
        r == int_bits(kind),
{
    match kind {
        IntKind::I8 | IntKind::U8 => 8,
        IntKind::I16 | IntKind::U16 => 16,
        IntKind::I32 | IntKind::U32 => 32,
        IntKind::I64 | IntKind::U64 | IntKind::Isize | IntKind::Usize => 64,
    }
}

/// Wrap a value into an integer kind's width (two's-complement truncation),
/// matching an integer-to-integer cast.
pub fn wrap_int(value: i128, kind: IntKind) -> (r: i128)
    ensures
        r == wrap(value as int, kind),
        in_range(r as int, kind),
{
    let (min, max) = int_bounds(kind);
    let modulus: i128 = (max - min) + 1;
    let mut wrapped = match value.checked_rem_euclid(modulus) {
        Some(w) => w,
        None => 0,
    };
    if wrapped > max {
        wrapped = wrapped - modulus;
    }
    wrapped
}

/// `2^n` for a shift amount below 64.
fn pow2_i128(n: u32) -> (r: i128)
    requires
        n < 64,
    ensures
        r == pow2(n as nat),
        0 < r <= 0x8000_0000_0000_0000,
{
    let mut p: i128 = 1;
    let mut i: u32 = 0;
    proof {
        vstd::arithmetic::power2::lemma_pow2(0);
        vstd::arithmetic::power::lemma_pow0(2);
        vstd::arithmetic::power2::lemma2_to64();
        vstd::arithmetic::power2::lemma2_to64_rest();
    }
    while i < n
        invariant
            i <= n < 64,
            p == pow2(i as nat),
            0 < p <= pow2(63),
        decreases n - i,
    {
        proof {
            vstd::arithmetic::power2::lemma_pow2_unfold((i + 1) as nat);
            vstd::arithmetic::power2::lemma_pow2_strictly_increases((i + 1) as nat, 64);
            vstd::arithmetic::power2::lemma2_to64();
            vstd::arithmetic::power2::lemma2_to64_rest();
        }
        p = p * 2;
        i = i + 1;
    }
    proof {
        vstd::arithmetic::power2::lemma2_to64_rest();
    }
    p
}

/// Truncating division and remainder stay within the dividend's and the
/// divisor's magnitudes.
proof fn lemma_trunc_bounds(x: int, d: int)
    requires
        d != 0,
        -0x8000_0000_0000_0000 <= x <= 0xffff_ffff_ffff_ffff,
        -0x8000_0000_0000_0000 <= d <= 0xffff_ffff_ffff_ffff,
    ensures
        -0x1_0000_0000_0000_0000 <= trunc_div(x, d) <= 0x1_0000_0000_0000_0000,
        -0x1_0000_0000_0000_0000 <= trunc_rem(x, d) <= 0x1_0000_0000_0000_0000,
{
    let ax = if x < 0 { -x } else { x };
    let ad = if d < 0 { -d } else { d };
    assert(0 <= ax / ad <= ax) by (nonlinear_arith)
        requires
            ax >= 0,
            ad >= 1,
    ;
    assert(0 <= ax % ad < ad) by (nonlinear_arith)
        requires
            ax >= 0,
            ad >= 1,
    ;
    assert(ax == x * -1 || ax == x);
    assert(ad == d * -1 || ad == d);
}

/// Truncating division and remainder of two values of a kind stay in the
/// kind's range, except `MIN / -1`.
proof fn lemma_trunc_in_range(x: int, d: int, kind: IntKind)
    requires
        d != 0,
        in_range(x, kind),
        in_range(d, kind),
        !(x == int_min(kind) && d == -1),
    ensures
        in_range(trunc_div(x, d), kind),
        in_range(trunc_rem(x, d), kind),
{
    let lo = int_min(kind);
    let hi = int_max(kind);
    assert(lo <= 0 && hi >= 0 && (lo == 0 || lo == -hi - 1));
    let ax = if x < 0 { -x } else { x };
    let ad = if d < 0 { -d } else { d };
    assert(0 <= ax / ad <= ax) by (nonlinear_arith)
        requires
            ax >= 0,
            ad >= 1,
    ;
    assert(0 <= ax % ad < ad) by (nonlinear_arith)
        requires
            ax >= 0,
            ad >= 1,
    ;
    if ad == 1 {
        assert(ax / ad == ax) by (nonlinear_arith)
            requires
                ad == 1,
        ;
    } else {
        assert(ax / ad < ax || ax == 0) by (nonlinear_arith)
            requires
                ax >= 0,
                ad >= 2,
        ;
    }
    assert(ax == x * -1 || ax == x);
    assert(ad == d * -1 || ad == d);
}

/// Fold integer arithmetic/comparison, mirroring the interpreter's checked
/// semantics: any operation whose interpreter counterpart would trap folds
/// to `None`, leaving the operation in place so the trap still happens.
/// Both operands lie in their kinds' ranges; only a shift's amount may be of
/// another kind than `kind`.
pub fn fold_int_binary(op: BinOp, a: i128, b: i128, kind: IntKind) -> (r: Option<Const>)
    requires
        in_range(a as int, kind),
        (op is Shl || op is Shr) || in_range(b as int, kind),
        -0x8000_0000_0000_0000 <= b <= 0xffff_ffff_ffff_ffff,
    ensures
        match r {
            Some(c) => fold_int_spec(op, a as int, b as int, kind) == Some(c.model()),
            None => fold_int_spec(op, a as int, b as int, kind) is None,
        },
        r matches Some(Const::Int(v, k)) ==> k == kind && in_range(v as int, kind),
{
    let (min, max) = int_bounds(kind);
    match op {
        BinOp::Add => {
            let v = a + b;
            if min <= v && v <= max {
                Some(Const::Int(v, kind))
            } else {
                None
            }
        },
        BinOp::Sub => {
            let v = a - b;
            if min <= v && v <= max {
                Some(Const::Int(v, kind))
            } else {
                None
            }
        },
        BinOp::Mul => match a.checked_mul(b) {
            Some(v) => if min <= v && v <= max {
                Some(Const::Int(v, kind))
            } else {
                None
            },
            None => None,
        },
        BinOp::Div => {
            if b == 0 || (a == min && b == -1) {
                None
            } else {
                proof {
                    lemma_trunc_bounds(a as int, b as int);
                    lemma_trunc_in_range(a as int, b as int, kind);
                }
                match a.checked_div(b) {
                    Some(v) => Some(Const::Int(v, kind)),
                    None => None,
                }
            }
        },
        BinOp::Rem => {
            if b == 0 || (a == min && b == -1) {
                None
            } else {
                proof {
                    lemma_trunc_bounds(a as int, b as int);
                    lemma_trunc_in_range(a as int, b as int, kind);
                }
                match a.checked_rem(b) {
                    Some(v) => Some(Const::Int(v, kind)),
                    None => None,
                }
            }
        },
        BinOp::Eq => Some(Const::Bool(a == b)),
        BinOp::Ne => Some(Const::Bool(a != b)),
        BinOp::Lt => Some(Const::Bool(a < b)),
        BinOp::Le => Some(Const::Bool(a <= b)),
        BinOp::Gt => Some(Const::Bool(a > b)),
        BinOp::Ge => Some(Const::Bool(a >= b)),
        BinOp::BitAnd => Some(Const::Int(wrap_int(a & b, kind), kind)),
        BinOp::BitOr => Some(Const::Int(wrap_int(a | b, kind), kind)),
        BinOp::BitXor => Some(Const::Int(wrap_int(a ^ b, kind), kind)),
        BinOp::Shl => {
            let width = int_width_bits(kind) as i128;
            if b < 0 || b >= width {
                None
            } else {
                let p = pow2_i128(b as u32);
                proof {
                    let x = a as int;
                    let y = p as int;
                    assert(-0x8000_0000_0000_0000 <= x <= 0xffff_ffff_ffff_ffff);
                    assert(-0x4000_0000_0000_0000_0000_0000_0000_0000 <= x * y
                        <= 0x7fff_ffff_ffff_ffff_8000_0000_0000_0000) by (nonlinear_arith)
                        requires
                            -0x8000_0000_0000_0000 <= x <= 0xffff_ffff_ffff_ffff,
                            0 < y <= 0x8000_0000_0000_0000,
                    ;
                }
                match a.checked_mul(p) {
                    Some(v) => Some(Const::Int(wrap_int(v, kind), kind)),
                    None => None,
                }
            }
        },
        BinOp::Shr => {
            let width = int_width_bits(kind) as i128;
            if b < 0 || b >= width {
                None
            } else {
                let p = pow2_i128(b as u32);
                proof {
                    let x = a as int;
                    let y = p as int;
                    assert(-0x8000_0000_0000_0000 <= x / y <= 0xffff_ffff_ffff_ffff) by (nonlinear_arith)
                        requires
                            -0x8000_0000_0000_0000 <= x <= 0xffff_ffff_ffff_ffff,
                            0 < y,
                    ;
                }
                match a.checked_div_euclid(p) {
                    Some(v) => Some(Const::Int(wrap_int(v, kind), kind)),
                    None => None,
                }
            }
        },
    }
}

/// Folding a unary operation: the constant it evaluates to, or `None`
/// where it would trap or does not apply.
pub open spec fn fold_unary_spec(op: UnOp, c: ConstModel) -> Option<ConstModel> {
    match (op, c) {
        (UnOp::Not, ConstModel::Bool(v)) => Some(ConstModel::Bool(!v)),
        (UnOp::Neg, ConstModel::Int(v, k)) => if v != int_min(k) {
            Some(ConstModel::Int(-v, k))
        } else {
            None
        },
        (UnOp::Neg, ConstModel::Float(bits, k)) => Some(
            ConstModel::Float(bits ^ 0x8000_0000_0000_0000u64, k),
        ),
        (UnOp::BitNot, ConstModel::Int(v, k)) => Some(ConstModel::Int(wrap(!(v as i128) as int, k), k)),
        _ => None,
    }
}

/// Fold a unary op over a constant. Integer negation traps on the minimum
/// value, so it is not folded there; float negation flips the sign bit;
/// complementing never traps, so it always folds.
pub fn fold_unary(op: UnOp, operand: &Const) -> (r: Option<Const>)
    requires
        *operand matches Const::Int(v, k) ==> in_range(v as int, k),
    ensures
        match r {
            Some(c) => fold_unary_spec(op, operand.model()) == Some(c.model()),
            None => fold_unary_spec(op, operand.model()) is None,
        },
{
    match (op, operand) {
        (UnOp::Not, Const::Bool(value)) => Some(Const::Bool(!*value)),
        (UnOp::Neg, Const::Int(value, kind)) => {
            let (min, _max) = int_bounds(*kind);
            if *value != min {
                Some(Const::Int(-*value, *kind))
            } else {
                None
            }
        },
        (UnOp::Neg, Const::Float(bits, kind)) => Some(Const::Float(*bits ^ 0x8000_0000_0000_0000u64, *kind)),
        (UnOp::BitNot, Const::Int(value, kind)) => Some(Const::Int(wrap_int(!*value, *kind), *kind)),
        _ => None,
    }
}

/// Fold an integer-to-integer cast of a constant into `target`: casts never
/// trap, they wrap to the target width.
pub fn fold_int_cast(operand: &Const, target: IntKind) -> (r: Option<Const>)
    ensures
        match operand.model() {
            ConstModel::Int(v, _) => r matches Some(c) && c.model() == ConstModel::Int(wrap(v, target), target),
            _ => r is None,
        },
{
    match operand {
        Const::Int(value, _) => Some(Const::Int(wrap_int(*value, target), target)),
        _ => None,
    }
}

/// Folding a binary operation over two non-float constants.
pub open spec fn fold_binary_spec(op: BinOp, lhs: ConstModel, rhs: ConstModel) -> Option<ConstModel> {
    match (lhs, rhs) {
        (ConstModel::Int(a, ka), ConstModel::Int(b, _)) => fold_int_spec(op, a, b, ka),
        (ConstModel::Bool(a), ConstModel::Bool(b)) => match op {
            BinOp::Eq => Some(ConstModel::Bool(a == b)),
            BinOp::Ne => Some(ConstModel::Bool(a != b)),
            _ => None,
        },
        (ConstModel::Char(a), ConstModel::Char(b)) => match op {
            BinOp::Eq => Some(ConstModel::Bool(a == b)),
            BinOp::Ne => Some(ConstModel::Bool(a != b)),
            BinOp::Lt => Some(ConstModel::Bool((a as int) < (b as int))),
            BinOp::Le => Some(ConstModel::Bool((a as int) <= (b as int))),
            BinOp::Gt => Some(ConstModel::Bool((a as int) > (b as int))),
            BinOp::Ge => Some(ConstModel::Bool((a as int) >= (b as int))),
            _ => None,
        },
        _ => None,
    }
}

/// Fold a binary op over two constants that are not both floats (a float
/// pair is folded by the host's IEEE 754 arithmetic). Returns `None` when
/// the operation would trap (so the trap is preserved) or the operands are
/// not a foldable scalar pair. Integer operands lie in their kinds' ranges;
/// they share a kind except for a shift's amount.
pub fn fold_binary(op: BinOp, lhs: &Const, rhs: &Const) -> (r: Option<Const>)
    requires
        !(lhs is Float && rhs is Float),
        *lhs matches Const::Int(a, ka) ==> in_range(a as int, ka),
        *lhs matches Const::Int(_, ka) ==> (*rhs matches Const::Int(b, kb) ==> (in_range(b as int, kb)
            && (ka == kb || op is Shl || op is Shr))),
    ensures
        match r {
            Some(c) => fold_binary_spec(op, lhs.model(), rhs.model()) == Some(c.model()),
            None => fold_binary_spec(op, lhs.model(), rhs.model()) is None,
        },
{
    match (lhs, rhs) {
        (Const::Int(a, ka), Const::Int(b, _kb)) => fold_int_binary(op, *a, *b, *ka),
        (Const::Bool(a), Const::Bool(b)) => match op {
            BinOp::Eq => Some(Const::Bool(*a == *b)),
            BinOp::Ne => Some(Const::Bool(*a != *b)),
            _ => None,
        },
        (Const::Char(a), Const::Char(b)) => match op {
            BinOp::Eq => Some(Const::Bool(*a == *b)),
            BinOp::Ne => Some(Const::Bool(*a != *b)),
            BinOp::Lt => Some(Const::Bool(*a < *b)),
            BinOp::Le => Some(Const::Bool(*a <= *b)),
            BinOp::Gt => Some(Const::Bool(*a > *b)),
            BinOp::Ge => Some(Const::Bool(*a >= *b)),
            _ => None,
        },
        _ => None,
    }
}

/// The integer kind of a type, if it is an integer type.
pub fn int_kind(ty: &TyRef) -> (r: Option<IntKind>)
    ensures
        r == match *ty {
            TyRef::Int(k) => Some(k),
            _ => None::<IntKind>,
        },
{
    match ty {
        TyRef::Int(kind) => Some(*kind),
        _ => None,
    }
}

/// The float kind of a type, if it is a float type.
pub fn float_kind(ty: &TyRef) -> (r: Option<FloatKind>)
    ensures
        r == match *ty {
            TyRef::Float(k) => Some(k),
            _ => None::<FloatKind>,
        },
{
    match ty {
        TyRef::Float(kind) => Some(*kind),
        _ => None,
    }
}

/// The constant an operand reads, or `None` for a place read.
pub fn as_const(operand: &Operand) -> (r: Option<&Const>)
    ensures
        match *operand {
            Operand::Const(c) => r == Some(&c),
            _ => r is None,
        },
{
    match operand {
        Operand::Const(constant) => Some(constant),
        Operand::Copy(_) | Operand::Move(_) => None,
    }
}

// ---------------------------------------------------------------------------
// The pass.
// ---------------------------------------------------------------------------

/// The content of an optional constant.
pub open spec fn opt_model(c: Option<Const>) -> Option<ConstModel> {
    match c {
        Some(k) => Some(k.model()),
        None => None,
    }
}

/// A constant whose integer value, if any, lies in its kind's range.
pub open spec fn const_in_range(c: Const) -> bool {
    match c {
        Const::Int(v, k) => in_range(v as int, k),
        _ => true,
    }
}

/// Whether folding an rvalue takes IEEE 754 arithmetic, which the host does:
/// a binary operation on two float constants, or a cast of a constant into
/// or out of a float.
pub open spec fn host_fold(r: Rvalue) -> bool {
    match r {
        Rvalue::Binary { lhs: Operand::Const(Const::Float(..)), rhs: Operand::Const(Const::Float(..)), .. } => true,
        Rvalue::Cast { kind, operand: Operand::Const(_), .. } => !(kind is IntToInt),
        _ => false,
    }
}

/// Folding an rvalue, given what the host's float arithmetic gave for it:
/// a float computation folds to the host's result; an integer, boolean or
/// character computation over in-range constants folds as the fold rules
/// say (a binary integer pair only where the kinds agree or it is a shift);
/// an integer-to-integer cast wraps into an integer target; nothing else
/// folds.
pub open spec fn fold_rvalue_spec(r: Rvalue, host: Option<ConstModel>) -> Option<ConstModel> {
    if host_fold(r) {
        host
    } else {
        match r {
            Rvalue::Unary { op, operand: Operand::Const(c) } => if const_in_range(c) {
                fold_unary_spec(op, c.model())
            } else {
                None
            },
            Rvalue::Binary { op, lhs: Operand::Const(a), rhs: Operand::Const(b) } => if const_in_range(a)
                && const_in_range(b) && (match (a, b) {
                (Const::Int(_, ka), Const::Int(_, kb)) => ka == kb || op is Shl || op is Shr,
                _ => true,
            }) {
                fold_binary_spec(op, a.model(), b.model())
            } else {
                None
            },
            Rvalue::Cast { kind: CastKind::IntToInt, operand: Operand::Const(Const::Int(v, _)), to } => match to {
                TyRef::Int(k) => Some(ConstModel::Int(wrap(v as int, k), k)),
                _ => None,
            },
            _ => None,
        }
    }
}

/// A second constant with the same content.
pub fn copy_const(c: &Const) -> (r: Const)
    ensures
        r.model() == c.model(),
{
    match c {
        Const::Unit => Const::Unit,
        Const::Bool(b) => Const::Bool(*b),
        Const::Int(v, k) => Const::Int(*v, *k),
        Const::Float(bits, k) => Const::Float(*bits, *k),
        Const::Char(ch) => Const::Char(*ch),
        Const::Str(s) => Const::Str(s.clone()),
        Const::Fn(f) => Const::Fn(*f),
    }
}

/// Whether an integer constant lies in its kind's range.
fn in_kind_range(c: &Const) -> (r: bool)
    ensures
        r == const_in_range(*c),
{
    match c {
        Const::Int(v, k) => {
            let (min, max) = int_bounds(*k);
            min <= *v && *v <= max
        },
        _ => true,
    }
}

/// Whether folding `rvalue` takes the host's IEEE 754 arithmetic.
pub fn needs_host_fold(rvalue: &Rvalue) -> (r: bool)
    ensures
        r == host_fold(*rvalue),
{
    match rvalue {
        Rvalue::Binary { lhs, rhs, .. } => match (lhs, rhs) {
            (Operand::Const(Const::Float(..)), Operand::Const(Const::Float(..))) => true,
            _ => false,
        },
        Rvalue::Cast { kind, operand, .. } => match operand {
            Operand::Const(_) => !matches!(kind, CastKind::IntToInt),
            _ => false,
        },
        _ => false,
    }
}

/// Fold an rvalue to a single constant, or `None` if it is not a
/// constant-operand computation or the computation would trap. `host` is
/// what the host's float arithmetic gave for a float computation; it is
/// read for nothing else. String and heap operations, aggregates, and place
/// reads are never folded.
pub fn fold_rvalue(rvalue: &Rvalue, host: Option<&Const>) -> (r: Option<Const>)
    ensures
        opt_model(r) == fold_rvalue_spec(
            *rvalue,
            match host {
                Some(c) => Some(c.model()),
                None => None,
            },
        ),
{
    if needs_host_fold(rvalue) {
        return match host {
            Some(c) => Some(copy_const(c)),
            None => None,
        };
    }
    match rvalue {
        Rvalue::Unary { op, operand } => match operand {
            Operand::Const(c) => if in_kind_range(c) {
                fold_unary(*op, c)
            } else {
                None
            },
            _ => None,
        },
        Rvalue::Binary { op, lhs, rhs } => match (lhs, rhs) {
            (Operand::Const(a), Operand::Const(b)) => {
                if !in_kind_range(a) || !in_kind_range(b) {
                    return None;
                }
                let kinds_ok = match (a, b) {
                    (Const::Int(_, ka), Const::Int(_, kb)) => *ka == *kb || matches!(op, BinOp::Shl)
                        || matches!(op, BinOp::Shr),
                    _ => true,
                };
                if kinds_ok {
                    fold_binary(*op, a, b)
                } else {
                    None
                }
            },
            _ => None,
        },
        Rvalue::Cast { kind, operand, to } => match (kind, operand) {
            (CastKind::IntToInt, Operand::Const(c)) => match int_kind(to) {
                Some(k) => match c {
                    Const::Int(..) => fold_int_cast(c, k),
                    _ => None,
                },
                None => None,
            },
            _ => None,
        },
        _ => None,
    }
}

/// The host's result for statement `i` of block `b`, where the table has
/// one.
pub open spec fn host_at(host: Seq<Vec<Option<Const>>>, b: int, i: int) -> Option<ConstModel> {
    if 0 <= b < host.len() && 0 <= i < host[b]@.len() {
        opt_model(host[b]@[i])
    } else {
        None
    }
}

/// Whether a statement folds: an assignment whose rvalue folds.
pub open spec fn statement_folds(s: Statement, h: Option<ConstModel>) -> bool {
    match s {
        Statement::Assign { rvalue, .. } => fold_rvalue_spec(rvalue, h) is Some,
        _ => false,
    }
}

/// `new` is `old` with a folding assignment's rvalue replaced by the
/// constant it folds to, and otherwise `old` itself.
pub open spec fn folded_statement(old: Statement, new: Statement, h: Option<ConstModel>) -> bool {
    match old {
        Statement::Assign { place, rvalue } => match fold_rvalue_spec(rvalue, h) {
            Some(m) => match new {
                Statement::Assign { place: p2, rvalue: Rvalue::Use(Operand::Const(c)) } => p2 == place && c.model()
                    == m,
                _ => false,
            },
            None => new == old,
        },
        _ => new == old,
    }
}

/// Fold the statements of one block.
fn fold_statements(stmts: Vec<Statement>, host: &Vec<Option<Const>>) -> (r: (Vec<Statement>, bool))
    ensures
        r.0@.len() == stmts@.len(),
        forall|i: int|
            0 <= i < stmts@.len() ==> folded_statement(
                #[trigger] stmts@[i],
                r.0@[i],
                if i < host@.len() {
                    opt_model(host@[i])
                } else {
                    None
                },
            ),
        r.1 == exists|i: int|
            0 <= i < stmts@.len() && statement_folds(
                #[trigger] stmts@[i],
                if i < host@.len() {
                    opt_model(host@[i])
                } else {
                    None
                },
            ),
{
    let ghost orig = stmts@;
    let mut rest = stmts;
    let mut out: Vec<Statement> = Vec::new();
    let mut changed = false;
    let n = rest.len();
    let mut i: usize = 0;
    assert(orig.skip(0) =~= orig);
    while i < n
        invariant
            n == orig.len(),
            i <= n,
            rest@ == orig.skip(i as int),
            out@.len() == i,
            forall|j: int|
                0 <= j < i ==> folded_statement(
                    #[trigger] orig[j],
                    out@[j],
                    if j < host@.len() {
                        opt_model(host@[j])
                    } else {
                        None
                    },
                ),
            changed == exists|j: int|
                0 <= j < i && statement_folds(
                    #[trigger] orig[j],
                    if j < host@.len() {
                        opt_model(host@[j])
                    } else {
                        None
                    },
                ),
        decreases n - i,
    {
        let s = rest.remove(0);
        assert(s == orig[i as int]);
        assert(rest@ =~= orig.skip(i + 1));
        let h: Option<&Const> = if i < host.len() {
            match &host[i] {
                Some(c) => Some(c),
                None => None,
            }
        } else {
            None
        };
        let ghost hm = if i < host@.len() {
            opt_model(host@[i as int])
        } else {
            None
        };
        assert(hm == match h {
            Some(c) => Some(c.model()),
            None => None::<ConstModel>,
        });
        let ghost prev = changed;
        match s {
            Statement::Assign { place, rvalue } => {
                match fold_rvalue(&rvalue, h) {
                    Some(c) => {
                        out.push(Statement::Assign { place, rvalue: Rvalue::Use(Operand::Const(c)) });
                        changed = true;
                    },
                    None => {
                        out.push(Statement::Assign { place, rvalue });
                    },
                }
            },
            other => {
                out.push(other);
            },
        }
        proof {
            assert(folded_statement(orig[i as int], out@[i as int], hm));
            if statement_folds(orig[i as int], hm) {
                assert(changed);
            }
            if prev {
                let j0 = choose|j: int|
                    0 <= j < i && statement_folds(
                        #[trigger] orig[j],
                        if j < host@.len() {
                            opt_model(host@[j])
                        } else {
                            None
                        },
                    );
                assert(0 <= j0 < i + 1);
            }
        }
        i = i + 1;
    }
    (out, changed)
}

/// The constant-folding pass over a body: replace every assigned rvalue
/// that folds with the constant it evaluates to; report whether anything
/// changed. `host[b][i]` is what the host's float arithmetic gave for
/// statement `i` of block `b` (read only where that statement is a float
/// computation; a missing entry reads as no result).
pub fn const_fold(blocks: &mut Vec<BasicBlock<Statement>>, host: &Vec<Vec<Option<Const>>>) -> (changed: bool)
    ensures
        final(blocks)@.len() == old(blocks)@.len(),
        forall|b: int|
            0 <= b < old(blocks)@.len() ==> (#[trigger] final(blocks)@[b]).terminator == old(blocks)@[b].terminator
                && final(blocks)@[b].statements@.len() == old(blocks)@[b].statements@.len(),
        forall|b: int, i: int|
            0 <= b < old(blocks)@.len() && 0 <= i < old(blocks)@[b].statements@.len() ==> folded_statement(
                #[trigger] old(blocks)@[b].statements@[i],
                final(blocks)@[b].statements@[i],
                host_at(host@, b, i),
            ),
        changed == exists|b: int, i: int|
            0 <= b < old(blocks)@.len() && 0 <= i < old(blocks)@[b].statements@.len() && statement_folds(
                #[trigger] old(blocks)@[b].statements@[i],
                host_at(host@, b, i),
            ),
{
    let ghost orig = blocks@;
    let mut rest: Vec<BasicBlock<Statement>> = Vec::new();
    std::mem::swap(&mut rest, blocks);
    let n = rest.len();
    let mut out: Vec<BasicBlock<Statement>> = Vec::new();
    let mut changed = false;
    let empty: Vec<Option<Const>> = Vec::new();
    let mut b: usize = 0;
    assert(orig.skip(0) =~= orig);
    while b < n
        invariant
            n == orig.len(),
            b <= n,
            empty@.len() == 0,
            rest@ == orig.skip(b as int),
            out@.len() == b,
            forall|c: int|
                0 <= c < b ==> (#[trigger] out@[c]).terminator == orig[c].terminator
                    && out@[c].statements@.len() == orig[c].statements@.len(),
            forall|c: int, i: int|
                0 <= c < b && 0 <= i < orig[c].statements@.len() ==> folded_statement(
                    #[trigger] orig[c].statements@[i],
                    out@[c].statements@[i],
                    host_at(host@, c, i),
                ),
            changed == exists|c: int, i: int|
                0 <= c < b && 0 <= i < orig[c].statements@.len() && statement_folds(
                    #[trigger] orig[c].statements@[i],
                    host_at(host@, c, i),
                ),
        decreases n - b,
    {
        let block = rest.remove(0);
        assert(block == orig[b as int]);
        assert(rest@ =~= orig.skip(b + 1));
        let row: &Vec<Option<Const>> = if b < host.len() {
            &host[b]
        } else {
            &empty
        };
        let BasicBlock { statements, terminator } = block;
        let ghost st = statements@;
        let (folded, any) = fold_statements(statements, row);
        proof {
            assert forall|i: int| 0 <= i < st.len() implies (if i < row@.len() {
                opt_model(row@[i])
            } else {
                None
            }) == host_at(host@, b as int, i) by {}
        }
        let ghost prev = changed;
        out.push(BasicBlock { statements: folded, terminator });
        if any {
            changed = true;
        }
        proof {
            assert(out@[b as int].statements == folded);
            if any {
                let i0 = choose|i: int|
                    0 <= i < st.len() && statement_folds(
                        #[trigger] st[i],
                        if i < row@.len() {
                            opt_model(row@[i])
                        } else {
                            None
                        },
                    );
                assert(statement_folds(orig[b as int].statements@[i0], host_at(host@, b as int, i0)));
            }
            if prev {
                let (c0, i0) = choose|c: int, i: int|
                    0 <= c < b && 0 <= i < orig[c].statements@.len() && statement_folds(
                        #[trigger] orig[c].statements@[i],
                        host_at(host@, c, i),
                    );
                assert(0 <= c0 < b + 1);
            }
            if changed {
            } else {
                assert forall|c: int, i: int|
                    0 <= c < b + 1 && 0 <= i < orig[c].statements@.len() implies !statement_folds(
                    #[trigger] orig[c].statements@[i],
                    host_at(host@, c, i),
                ) by {
                    if c == b {
                        assert(!statement_folds(
                            st[i],
                            if i < row@.len() {
                                opt_model(row@[i])
                            } else {
                                None
                            },
                        ));
                    }
                }
            }
        }
        b = b + 1;
    }
    *blocks = out;
    changed
}

/// One pass settles folding: a statement the pass leaves behind does not
/// fold again with the same host result, and one it folded does not fold
/// again with any.
pub proof fn law_fold_is_settled(s: Statement, t: Statement, h: Option<ConstModel>, h2: Option<ConstModel>)
    requires
        folded_statement(s, t, h),
    ensures
        !statement_folds(t, h),
        statement_folds(s, h) ==> !statement_folds(t, h2),
{
}

/// Comparing two character constants folds to the truth of that comparison
/// on their code points.
pub proof fn law_char_comparisons_fold_to_their_truth(a: char, b: char)
    ensures
        fold_binary_spec(BinOp::Lt, ConstModel::Char(a), ConstModel::Char(b)) == Some(ConstModel::Bool((a as u32) < (b as u32))),
        fold_binary_spec(BinOp::Le, ConstModel::Char(a), ConstModel::Char(b)) == Some(ConstModel::Bool((a as u32) <= (b as u32))),
        fold_binary_spec(BinOp::Gt, ConstModel::Char(a), ConstModel::Char(b)) == Some(ConstModel::Bool((a as u32) > (b as u32))),
        fold_binary_spec(BinOp::Ge, ConstModel::Char(a), ConstModel::Char(b)) == Some(ConstModel::Bool((a as u32) >= (b as u32))),
        fold_binary_spec(BinOp::Eq, ConstModel::Char(a), ConstModel::Char(b)) == Some(ConstModel::Bool(a == b)),
        fold_binary_spec(BinOp::Ne, ConstModel::Char(a), ConstModel::Char(b)) == Some(ConstModel::Bool(a != b)),
{
}

/// Comparing two integer constants folds to the truth of that comparison
/// on their values, whatever their kinds.
pub proof fn law_int_comparisons_fold_to_their_truth(a: int, ka: IntKind, b: int, kb: IntKind)
    ensures
        fold_binary_spec(BinOp::Lt, ConstModel::Int(a, ka), ConstModel::Int(b, kb)) == Some(ConstModel::Bool(a < b)),
        fold_binary_spec(BinOp::Le, ConstModel::Int(a, ka), ConstModel::Int(b, kb)) == Some(ConstModel::Bool(a <= b)),
        fold_binary_spec(BinOp::Gt, ConstModel::Int(a, ka), ConstModel::Int(b, kb)) == Some(ConstModel::Bool(a > b)),
        fold_binary_spec(BinOp::Ge, ConstModel::Int(a, ka), ConstModel::Int(b, kb)) == Some(ConstModel::Bool(a >= b)),
        fold_binary_spec(BinOp::Eq, ConstModel::Int(a, ka), ConstModel::Int(b, kb)) == Some(ConstModel::Bool(a == b)),
        fold_binary_spec(BinOp::Ne, ConstModel::Int(a, ka), ConstModel::Int(b, kb)) == Some(ConstModel::Bool(a != b)),
{
}

/// Swapping the operands of a comparison swaps `<` with `>` and `<=` with
/// `>=`, and leaves `==` and `!=` as they are; `!=` folds to the negation
/// of `==`. This holds of every pair of non-float constants.
pub proof fn law_comparisons_are_mirrored(x: ConstModel, y: ConstModel)
    ensures
        fold_binary_spec(BinOp::Lt, x, y) == fold_binary_spec(BinOp::Gt, y, x),
        fold_binary_spec(BinOp::Le, x, y) == fold_binary_spec(BinOp::Ge, y, x),
        fold_binary_spec(BinOp::Eq, x, y) == fold_binary_spec(BinOp::Eq, y, x),
        fold_binary_spec(BinOp::Ne, x, y) == fold_binary_spec(BinOp::Ne, y, x),
        fold_binary_spec(BinOp::Eq, x, y) matches Some(ConstModel::Bool(e)) ==> fold_binary_spec(BinOp::Ne, x, y)
            == Some(ConstModel::Bool(!e)),
        fold_binary_spec(BinOp::Lt, x, y) matches Some(ConstModel::Bool(l)) ==> fold_binary_spec(BinOp::Ge, x, y)
            == Some(ConstModel::Bool(!l)),
        fold_binary_spec(BinOp::Le, x, y) matches Some(ConstModel::Bool(l)) ==> fold_binary_spec(BinOp::Gt, x, y)
            == Some(ConstModel::Bool(!l)),
{
}

/// Addition, multiplication, the bitwise operators and the equality tests
/// fold the same whichever way round two integers of one kind come.
pub proof fn law_symmetric_operators_commute(a: int, b: int, k: IntKind)
    ensures
        fold_binary_spec(BinOp::Add, ConstModel::Int(a, k), ConstModel::Int(b, k)) == fold_binary_spec(
            BinOp::Add,
            ConstModel::Int(b, k),
            ConstModel::Int(a, k),
        ),
        fold_binary_spec(BinOp::Mul, ConstModel::Int(a, k), ConstModel::Int(b, k)) == fold_binary_spec(
            BinOp::Mul,
            ConstModel::Int(b, k),
            ConstModel::Int(a, k),
        ),
        fold_binary_spec(BinOp::Eq, ConstModel::Int(a, k), ConstModel::Int(b, k)) == fold_binary_spec(
            BinOp::Eq,
            ConstModel::Int(b, k),
            ConstModel::Int(a, k),
        ),
{
    assert(a * b == b * a) by (nonlinear_arith);
}

/// Integer addition, subtraction and multiplication fold exactly when the
/// mathematical result fits the kind, and then to that result.
pub proof fn law_arithmetic_folds_to_the_exact_result(a: int, b: int, k: IntKind)
    ensures
        fold_binary_spec(BinOp::Add, ConstModel::Int(a, k), ConstModel::Int(b, k)) == if in_range(a + b, k) {
            Some(ConstModel::Int(a + b, k))
        } else {
            None
        },
        fold_binary_spec(BinOp::Sub, ConstModel::Int(a, k), ConstModel::Int(b, k)) == if in_range(a - b, k) {
            Some(ConstModel::Int(a - b, k))
        } else {
            None
        },
        fold_binary_spec(BinOp::Mul, ConstModel::Int(a, k), ConstModel::Int(b, k)) == if in_range(a * b, k) {
            Some(ConstModel::Int(a * b, k))
        } else {
            None
        },
        fold_binary_spec(BinOp::Div, ConstModel::Int(a, k), ConstModel::Int(0, k)) is None,
        fold_binary_spec(BinOp::Rem, ConstModel::Int(a, k), ConstModel::Int(0, k)) is None,
{
}

} // verus!
