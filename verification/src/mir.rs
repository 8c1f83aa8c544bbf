//! The MIR vocabulary: locals, blocks, places, operands, constants,
//! terminators, and the fixed operation sets with their stable names and
//! arities.
//!
//! A function's body is a graph of basic blocks. Each block is a
//! straight-line sequence of statements closed by exactly one
//! [`Terminator`]; execution starts at block 0. Types and source spans are
//! the front end's business: here a constant carries its integer or float
//! kind, and a float constant carries its IEEE 754 bit pattern.

use vstd::prelude::*;

verus! {

/// A local slot of a function, by index into its locals.
#[derive(Clone, Copy, PartialEq, Eq, Structural, PartialOrd, Ord, Hash, Debug)]
pub struct LocalId(pub u32);

/// A basic block of a function, by index into its blocks.
#[derive(Clone, Copy, PartialEq, Eq, Structural, Debug)]
pub struct BlockId(pub u32);

/// How a parameter receives its argument.
///
/// Borrow modes are the only borrow formers of the language: the borrow
/// exists exactly for the duration of the call.
#[derive(Clone, Copy, PartialEq, Eq, Structural, Debug)]
pub enum PassMode {
    /// `take` — the argument is moved (or copied, if `Copy`) into the
    /// parameter local; the callee owns it.
    Value,
    /// `in` — the parameter aliases the argument place, read-only.
    Borrow,
    /// `mut` — the parameter aliases the argument place exclusively.
    BorrowMut,
}

/// One step of a place's projection path.
#[derive(Clone, Copy, PartialEq, Eq, Structural, Debug)]
pub enum Projection {
    /// The `index`-th field (declaration order) of a struct, tuple, or range.
    Field(u32),
    /// The `field`-th payload field of enum variant `variant`.
    VariantField {
        /// The variant's declaration-order index.
        variant: u32,
        /// The payload field's declaration-order index.
        field: u32,
    },
    /// The array element at the `Usize` value held by `index`.
    Index(LocalId),
}

/// A memory location: a local plus a (possibly empty) projection path.
#[derive(Debug)]
pub struct Place {
    /// The root local.
    pub local: LocalId,
    /// The projections, applied left to right.
    pub projection: Vec<Projection>,
}

impl Place {
    /// The bare place of `local`.
    pub fn local(local: LocalId) -> (r: Place)
        ensures
            r.local == local,
            r.projection@ == Seq::<Projection>::empty(),
    {
        Place { local, projection: Vec::new() }
    }
}

/// An integer kind. `Isize`/`Usize` are 64 bits wide in v0.
#[derive(Clone, Copy, PartialEq, Eq, Structural, Debug)]
pub enum IntKind {
    I8,
    I16,
    I32,
    I64,
    Isize,
    U8,
    U16,
    U32,
    U64,
    Usize,
}

/// A float kind.
#[derive(Clone, Copy, PartialEq, Eq, Structural, Debug)]
pub enum FloatKind {
    F32,
    F64,
}

/// A compile-time constant value.
#[derive(Debug)]
pub enum Const {
    /// The unit value `()`.
    Unit,
    /// A boolean.
    Bool(bool),
    /// An integer of the given kind; the value is in the kind's range.
    Int(i128, IntKind),
    /// A float of the given kind, as the IEEE 754 bit pattern of its `f64`
    /// value (an `F32` is stored at `f64` precision).
    Float(u64, FloatKind),
    /// A Unicode scalar value.
    Char(char),
    /// A `Str` literal.
    Str(String),
    /// A function value naming a top-level function symbol.
    Fn(u32),
}

/// A value read: how an instruction obtains each input.
#[derive(Debug)]
pub enum Operand {
    /// Read the place's value, leaving it initialized.
    Copy(Place),
    /// Read the place's value and end its initialization.
    Move(Place),
    /// A compile-time constant.
    Const(Const),
}

/// The cause of a deterministic abort.
#[derive(Clone, Copy, PartialEq, Eq, Structural, Debug)]
pub enum Trap {
    /// An array index was out of bounds.
    IndexOutOfBounds,
    /// Control reached a point the front end proved unreachable.
    Unreachable,
}

impl Trap {
    /// The stable rendering of the cause.
    pub fn label(self) -> (r: &'static str)
        ensures
            r@ == match self {
                Trap::IndexOutOfBounds => "index_out_of_bounds"@,
                Trap::Unreachable => "unreachable"@,
            },
    {
        match self {
            Trap::IndexOutOfBounds => "index_out_of_bounds",
            Trap::Unreachable => "unreachable",
        }
    }
}

/// The closing control transfer of a basic block.
#[derive(Debug)]
pub enum Terminator {
    /// Return the operand to the caller.
    Return(Operand),
    /// Jump unconditionally.
    Goto(BlockId),
    /// Two-way branch on a `Bool` operand.
    Branch {
        /// The branched-on value.
        cond: Operand,
        /// Taken when `cond` is `true`.
        then_block: BlockId,
        /// Taken when `cond` is `false`.
        else_block: BlockId,
    },
    /// Multi-way branch on an integer-classed operand: the first arm whose
    /// value equals the operand, else `otherwise`.
    Switch {
        /// The switched-on value.
        discr: Operand,
        /// `(value, target)` arms; values are pairwise distinct.
        arms: Vec<(i128, BlockId)>,
        /// Taken when no arm matches.
        otherwise: BlockId,
    },
    /// If `cond` is `true`, continue at `target`; otherwise abort with `trap`.
    Assert {
        /// The checked condition.
        cond: Operand,
        /// The abort cause when the check fails.
        trap: Trap,
        /// The continuation when the check passes.
        target: BlockId,
    },
    /// Abort deterministically with `trap`.
    Trap(Trap),
}

/// A straight-line statement sequence closed by one terminator.
#[derive(Debug)]
pub struct BasicBlock<S> {
    /// The statements, executed in order.
    pub statements: Vec<S>,
    /// The closing control transfer.
    pub terminator: Terminator,
}

/// One host effect: the runtime seam behind the `std::rt` builtins.
#[derive(Clone, Copy, PartialEq, Eq, Structural, Debug)]
pub enum EffectOp {
    /// `write(fd, text: Str)`.
    Write,
    /// `read_byte(fd)`.
    ReadByte,
    /// `exit(code)`; never returns.
    Exit,
    /// `write_string(fd, s: borrow String)`.
    WriteString,
    /// `par_map(f, workers, tasks: borrow Array[I64])`.
    ParMap,
    /// `now_nanos()`.
    NowNanos,
    /// `arg_count()`.
    ArgCount,
    /// `arg_byte(i, j)`.
    ArgByte,
    /// `open(path: Str, mode)`.
    Open,
    /// `close(fd)`.
    Close,
    /// `remove_file(path: Str)`.
    RemoveFile,
}

/// The stable name of an effect.
pub open spec fn effect_name(op: EffectOp) -> Seq<char> {
    match op {
        EffectOp::Write => "write"@,
        EffectOp::ReadByte => "read_byte"@,
        EffectOp::Exit => "exit"@,
        EffectOp::WriteString => "write_string"@,
        EffectOp::ParMap => "par_map"@,
        EffectOp::NowNanos => "now_nanos"@,
        EffectOp::ArgCount => "arg_count"@,
        EffectOp::ArgByte => "arg_byte"@,
        EffectOp::Open => "open"@,
        EffectOp::Close => "close"@,
        EffectOp::RemoveFile => "remove_file"@,
    }
}

/// The number of arguments an effect takes.
pub open spec fn effect_arity(op: EffectOp) -> nat {
    match op {
        EffectOp::NowNanos | EffectOp::ArgCount => 0,
        EffectOp::ReadByte | EffectOp::Exit | EffectOp::Close | EffectOp::RemoveFile => 1,
        EffectOp::Write | EffectOp::WriteString | EffectOp::ArgByte | EffectOp::Open => 2,
        EffectOp::ParMap => 3,
    }
}

impl EffectOp {
    /// The stable lowercase name (`write`, `read_byte`, `exit`, ...).
    pub fn name(self) -> (r: &'static str)
        ensures
            r@ == effect_name(self),
    {
        match self {
            EffectOp::Write => "write",
            EffectOp::ReadByte => "read_byte",
            EffectOp::Exit => "exit",
            EffectOp::WriteString => "write_string",
            EffectOp::ParMap => "par_map",
            EffectOp::NowNanos => "now_nanos",
            EffectOp::ArgCount => "arg_count",
            EffectOp::ArgByte => "arg_byte",
            EffectOp::Open => "open",
            EffectOp::Close => "close",
            EffectOp::RemoveFile => "remove_file",
        }
    }

    /// How many arguments the op takes.
    pub fn arg_count(self) -> (r: usize)
        ensures
            r == effect_arity(self),
    {
        match self {
            EffectOp::NowNanos | EffectOp::ArgCount => 0,
            EffectOp::ReadByte | EffectOp::Exit | EffectOp::Close | EffectOp::RemoveFile => 1,
            EffectOp::Write | EffectOp::WriteString | EffectOp::ArgByte | EffectOp::Open => 2,
            EffectOp::ParMap => 3,
        }
    }
}

/// One in-place heap mutation over an owned `String`, growable
/// `Array[I64]`, or map.
#[derive(Clone, Copy, PartialEq, Eq, Structural, Debug)]
pub enum HeapMutOp {
    /// `push_byte(target: mut String, b)`; traps on a byte outside 0..=255.
    PushByte,
    /// `append(target: mut String, t: Str)`.
    Append,
    /// `push(target: mut Array[I64], v)`.
    Push,
    /// `pop(target: mut Array[I64]) -> Option[I64]`.
    Pop,
    /// `insert(target: mut Map[K, V], k, v) -> Option[V]`.
    MapInsert,
    /// `remove(target: mut Map[K, V], k) -> Option[V]`.
    MapRemove,
}

/// The stable name of a heap mutation.
pub open spec fn heap_mut_name(op: HeapMutOp) -> Seq<char> {
    match op {
        HeapMutOp::PushByte => "push_byte"@,
        HeapMutOp::Append => "append"@,
        HeapMutOp::Push => "push"@,
        HeapMutOp::Pop => "pop"@,
        HeapMutOp::MapInsert => "map_insert"@,
        HeapMutOp::MapRemove => "map_remove"@,
    }
}

/// The number of operands a heap mutation takes after its target.
pub open spec fn heap_mut_arity(op: HeapMutOp) -> nat {
    match op {
        HeapMutOp::Pop => 0,
        HeapMutOp::PushByte | HeapMutOp::Append | HeapMutOp::Push | HeapMutOp::MapRemove => 1,
        HeapMutOp::MapInsert => 2,
    }
}

impl HeapMutOp {
    /// The stable lowercase name (`push_byte`, `append`, `push`, `pop`,
    /// `map_insert`, `map_remove`).
    pub fn name(self) -> (r: &'static str)
        ensures
            r@ == heap_mut_name(self),
    {
        match self {
            HeapMutOp::PushByte => "push_byte",
            HeapMutOp::Append => "append",
            HeapMutOp::Push => "push",
            HeapMutOp::Pop => "pop",
            HeapMutOp::MapInsert => "map_insert",
            HeapMutOp::MapRemove => "map_remove",
        }
    }

    /// How many operands the op takes after the `mut` target.
    pub fn arg_count(self) -> (r: usize)
        ensures
            r == heap_mut_arity(self),
    {
        match self {
            HeapMutOp::Pop => 0,
            HeapMutOp::PushByte | HeapMutOp::Append | HeapMutOp::Push | HeapMutOp::MapRemove => 1,
            HeapMutOp::MapInsert => 2,
        }
    }
}

/// A pure, value-producing heap operation.
#[derive(Clone, Copy, PartialEq, Eq, Structural, Debug)]
pub enum HeapOp {
    StringEmpty,
    StringFromStr,
    StringConcat,
    StringLen,
    StringByteAt,
    StringSlice,
    StringAsStr,
    ArrayEmpty,
    ArrayLen,
    ArrayGet,
    MapEmpty,
    MapGet,
    MapContainsKey,
    MapLen,
    MapKeys,
}

/// The stable name of a heap operation, qualified by value kind.
pub open spec fn heap_op_name(op: HeapOp) -> Seq<char> {
    match op {
        HeapOp::StringEmpty => "string_empty"@,
        HeapOp::StringFromStr => "string_from_str"@,
        HeapOp::StringConcat => "string_concat"@,
        HeapOp::StringLen => "string_len"@,
        HeapOp::StringByteAt => "string_byte_at"@,
        HeapOp::StringSlice => "string_slice"@,
        HeapOp::StringAsStr => "string_as_str"@,
        HeapOp::ArrayEmpty => "array_empty"@,
        HeapOp::ArrayLen => "array_len"@,
        HeapOp::ArrayGet => "array_get"@,
        HeapOp::MapEmpty => "map_empty"@,
        HeapOp::MapGet => "map_get"@,
        HeapOp::MapContainsKey => "map_contains_key"@,
        HeapOp::MapLen => "map_len"@,
        HeapOp::MapKeys => "map_keys"@,
    }
}

/// Whether a heap operation reads an existing value through a subject.
pub open spec fn heap_op_has_subject(op: HeapOp) -> bool {
    match op {
        HeapOp::StringLen | HeapOp::StringByteAt | HeapOp::StringSlice | HeapOp::StringAsStr
        | HeapOp::ArrayLen | HeapOp::ArrayGet | HeapOp::MapGet | HeapOp::MapContainsKey
        | HeapOp::MapLen | HeapOp::MapKeys => true,
        _ => false,
    }
}

/// The number of operands a heap operation takes after its subject.
pub open spec fn heap_op_arity(op: HeapOp) -> nat {
    match op {
        HeapOp::StringEmpty | HeapOp::StringLen | HeapOp::StringAsStr | HeapOp::ArrayEmpty
        | HeapOp::ArrayLen | HeapOp::MapEmpty | HeapOp::MapLen | HeapOp::MapKeys => 0,
        HeapOp::StringFromStr | HeapOp::StringByteAt | HeapOp::ArrayGet | HeapOp::MapGet
        | HeapOp::MapContainsKey => 1,
        HeapOp::StringConcat | HeapOp::StringSlice => 2,
    }
}

impl HeapOp {
    /// The stable lowercase name, qualified by value kind (`string_empty`,
    /// ..., `map_keys`).
    pub fn name(self) -> (r: &'static str)
        ensures
            r@ == heap_op_name(self),
    {
        match self {
            HeapOp::StringEmpty => "string_empty",
            HeapOp::StringFromStr => "string_from_str",
            HeapOp::StringConcat => "string_concat",
            HeapOp::StringLen => "string_len",
            HeapOp::StringByteAt => "string_byte_at",
            HeapOp::StringSlice => "string_slice",
            HeapOp::StringAsStr => "string_as_str",
            HeapOp::ArrayEmpty => "array_empty",
            HeapOp::ArrayLen => "array_len",
            HeapOp::ArrayGet => "array_get",
            HeapOp::MapEmpty => "map_empty",
            HeapOp::MapGet => "map_get",
            HeapOp::MapContainsKey => "map_contains_key",
            HeapOp::MapLen => "map_len",
            HeapOp::MapKeys => "map_keys",
        }
    }

    /// Whether the op reads an existing heap value through a `subject`
    /// place, as opposed to constructing one from operands alone.
    pub fn has_subject(self) -> (r: bool)
        ensures
            r == heap_op_has_subject(self),
    {
        match self {
            HeapOp::StringLen | HeapOp::StringByteAt | HeapOp::StringSlice | HeapOp::StringAsStr
            | HeapOp::ArrayLen | HeapOp::ArrayGet | HeapOp::MapGet | HeapOp::MapContainsKey
            | HeapOp::MapLen | HeapOp::MapKeys => true,
            _ => false,
        }
    }

    /// How many operands the op takes (after the optional subject).
    pub fn arg_count(self) -> (r: usize)
        ensures
            r == heap_op_arity(self),
    {
        match self {
            HeapOp::StringEmpty | HeapOp::StringLen | HeapOp::StringAsStr | HeapOp::ArrayEmpty
            | HeapOp::ArrayLen | HeapOp::MapEmpty | HeapOp::MapLen | HeapOp::MapKeys => 0,
            HeapOp::StringFromStr | HeapOp::StringByteAt | HeapOp::ArrayGet | HeapOp::MapGet
            | HeapOp::MapContainsKey => 1,
            HeapOp::StringConcat | HeapOp::StringSlice => 2,
        }
    }
}

/// A pure byte-level string operation over a `Str`.
#[derive(Clone, Copy, PartialEq, Eq, Structural, Debug)]
pub enum StrOp {
    /// `len(s)`.
    Len,
    /// `byte_at(s, index)`; traps out of range.
    ByteAt,
    /// `slice(s, start, end)`; traps out of range.
    Slice,
}

impl StrOp {
    /// The stable lowercase name (`len`, `byte_at`, `slice`).
    pub fn name(self) -> (r: &'static str)
        ensures
            r@ == match self {
                StrOp::Len => "len"@,
                StrOp::ByteAt => "byte_at"@,
                StrOp::Slice => "slice"@,
            },
    {
        match self {
            StrOp::Len => "len",
            StrOp::ByteAt => "byte_at",
            StrOp::Slice => "slice",
        }
    }

    /// How many operands the op takes.
    pub fn arg_count(self) -> (r: usize)
        ensures
            r == match self {
                StrOp::Len => 1usize,
                StrOp::ByteAt => 2usize,
                StrOp::Slice => 3usize,
            },
    {
        match self {
            StrOp::Len => 1,
            StrOp::ByteAt => 2,
            StrOp::Slice => 3,
        }
    }
}

/// A unary operator.
#[derive(Clone, Copy, PartialEq, Eq, Structural, Debug)]
pub enum UnOp {
    /// Arithmetic negation; an integer negation traps on the minimum value.
    Neg,
    /// Boolean negation.
    Not,
    /// Bitwise complement of an integer; never traps.
    BitNot,
}

/// A binary operator. Integer arithmetic traps on overflow.
#[derive(Clone, Copy, PartialEq, Eq, Structural, Debug)]
pub enum BinOp {
    Add,
    Sub,
    Mul,
    /// Truncating division; traps on a zero divisor and on `MIN / -1`.
    Div,
    /// Remainder with the dividend's sign; traps like `Div`.
    Rem,
    Eq,
    Ne,
    Lt,
    Le,
    Gt,
    Ge,
    /// Bitwise and of the two's-complement patterns.
    BitAnd,
    /// Bitwise or.
    BitOr,
    /// Bitwise exclusive or.
    BitXor,
    /// Left shift; traps when the amount is outside the operand's width.
    Shl,
    /// Right shift (arithmetic for signed kinds); traps like `Shl`.
    Shr,
}

/// The stable name of a binary operator.
pub open spec fn bin_op_name(op: BinOp) -> Seq<char> {
    match op {
        BinOp::Add => "add"@,
        BinOp::Sub => "sub"@,
        BinOp::Mul => "mul"@,
        BinOp::Div => "div"@,
        BinOp::Rem => "rem"@,
        BinOp::Eq => "eq"@,
        BinOp::Ne => "ne"@,
        BinOp::Lt => "lt"@,
        BinOp::Le => "le"@,
        BinOp::Gt => "gt"@,
        BinOp::Ge => "ge"@,
        BinOp::BitAnd => "bitand"@,
        BinOp::BitOr => "bitor"@,
        BinOp::BitXor => "bitxor"@,
        BinOp::Shl => "shl"@,
        BinOp::Shr => "shr"@,
    }
}

/// The stable lowercase name of a binary operator, as diagnostics and the
/// MIR rendering spell it.
pub fn bin_name(op: BinOp) -> (r: &'static str)
    ensures
        r@ == bin_op_name(op),
{
    match op {
        BinOp::Add => "add",
        BinOp::Sub => "sub",
        BinOp::Mul => "mul",
        BinOp::Div => "div",
        BinOp::Rem => "rem",
        BinOp::Eq => "eq",
        BinOp::Ne => "ne",
        BinOp::Lt => "lt",
        BinOp::Le => "le",
        BinOp::Gt => "gt",
        BinOp::Ge => "ge",
        BinOp::BitAnd => "bitand",
        BinOp::BitOr => "bitor",
        BinOp::BitXor => "bitxor",
        BinOp::Shl => "shl",
        BinOp::Shr => "shr",
    }
}

/// The direction of a cast. All four are total functions.
#[derive(Clone, Copy, PartialEq, Eq, Structural, Debug)]
pub enum CastKind {
    /// Integer to integer: wrap to the target width.
    IntToInt,
    /// Integer to float: round to nearest even.
    IntToFloat,
    /// Float to integer: truncate toward zero, then saturate; NaN is 0.
    FloatToInt,
    /// Float to float: IEEE 754 conversion.
    FloatToFloat,
}

/// A type as the MIR logic here sees it: a scalar's integer or float kind,
/// every other type by the index that stands for it in the front end's
/// type table.
#[derive(Clone, Copy, PartialEq, Eq, Structural, Debug)]
pub enum TyRef {
    /// An integer type.
    Int(IntKind),
    /// A float type.
    Float(FloatKind),
    /// Any other type.
    Other(u32),
}

/// The target of a call.
#[derive(Debug)]
pub enum Callee {
    /// A direct call to a named function symbol.
    Direct(u32),
    /// An indirect call through a function-value operand.
    Indirect(Operand),
}

/// How a call argument is passed.
#[derive(Debug)]
pub enum Arg {
    /// A `take` argument: the operand's value.
    Value(Operand),
    /// An `in` argument: the place, lent read-only for the call.
    Borrow(Place),
    /// A `mut` argument: the place, lent exclusively for the call.
    BorrowMut(Place),
}

/// What an aggregate rvalue constructs.
#[derive(Debug)]
pub enum AggregateKind {
    /// A struct, enum-variant, `Option`, or `Result` value of type `ty` with
    /// active variant `variant`; the operands are its payload fields.
    Adt {
        /// The constructed type.
        ty: TyRef,
        /// The active variant's declaration-order index.
        variant: u32,
    },
    /// A range value from two operands, start then end.
    Range,
    /// A fixed-size array `[element; len]`; the operands are its elements.
    Array {
        /// The element type.
        element: TyRef,
        /// The number of elements.
        len: u64,
    },
}

/// A computed value: the right-hand side of an assignment.
#[derive(Debug)]
pub enum Rvalue {
    /// The operand's value.
    Use(Operand),
    /// A unary operation.
    Unary {
        /// The operator.
        op: UnOp,
        /// The operand.
        operand: Operand,
    },
    /// A binary operation.
    Binary {
        /// The operator.
        op: BinOp,
        /// The left operand.
        lhs: Operand,
        /// The right operand.
        rhs: Operand,
    },
    /// A numeric conversion.
    Cast {
        /// The direction of the conversion.
        kind: CastKind,
        /// The converted operand.
        operand: Operand,
        /// The target type.
        to: TyRef,
    },
    /// A struct, enum, range, or array value built from operands.
    Aggregate {
        /// What is built.
        kind: AggregateKind,
        /// The field operands, in order.
        fields: Vec<Operand>,
    },
    /// The active variant index of the enum at the place.
    Discriminant(Place),
    /// The element count of the array at the place.
    Len(Place),
    /// A `Str` operation.
    StrOp {
        /// The operation.
        op: StrOp,
        /// Its operands.
        args: Vec<Operand>,
    },
    /// A heap-value operation.
    HeapOp {
        /// The operation.
        op: HeapOp,
        /// The place read by the operation, for the operations that have one.
        subject: Option<Place>,
        /// Its operands.
        args: Vec<Operand>,
    },
}

/// One statement. Statements never branch.
#[derive(Debug)]
pub enum Statement {
    /// Evaluate `rvalue` and store it into `place`.
    Assign {
        /// The destination place.
        place: Place,
        /// The computed value.
        rvalue: Rvalue,
    },
    /// Call `callee` with `args` and store its return value into `dest`.
    Call {
        /// The destination of the return value.
        dest: Place,
        /// The call target.
        callee: Callee,
        /// The arguments, in declaration order.
        args: Vec<Arg>,
    },
    /// Perform one host effect and store its result into `dest`.
    Effect {
        /// Which effect.
        op: EffectOp,
        /// The arguments.
        args: Vec<Arg>,
        /// The destination of the result.
        dest: Place,
    },
    /// Mutate the heap value at `target` in place and store the result into
    /// `dest`; `target` is a `mut` borrow for the statement.
    HeapMutate {
        /// Which mutation.
        op: HeapMutOp,
        /// The mutated place.
        target: Place,
        /// The operands after the subject.
        args: Vec<Operand>,
        /// The destination of the result.
        dest: Place,
    },
    /// Destroy the value held by `place`; afterwards it is uninitialized.
    Drop {
        /// The dropped place.
        place: Place,
    },
}

/// Whether a spec clause was written `then` or `assert`.
#[derive(Clone, Copy, PartialEq, Eq, Structural, Debug)]
pub enum AssertionKind {
    /// A `then expr;` clause.
    Then,
    /// An `assert expr;` clause.
    Assert,
}

impl AssertionKind {
    /// The clause keyword, for diagnostics.
    pub fn keyword(self) -> (r: &'static str)
        ensures
            r@ == match self {
                AssertionKind::Then => "then"@,
                AssertionKind::Assert => "assert"@,
            },
    {
        match self {
            AssertionKind::Then => "then",
            AssertionKind::Assert => "assert",
        }
    }
}

/// The names of the two synthetic functions that evaluate the sides of a
/// `lhs == rhs` assertion.
#[derive(Debug)]
pub struct Comparison {
    /// The function returning the left-hand side (the *actual* value).
    pub actual: String,
    /// The function returning the right-hand side (the *expected* value).
    pub expected: String,
}


/// One local slot: a typed storage location live for the whole call.
#[derive(Debug)]
pub struct LocalDecl {
    /// The slot's type.
    pub ty: crate::types::Ty,
    /// The source name, for user bindings and parameters (`None` for
    /// compiler temporaries).
    pub name: Option<String>,
}

/// One lowered function body.
#[derive(Debug)]
pub struct Function {
    /// The function's symbol.
    pub symbol: u32,
    /// The function's name.
    pub name: String,
    /// The passing mode of each parameter; locals `0 .. params.len()` are
    /// the parameters, in declaration order.
    pub params: Vec<PassMode>,
    /// Every local slot: parameters first, then user locals and compiler
    /// temporaries in creation order.
    pub locals: Vec<LocalDecl>,
    /// The basic blocks; block 0 is the entry.
    pub blocks: Vec<BasicBlock<Statement>>,
    /// The declared return type.
    pub ret: crate::types::Ty,
}

/// A function that was not lowered, with the reason.
#[derive(Debug)]
pub struct Skipped {
    /// The function's name.
    pub name: String,
    /// Why it was not lowered.
    pub reason: String,
}

/// A lowered program: the functions in declaration order, and those that
/// were not lowered.
#[derive(Debug)]
pub struct Program {
    /// The lowered functions.
    pub functions: Vec<Function>,
    /// The functions that were not lowered.
    pub skipped: Vec<Skipped>,
}

} // verus!
