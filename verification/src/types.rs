//! Types as the MIR verifier reads them, and the tables that give the type
//! of a local, a struct field, an enum variant's payload and a function.

use vstd::prelude::*;
use crate::mir::{Const, FloatKind, IntKind, Operand, PassMode, Place, Projection, TyRef};

verus! {

broadcast use vstd::std_specs::vec::axiom_vec_index_decreases, vstd::seq::axiom_seq_index_decreases;

/// A type.
#[derive(Debug)]
pub enum Ty {
    /// `()`.
    Unit,
    /// `Bool`.
    Bool,
    /// An integer type.
    Int(IntKind),
    /// A float type.
    Float(FloatKind),
    /// `Char`.
    Char,
    /// The borrowed string `Str`.
    Str,
    /// The owned heap string `String`.
    String,
    /// A growable `Array[T]`.
    Array(Box<Ty>),
    /// A fixed-size `[T; n]`.
    FixedArray(Box<Ty>, u64),
    /// A `Map[K, V]`.
    Dict(Box<Ty>, Box<Ty>),
    /// An `Option[T]`.
    Option(Box<Ty>),
    /// A `Result[T, E]`.
    Result(Box<Ty>, Box<Ty>),
    /// A tuple.
    Tuple(Vec<Ty>),
    /// A `Range[T]`.
    Range(Box<Ty>),
    /// A struct, by its symbol, with its type arguments.
    Struct(u32, Vec<Ty>),
    /// An enum, by its symbol, with its type arguments.
    Enum(u32, Vec<Ty>),
    /// A function type: each parameter's passing mode, the parameter types,
    /// and the result type.
    Fn(Vec<PassMode>, Vec<Ty>, Box<Ty>),
    /// A generic parameter, in declaration form.
    Param(u32),
    /// The type of a diverging expression; agrees with every type.
    Never,
    /// The poison type of an ill-typed expression; agrees with every type.
    Error,
}

/// The content of a type.
pub enum TyM {
    Unit,
    Bool,
    Int(IntKind),
    Float(FloatKind),
    Char,
    Str,
    String,
    Array(Box<TyM>),
    FixedArray(Box<TyM>, u64),
    Dict(Box<TyM>, Box<TyM>),
    Option(Box<TyM>),
    Result(Box<TyM>, Box<TyM>),
    Tuple(Seq<TyM>),
    Range(Box<TyM>),
    Struct(u32, Seq<TyM>),
    Enum(u32, Seq<TyM>),
    Fn(Seq<PassMode>, Seq<TyM>, Box<TyM>),
    Param(u32),
    Never,
    Error,
}

/// The contents of a list of types.
pub open spec fn tys_m(v: Seq<Ty>) -> Seq<TyM>
    decreases v, 1int,
{
    Seq::new(v.len(), |i: int| if 0 <= i < v.len() { v[i].m() } else { TyM::Unit })
}

impl Ty {
    /// The content of this type.
    pub open spec fn m(&self) -> TyM
        decreases self, 0int,
    {
        match self {
            Ty::Unit => TyM::Unit,
            Ty::Bool => TyM::Bool,
            Ty::Int(k) => TyM::Int(*k),
            Ty::Float(k) => TyM::Float(*k),
            Ty::Char => TyM::Char,
            Ty::Str => TyM::Str,
            Ty::String => TyM::String,
            Ty::Array(t) => TyM::Array(Box::new(t.m())),
            Ty::FixedArray(t, n) => TyM::FixedArray(Box::new(t.m()), *n),
            Ty::Dict(k, v) => TyM::Dict(Box::new(k.m()), Box::new(v.m())),
            Ty::Option(t) => TyM::Option(Box::new(t.m())),
            Ty::Result(a, b) => TyM::Result(Box::new(a.m()), Box::new(b.m())),
            Ty::Tuple(v) => TyM::Tuple(tys_m(v@)),
            Ty::Range(t) => TyM::Range(Box::new(t.m())),
            Ty::Struct(s, v) => TyM::Struct(*s, tys_m(v@)),
            Ty::Enum(s, v) => TyM::Enum(*s, tys_m(v@)),
            Ty::Fn(ms, v, r) => TyM::Fn(ms@, tys_m(v@), Box::new(r.m())),
            Ty::Param(p) => TyM::Param(*p),
            Ty::Never => TyM::Never,
            Ty::Error => TyM::Error,
        }
    }
}

/// Two types agree: either is `Never` or `Error`, or they are the same.
pub open spec fn agree(a: TyM, b: TyM) -> bool {
    a is Never || a is Error || b is Never || b is Error || a == b
}

/// The signed 64-bit integer type.
pub open spec fn int_ty() -> TyM {
    TyM::Int(IntKind::I64)
}

impl Ty {
    /// A second type with the same content.
    pub fn copy(&self) -> (r: Ty)
        ensures
            r.m() == self.m(),
        decreases self,
    {
        match self {
            Ty::Unit => Ty::Unit,
            Ty::Bool => Ty::Bool,
            Ty::Int(k) => Ty::Int(*k),
            Ty::Float(k) => Ty::Float(*k),
            Ty::Char => Ty::Char,
            Ty::Str => Ty::Str,
            Ty::String => Ty::String,
            Ty::Array(t) => Ty::Array(Box::new((**t).copy())),
            Ty::FixedArray(t, n) => Ty::FixedArray(Box::new((**t).copy()), *n),
            Ty::Dict(k, v) => Ty::Dict(Box::new((**k).copy()), Box::new((**v).copy())),
            Ty::Option(t) => Ty::Option(Box::new((**t).copy())),
            Ty::Result(a, b) => Ty::Result(Box::new((**a).copy()), Box::new((**b).copy())),
            Ty::Tuple(v) => Ty::Tuple(copy_tys(v)),
            Ty::Range(t) => Ty::Range(Box::new((**t).copy())),
            Ty::Struct(sym, v) => Ty::Struct(*sym, copy_tys(v)),
            Ty::Enum(sym, v) => Ty::Enum(*sym, copy_tys(v)),
            Ty::Fn(ms, v, r) => Ty::Fn(copy_modes(ms), copy_tys(v), Box::new((**r).copy())),
            Ty::Param(p) => Ty::Param(*p),
            Ty::Never => Ty::Never,
            Ty::Error => Ty::Error,
        }
    }
}

/// A second list of types with the same contents.
pub fn copy_tys(v: &Vec<Ty>) -> (r: Vec<Ty>)
    ensures
        tys_m(r@) == tys_m(v@),
    decreases v,
{
    let mut out: Vec<Ty> = Vec::new();
    let mut i: usize = 0;
    while i < v.len()
        invariant
            i <= v@.len(),
            out@.len() == i,
            forall|j: int| 0 <= j < i ==> (#[trigger] out@[j]).m() == v@[j].m(),
        decreases v.len() - i,
    {
        out.push(v[i].copy());
        i = i + 1;
    }
    assert(tys_m(out@) =~= tys_m(v@));
    out
}

/// Whether two types are the same.
pub fn ty_eq(a: &Ty, b: &Ty) -> (r: bool)
    ensures
        r == (a.m() == b.m()),
    decreases a,
{
    match (a, b) {
        (Ty::Unit, Ty::Unit) => true,
        (Ty::Bool, Ty::Bool) => true,
        (Ty::Int(x), Ty::Int(y)) => *x == *y,
        (Ty::Float(x), Ty::Float(y)) => *x == *y,
        (Ty::Char, Ty::Char) => true,
        (Ty::Str, Ty::Str) => true,
        (Ty::String, Ty::String) => true,
        (Ty::Array(x), Ty::Array(y)) => ty_eq(&**x, &**y),
        (Ty::FixedArray(x, n), Ty::FixedArray(y, m)) => *n == *m && ty_eq(&**x, &**y),
        (Ty::Dict(k1, v1), Ty::Dict(k2, v2)) => ty_eq(&**k1, &**k2) && ty_eq(&**v1, &**v2),
        (Ty::Option(x), Ty::Option(y)) => ty_eq(&**x, &**y),
        (Ty::Result(a1, b1), Ty::Result(a2, b2)) => ty_eq(&**a1, &**a2) && ty_eq(&**b1, &**b2),
        (Ty::Tuple(x), Ty::Tuple(y)) => tys_eq(x, y),
        (Ty::Range(x), Ty::Range(y)) => ty_eq(&**x, &**y),
        (Ty::Struct(s, x), Ty::Struct(t, y)) => *s == *t && tys_eq(x, y),
        (Ty::Enum(s, x), Ty::Enum(t, y)) => *s == *t && tys_eq(x, y),
        (Ty::Fn(m1, x, r1), Ty::Fn(m2, y, r2)) => modes_eq(m1, m2) && tys_eq(x, y) && ty_eq(&**r1, &**r2),
        (Ty::Param(p), Ty::Param(q)) => *p == *q,
        (Ty::Never, Ty::Never) => true,
        (Ty::Error, Ty::Error) => true,
        _ => false,
    }
}

/// A second list of passing modes with the same contents.
fn copy_modes(v: &Vec<PassMode>) -> (r: Vec<PassMode>)
    ensures
        r@ == v@,
{
    let mut out: Vec<PassMode> = Vec::new();
    let mut i: usize = 0;
    while i < v.len()
        invariant
            i <= v@.len(),
            out@ == v@.take(i as int),
        decreases v.len() - i,
    {
        out.push(v[i]);
        assert(out@ =~= v@.take(i + 1));
        i = i + 1;
    }
    assert(v@.take(i as int) =~= v@);
    out
}

/// Whether two lists of passing modes are the same.
fn modes_eq(a: &Vec<PassMode>, b: &Vec<PassMode>) -> (r: bool)
    ensures
        r == (a@ == b@),
{
    if a.len() != b.len() {
        return false;
    }
    let mut i: usize = 0;
    while i < a.len()
        invariant
            a@.len() == b@.len(),
            i <= a@.len(),
            forall|j: int| 0 <= j < i ==> a@[j] == b@[j],
        decreases a.len() - i,
    {
        if a[i] != b[i] {
            return false;
        }
        i = i + 1;
    }
    assert(a@ =~= b@);
    true
}

/// Whether two lists of types are the same.
pub fn tys_eq(a: &Vec<Ty>, b: &Vec<Ty>) -> (r: bool)
    ensures
        r == (tys_m(a@) == tys_m(b@)),
    decreases a,
{
    if a.len() != b.len() {
        assert(tys_m(a@).len() != tys_m(b@).len());
        return false;
    }
    let mut i: usize = 0;
    while i < a.len()
        invariant
            a@.len() == b@.len(),
            i <= a@.len(),
            forall|j: int| 0 <= j < i ==> (#[trigger] a@[j]).m() == b@[j].m(),
        decreases a.len() - i,
    {
        if !ty_eq(&a[i], &b[i]) {
            assert(tys_m(a@)[i as int] != tys_m(b@)[i as int]);
            return false;
        }
        i = i + 1;
    }
    assert(tys_m(a@) =~= tys_m(b@));
    true
}

/// Whether two types agree: either is `Never` or `Error`, or they are the
/// same.
pub fn types_agree(a: &Ty, b: &Ty) -> (r: bool)
    ensures
        r == agree(a.m(), b.m()),
{
    match a {
        Ty::Never | Ty::Error => {
            return true;
        },
        _ => {},
    }
    match b {
        Ty::Never | Ty::Error => {
            return true;
        },
        _ => {},
    }
    ty_eq(a, b)
}

/// The program's type information: what each interned type index stands
/// for, each struct's field types, each enum's variants' payload types, and
/// each function's type, keyed by symbol (the first entry for a symbol
/// counts).
#[derive(Debug)]
pub struct TypeTable {
    /// `TyRef::Other(i)` stands for `interned[i]`.
    pub interned: Vec<Ty>,
    /// Each struct symbol with its declared field types.
    pub structs: Vec<(u32, Vec<Ty>)>,
    /// Each enum symbol with its variants' declared payload types.
    pub enums: Vec<(u32, Vec<Vec<Ty>>)>,
    /// Each function symbol with its function type.
    pub functions: Vec<(u32, Ty)>,
    /// Each generic struct or enum symbol with its type parameters, in
    /// declaration order.
    pub type_params: Vec<(u32, Vec<u32>)>,
}

/// The contents of a type table.
pub struct TableM {
    pub interned: Seq<TyM>,
    pub structs: Seq<(u32, Seq<TyM>)>,
    pub enums: Seq<(u32, Seq<Seq<TyM>>)>,
    pub functions: Seq<(u32, TyM)>,
    pub type_params: Seq<(u32, Seq<u32>)>,
}

impl TypeTable {
    /// The contents of this table.
    pub open spec fn m(&self) -> TableM {
        TableM {
            interned: tys_m(self.interned@),
            structs: Seq::new(self.structs@.len(), |i: int| (self.structs@[i].0, tys_m(self.structs@[i].1@))),
            enums: Seq::new(
                self.enums@.len(),
                |i: int|
                    (
                        self.enums@[i].0,
                        Seq::new(self.enums@[i].1@.len(), |j: int| tys_m(self.enums@[i].1@[j]@)),
                    ),
            ),
            functions: Seq::new(self.functions@.len(), |i: int| (self.functions@[i].0, self.functions@[i].1.m())),
            type_params: Seq::new(self.type_params@.len(), |i: int| (self.type_params@[i].0, self.type_params@[i].1@)),
        }
    }
}

/// The first position from `k` on whose key is `sym`.
pub open spec fn first_pos(keys: Seq<u32>, sym: u32, k: int) -> Option<int>
    decreases keys.len() - k,
{
    if k < 0 || k >= keys.len() {
        None
    } else if keys[k] == sym {
        Some(k)
    } else {
        first_pos(keys, sym, k + 1)
    }
}

/// The value under the first entry for `sym`.
pub open spec fn lookup<V>(s: Seq<(u32, V)>, sym: u32) -> Option<V> {
    match first_pos(Seq::new(s.len(), |i: int| s[i].0), sym, 0) {
        Some(i) => Some(s[i].1),
        None => None,
    }
}

/// A position found from `k` on lies in range and holds `sym`.
proof fn lemma_first_pos(keys: Seq<u32>, sym: u32, k: int)
    requires
        0 <= k,
    ensures
        first_pos(keys, sym, k) matches Some(i) ==> k <= i < keys.len() && keys[i] == sym,
    decreases keys.len() - k,
{
    if k < keys.len() && keys[k] != sym {
        lemma_first_pos(keys, sym, k + 1);
    }
}

/// The position of the first entry for `sym`.
fn find_sym<V>(s: &Vec<(u32, V)>, sym: u32) -> (r: Option<usize>)
    ensures
        r matches Some(i) ==> first_pos(Seq::new(s@.len(), |j: int| s@[j].0), sym, 0) == Some(i as int) && i
            < s@.len(),
        r is None ==> first_pos(Seq::new(s@.len(), |j: int| s@[j].0), sym, 0) is None,
{
    let ghost keys = Seq::new(s@.len(), |j: int| s@[j].0);
    let mut k: usize = 0;
    while k < s.len()
        invariant
            k <= s@.len(),
            keys == Seq::new(s@.len(), |j: int| s@[j].0),
            first_pos(keys, sym, 0) == first_pos(keys, sym, k as int),
        decreases s.len() - k,
    {
        if s[k].0 == sym {
            return Some(k);
        }
        k = k + 1;
    }
    None
}

/// The field types of struct `sym`.
pub open spec fn struct_fields(t: TableM, sym: u32) -> Option<Seq<TyM>> {
    lookup(t.structs, sym)
}

/// The variants' payload types of enum `sym`.
pub open spec fn enum_variants(t: TableM, sym: u32) -> Option<Seq<Seq<TyM>>> {
    lookup(t.enums, sym)
}

/// The type of function `sym`.
pub open spec fn fn_type(t: TableM, sym: u32) -> Option<TyM> {
    lookup(t.functions, sym)
}

/// The type a type reference stands for (an index with no entry is the
/// poison type).
pub open spec fn ref_ty_spec(t: TableM, r: TyRef) -> TyM {
    match r {
        TyRef::Int(k) => TyM::Int(k),
        TyRef::Float(k) => TyM::Float(k),
        TyRef::Other(i) => if (i as int) < t.interned.len() {
            t.interned[i as int]
        } else {
            TyM::Error
        },
    }
}

/// The type of a constant (a function value's type is in the table).
pub open spec fn const_ty_spec(c: Const) -> TyM {
    match c {
        Const::Unit => TyM::Unit,
        Const::Bool(_) => TyM::Bool,
        Const::Int(_, k) => TyM::Int(k),
        Const::Float(_, k) => TyM::Float(k),
        Const::Char(_) => TyM::Char,
        Const::Str(_) => TyM::Str,
        Const::Fn(_) => TyM::Error,
    }
}

/// The type one projection step reaches from `ty`, or `None` where the
/// step is illegal for it. Struct and enum payloads are read in their
/// declaration form.
pub open spec fn project_spec(t: TableM, ty: TyM, p: Projection) -> Option<TyM> {
    match p {
        Projection::Field(i) => match ty {
            TyM::Tuple(items) => if (i as int) < items.len() {
                Some(items[i as int])
            } else {
                None
            },
            TyM::Range(item) => if i < 2 {
                Some(*item)
            } else {
                None
            },
            TyM::Struct(sym, _) => match struct_fields(t, sym) {
                Some(fs) => if (i as int) < fs.len() {
                    Some(fs[i as int])
                } else {
                    None
                },
                None => None,
            },
            _ => None,
        },
        Projection::VariantField { variant, field } => match ty {
            TyM::Option(item) => if variant == 0 && field == 0 {
                Some(*item)
            } else {
                None
            },
            TyM::Result(ok, err) => if variant == 0 && field == 0 {
                Some(*ok)
            } else if variant == 1 && field == 0 {
                Some(*err)
            } else {
                None
            },
            TyM::Enum(sym, _) => match enum_variants(t, sym) {
                Some(vs) => if (variant as int) < vs.len() && (field as int) < vs[variant as int].len() {
                    Some(vs[variant as int][field as int])
                } else {
                    None
                },
                None => None,
            },
            _ => None,
        },
        Projection::Index(_) => match ty {
            TyM::Array(item) => Some(*item),
            TyM::FixedArray(item, _) => Some(*item),
            _ => None,
        },
    }
}

/// The type of a local with projections applied, or `None` where the local
/// does not exist or a step is illegal.
pub open spec fn place_ty_spec(locals: Seq<TyM>, t: TableM, local: u32, ps: Seq<Projection>) -> Option<TyM>
    decreases ps.len(),
{
    if ps.len() == 0 {
        if (local as int) < locals.len() {
            Some(locals[local as int])
        } else {
            None
        }
    } else {
        match place_ty_spec(locals, t, local, ps.drop_last()) {
            Some(ty) => project_spec(t, ty, ps.last()),
            None => None,
        }
    }
}

/// The type a place denotes.
pub open spec fn place_type(locals: Seq<TyM>, t: TableM, p: Place) -> Option<TyM> {
    place_ty_spec(locals, t, p.local.0, p.projection@)
}

/// The type an operand reads.
pub open spec fn operand_type(locals: Seq<TyM>, t: TableM, o: Operand) -> Option<TyM> {
    match o {
        Operand::Copy(p) => place_type(locals, t, p),
        Operand::Move(p) => place_type(locals, t, p),
        Operand::Const(Const::Fn(sym)) => fn_type(t, sym),
        Operand::Const(c) => Some(const_ty_spec(c)),
    }
}

impl TypeTable {
    /// The type a type reference stands for.
    pub fn ref_ty(&self, r: TyRef) -> (ty: Ty)
        ensures
            ty.m() == ref_ty_spec(self.m(), r),
    {
        match r {
            TyRef::Int(k) => Ty::Int(k),
            TyRef::Float(k) => Ty::Float(k),
            TyRef::Other(i) => {
                if (i as usize) < self.interned.len() {
                    self.interned[i as usize].copy()
                } else {
                    Ty::Error
                }
            },
        }
    }

    /// The type one projection step reaches from `ty`.
    pub fn project_ty(&self, ty: &Ty, p: &Projection) -> (r: Option<Ty>)
        ensures
            match r {
                Some(x) => project_spec(self.m(), ty.m(), *p) == Some(x.m()),
                None => project_spec(self.m(), ty.m(), *p) is None,
            },
    {
        match p {
            Projection::Field(i) => match ty {
                Ty::Tuple(items) => {
                    assert(tys_m(items@).len() == items@.len());
                    if (*i as usize) < items.len() {
                        assert(tys_m(items@)[*i as int] == items@[*i as int].m());
                        Some(items[*i as usize].copy())
                    } else {
                        None
                    }
                },
                Ty::Range(item) => {
                    if *i < 2 {
                        Some((**item).copy())
                    } else {
                        None
                    }
                },
                Ty::Struct(sym, _) => match find_sym(&self.structs, *sym) {
                    Some(k) => {
                        proof {
                            assert(Seq::new(self.m().structs.len(), |j: int| self.m().structs[j].0) =~= Seq::new(
                                self.structs@.len(),
                                |j: int| self.structs@[j].0,
                            ));
                        }
                        let fs = &self.structs[k].1;
                        assert(self.m().structs[k as int].1 == tys_m(fs@));
                        assert(tys_m(fs@).len() == fs@.len());
                        if (*i as usize) < fs.len() {
                            assert(tys_m(fs@)[*i as int] == fs@[*i as int].m());
                            Some(fs[*i as usize].copy())
                        } else {
                            None
                        }
                    },
                    None => {
                        proof {
                            assert(Seq::new(self.m().structs.len(), |j: int| self.m().structs[j].0) =~= Seq::new(
                                self.structs@.len(),
                                |j: int| self.structs@[j].0,
                            ));
                        }
                        None
                    },
                },
                _ => None,
            },
            Projection::VariantField { variant, field } => match ty {
                Ty::Option(item) => {
                    if *variant == 0 && *field == 0 {
                        Some((**item).copy())
                    } else {
                        None
                    }
                },
                Ty::Result(ok, err) => {
                    if *variant == 0 && *field == 0 {
                        Some((**ok).copy())
                    } else if *variant == 1 && *field == 0 {
                        Some((**err).copy())
                    } else {
                        None
                    }
                },
                Ty::Enum(sym, _) => match find_sym(&self.enums, *sym) {
                    Some(k) => {
                        proof {
                            assert(Seq::new(self.m().enums.len(), |j: int| self.m().enums[j].0) =~= Seq::new(
                                self.enums@.len(),
                                |j: int| self.enums@[j].0,
                            ));
                        }
                        let vs = &self.enums[k].1;
                        assert(self.m().enums[k as int].1 == Seq::new(vs@.len(), |j: int| tys_m(vs@[j]@)));
                        if (*variant as usize) < vs.len() {
                            assert(tys_m(vs@[*variant as int]@).len() == vs@[*variant as int]@.len());
                            if (*field as usize) < vs[*variant as usize].len() {
                                assert(tys_m(vs@[*variant as int]@)[*field as int] == vs@[*variant as int]@[*field as int].m());
                            }
                        }
                        if (*variant as usize) < vs.len() && (*field as usize) < vs[*variant as usize].len() {
                            Some(vs[*variant as usize][*field as usize].copy())
                        } else {
                            None
                        }
                    },
                    None => {
                        proof {
                            assert(Seq::new(self.m().enums.len(), |j: int| self.m().enums[j].0) =~= Seq::new(
                                self.enums@.len(),
                                |j: int| self.enums@[j].0,
                            ));
                        }
                        None
                    },
                },
                _ => None,
            },
            Projection::Index(_) => match ty {
                Ty::Array(item) => Some((**item).copy()),
                Ty::FixedArray(item, _) => Some((**item).copy()),
                _ => None,
            },
        }
    }

    /// The type a place denotes: its local's type with each projection
    /// applied, or `None` where the local does not exist or a step is
    /// illegal.
    pub fn place_ty(&self, locals: &Vec<Ty>, place: &Place) -> (r: Option<Ty>)
        ensures
            match r {
                Some(x) => place_type(tys_m(locals@), self.m(), *place) == Some(x.m()),
                None => place_type(tys_m(locals@), self.m(), *place) is None,
            },
    {
        let ghost ps = place.projection@;
        let l = place.local.0 as usize;
        if l >= locals.len() {
            assert(ps.take(0) =~= Seq::<Projection>::empty());
            proof {
                lemma_place_ty_none(tys_m(locals@), self.m(), place.local.0, ps, 0);
            }
            return None;
        }
        let mut ty = locals[l].copy();
        let mut i: usize = 0;
        assert(ps.take(0) =~= Seq::<Projection>::empty());
        while i < place.projection.len()
            invariant
                ps == place.projection@,
                i <= ps.len(),
                place_ty_spec(tys_m(locals@), self.m(), place.local.0, ps.take(i as int)) == Some(ty.m()),
            decreases place.projection.len() - i,
        {
            assert(ps.take(i + 1).drop_last() =~= ps.take(i as int));
            assert(ps.take(i + 1).last() == ps[i as int]);
            match self.project_ty(&ty, &place.projection[i]) {
                Some(next) => {
                    ty = next;
                },
                None => {
                    proof {
                        lemma_place_ty_none(tys_m(locals@), self.m(), place.local.0, ps, i + 1);
                    }
                    return None;
                },
            }
            i = i + 1;
        }
        assert(ps.take(i as int) =~= ps);
        Some(ty)
    }

    /// The type an operand reads: a place's type, a function value's type
    /// from the table, or a constant's own type.
    pub fn operand_ty(&self, locals: &Vec<Ty>, operand: &Operand) -> (r: Option<Ty>)
        ensures
            match r {
                Some(x) => operand_type(tys_m(locals@), self.m(), *operand) == Some(x.m()),
                None => operand_type(tys_m(locals@), self.m(), *operand) is None,
            },
    {
        match operand {
            Operand::Copy(p) => self.place_ty(locals, p),
            Operand::Move(p) => self.place_ty(locals, p),
            Operand::Const(c) => match c {
                Const::Fn(sym) => {
                    proof {
                        assert(Seq::new(self.m().functions.len(), |j: int| self.m().functions[j].0) =~= Seq::new(
                            self.functions@.len(),
                            |j: int| self.functions@[j].0,
                        ));
                    }
                    match find_sym(&self.functions, *sym) {
                        Some(k) => Some(self.functions[k].1.copy()),
                        None => None,
                    }
                },
                Const::Unit => Some(Ty::Unit),
                Const::Bool(_) => Some(Ty::Bool),
                Const::Int(_, k) => Some(Ty::Int(*k)),
                Const::Float(_, k) => Some(Ty::Float(*k)),
                Const::Char(_) => Some(Ty::Char),
                Const::Str(_) => Some(Ty::Str),
            },
        }
    }
}

/// Once a prefix of the projections has no type, no longer prefix has one.
proof fn lemma_place_ty_none(locals: Seq<TyM>, t: TableM, local: u32, ps: Seq<Projection>, k: int)
    requires
        0 <= k <= ps.len(),
        place_ty_spec(locals, t, local, ps.take(k)) is None,
    ensures
        place_ty_spec(locals, t, local, ps) is None,
    decreases ps.len() - k,
{
    if k < ps.len() {
        assert(ps.take(k + 1).drop_last() =~= ps.take(k));
        lemma_place_ty_none(locals, t, local, ps, k + 1);
    } else {
        assert(ps.take(k) =~= ps);
    }
}

// ---------------------------------------------------------------------------
// Which types are `Copy`.
// ---------------------------------------------------------------------------

/// `ty` with each generic parameter listed in `params` replaced by the
/// type argument at its position.
pub open spec fn subst(ty: TyM, params: Seq<u32>, args: Seq<TyM>) -> TyM
    decreases ty,
{
    match ty {
        TyM::Param(p) => match first_pos(params, p, 0) {
            Some(i) => if i < args.len() {
                args[i]
            } else {
                ty
            },
            None => ty,
        },
        TyM::Tuple(items) => TyM::Tuple(
            Seq::new(items.len(), |i: int| if 0 <= i < items.len() { subst(items[i], params, args) } else { TyM::Unit }),
        ),
        TyM::Array(x) => TyM::Array(Box::new(subst(*x, params, args))),
        TyM::FixedArray(x, n) => TyM::FixedArray(Box::new(subst(*x, params, args)), n),
        TyM::Range(x) => TyM::Range(Box::new(subst(*x, params, args))),
        TyM::Option(x) => TyM::Option(Box::new(subst(*x, params, args))),
        TyM::Result(a, b) => TyM::Result(Box::new(subst(*a, params, args)), Box::new(subst(*b, params, args))),
        TyM::Struct(sym, inner) => TyM::Struct(
            sym,
            Seq::new(inner.len(), |i: int| if 0 <= i < inner.len() { subst(inner[i], params, args) } else { TyM::Unit }),
        ),
        TyM::Enum(sym, inner) => TyM::Enum(
            sym,
            Seq::new(inner.len(), |i: int| if 0 <= i < inner.len() { subst(inner[i], params, args) } else { TyM::Unit }),
        ),
        _ => ty,
    }
}

/// The number of struct and enum entries in the table.
pub open spec fn adt_bound(t: TableM) -> int {
    (t.structs.len() + t.enums.len()) as int
}

/// The type parameters of struct or enum `sym` (none if unlisted).
pub open spec fn params_of(t: TableM, sym: u32) -> Seq<u32> {
    match lookup(t.type_params, sym) {
        Some(ps) => ps,
        None => seq![],
    }
}

/// The payload types of every variant, variant by variant.
pub open spec fn flat_fields(vs: Seq<Seq<TyM>>) -> Seq<TyM>
    decreases vs.len(),
{
    if vs.len() == 0 {
        seq![]
    } else {
        flat_fields(vs.drop_last()) + vs.last()
    }
}

/// Each type of `tys` with the parameters replaced.
pub open spec fn subst_all(tys: Seq<TyM>, params: Seq<u32>, args: Seq<TyM>) -> Seq<TyM> {
    Seq::new(tys.len(), |i: int| subst(tys[i], params, args))
}

/// Whether a value of type `ty` is `Copy`, with the structs and enums in
/// `visiting` being looked through already: scalars, `Str`, function values
/// and the poison type are; owned heap values (`String`, arrays, maps) and
/// generic parameters are not; a tuple, fixed array, range, `Option` or
/// `Result` is when its parts are; a struct or enum is when it is declared
/// and each of its fields, with the type arguments put in, is. A struct or
/// enum met again while being looked through is not `Copy`; so is one met
/// below a chain of more structs and enums than the table declares.
pub open spec fn copy_spec(t: TableM, ty: TyM, visiting: Seq<u32>) -> bool
    decreases adt_bound(t) - visiting.len(), ty, 0int,
{
    match ty {
        TyM::Unit | TyM::Never | TyM::Bool | TyM::Char | TyM::Str | TyM::Int(_) | TyM::Float(_) | TyM::Fn(..)
        | TyM::Error => true,
        TyM::String | TyM::Array(_) | TyM::Dict(..) | TyM::Param(_) => false,
        TyM::Range(x) => copy_spec(t, *x, visiting),
        TyM::FixedArray(x, _) => copy_spec(t, *x, visiting),
        TyM::Option(x) => copy_spec(t, *x, visiting),
        TyM::Result(a, b) => copy_spec(t, *a, visiting) && copy_spec(t, *b, visiting),
        TyM::Tuple(items) => all_copy_spec(t, items, visiting, items.len() as int),
        TyM::Struct(sym, args) => if visiting.contains(sym) || visiting.len() >= adt_bound(t) {
            false
        } else {
            match struct_fields(t, sym) {
                Some(fs) => {
                    let sub = subst_all(fs, params_of(t, sym), args);
                    all_copy_spec(t, sub, visiting.push(sym), sub.len() as int)
                },
                None => false,
            }
        },
        TyM::Enum(sym, args) => if visiting.contains(sym) || visiting.len() >= adt_bound(t) {
            false
        } else {
            match enum_variants(t, sym) {
                Some(vs) => {
                    let sub = subst_all(flat_fields(vs), params_of(t, sym), args);
                    all_copy_spec(t, sub, visiting.push(sym), sub.len() as int)
                },
                None => false,
            }
        },
    }
}

/// Whether the first `n` types of `tys` are all `Copy`.
pub open spec fn all_copy_spec(t: TableM, tys: Seq<TyM>, visiting: Seq<u32>, n: int) -> bool
    decreases adt_bound(t) - visiting.len(), tys, n,
{
    if n <= 0 || n > tys.len() {
        n <= 0
    } else {
        all_copy_spec(t, tys, visiting, n - 1) && copy_spec(t, tys[n - 1], visiting)
    }
}

/// A failing prefix stays failing: if the first `n` types are not all
/// `Copy`, neither are the first `m`.
proof fn lemma_all_copy_prefix(t: TableM, tys: Seq<TyM>, visiting: Seq<u32>, n: int, m: int)
    requires
        0 <= n <= m <= tys.len(),
        !all_copy_spec(t, tys, visiting, n),
    ensures
        !all_copy_spec(t, tys, visiting, m),
    decreases m - n,
{
    if m > n {
        lemma_all_copy_prefix(t, tys, visiting, n, m - 1);
    }
}

/// The first position of `p` in `params`.
fn find_param(params: &Vec<u32>, p: u32) -> (r: Option<usize>)
    ensures
        match r {
            Some(i) => first_pos(params@, p, 0) == Some(i as int) && i < params@.len(),
            None => first_pos(params@, p, 0) is None,
        },
{
    let mut k: usize = 0;
    while k < params.len()
        invariant
            k <= params@.len(),
            first_pos(params@, p, 0) == first_pos(params@, p, k as int),
        decreases params.len() - k,
    {
        if params[k] == p {
            return Some(k);
        }
        k = k + 1;
    }
    None
}

/// `ty` with each generic parameter in `params` replaced by its argument.
pub fn subst_ty(ty: &Ty, params: &Vec<u32>, args: &Vec<Ty>) -> (r: Ty)
    ensures
        r.m() == subst(ty.m(), params@, tys_m(args@)),
    decreases ty,
{
    match ty {
        Ty::Param(p) => match find_param(params, *p) {
            Some(i) => {
                if i < args.len() {
                    assert(tys_m(args@)[i as int] == args@[i as int].m());
                    args[i].copy()
                } else {
                    Ty::Param(*p)
                }
            },
            None => Ty::Param(*p),
        },
        Ty::Tuple(items) => {
            let v = subst_tys(items, params, args);
            assert forall|i: int| 0 <= i < v@.len() implies #[trigger] tys_m(v@)[i] == subst(
                tys_m(items@)[i],
                params@,
                tys_m(args@),
            ) by {
                assert(tys_m(items@)[i] == items@[i].m());
            }
            assert(tys_m(v@) =~= subst(ty.m(), params@, tys_m(args@))->Tuple_0);
            Ty::Tuple(v)
        },
        Ty::Array(x) => Ty::Array(Box::new(subst_ty(&**x, params, args))),
        Ty::FixedArray(x, n) => Ty::FixedArray(Box::new(subst_ty(&**x, params, args)), *n),
        Ty::Range(x) => Ty::Range(Box::new(subst_ty(&**x, params, args))),
        Ty::Option(x) => Ty::Option(Box::new(subst_ty(&**x, params, args))),
        Ty::Result(a, b) => Ty::Result(Box::new(subst_ty(&**a, params, args)), Box::new(subst_ty(&**b, params, args))),
        Ty::Struct(sym, inner) => {
            let v = subst_tys(inner, params, args);
            assert forall|i: int| 0 <= i < v@.len() implies #[trigger] tys_m(v@)[i] == subst(
                tys_m(inner@)[i],
                params@,
                tys_m(args@),
            ) by {
                assert(tys_m(inner@)[i] == inner@[i].m());
            }
            assert(tys_m(v@) =~= subst(ty.m(), params@, tys_m(args@))->Struct_1);
            Ty::Struct(*sym, v)
        },
        Ty::Enum(sym, inner) => {
            let v = subst_tys(inner, params, args);
            assert forall|i: int| 0 <= i < v@.len() implies #[trigger] tys_m(v@)[i] == subst(
                tys_m(inner@)[i],
                params@,
                tys_m(args@),
            ) by {
                assert(tys_m(inner@)[i] == inner@[i].m());
            }
            assert(tys_m(v@) =~= subst(ty.m(), params@, tys_m(args@))->Enum_1);
            Ty::Enum(*sym, v)
        },
        _ => ty.copy(),
    }
}

/// Each type of `v` with the parameters replaced.
fn subst_tys(v: &Vec<Ty>, params: &Vec<u32>, args: &Vec<Ty>) -> (r: Vec<Ty>)
    ensures
        r@.len() == v@.len(),
        forall|i: int| 0 <= i < v@.len() ==> (#[trigger] r@[i]).m() == subst(v@[i].m(), params@, tys_m(args@)),
    decreases v,
{
    let mut out: Vec<Ty> = Vec::new();
    let mut i: usize = 0;
    while i < v.len()
        invariant
            i <= v@.len(),
            out@.len() == i,
            forall|j: int| 0 <= j < i ==> (#[trigger] out@[j]).m() == subst(v@[j].m(), params@, tys_m(args@)),
        decreases v.len() - i,
    {
        out.push(subst_ty(&v[i], params, args));
        i = i + 1;
    }
    out
}

/// A second list of symbols with the same contents.
fn copy_syms(v: &Vec<u32>) -> (r: Vec<u32>)
    ensures
        r@ == v@,
{
    let mut out: Vec<u32> = Vec::new();
    let mut i: usize = 0;
    while i < v.len()
        invariant
            i <= v@.len(),
            out@ == v@.take(i as int),
        decreases v.len() - i,
    {
        out.push(v[i]);
        assert(out@ =~= v@.take(i + 1));
        i = i + 1;
    }
    assert(v@.take(i as int) =~= v@);
    out
}

/// Whether `v` holds `x`.
fn has_sym(v: &Vec<u32>, x: u32) -> (r: bool)
    ensures
        r == v@.contains(x),
{
    let mut i: usize = 0;
    while i < v.len()
        invariant
            i <= v@.len(),
            forall|j: int| 0 <= j < i ==> v@[j] != x,
        decreases v.len() - i,
    {
        if v[i] == x {
            assert(v@[i as int] == x);
            return true;
        }
        i = i + 1;
    }
    false
}

impl TypeTable {
    /// The type parameters of struct or enum `sym`.
    fn params_for(&self, sym: u32) -> (r: Vec<u32>)
        ensures
            r@ == params_of(self.m(), sym),
    {
        proof {
            assert(Seq::new(self.m().type_params.len(), |j: int| self.m().type_params[j].0) =~= Seq::new(
                self.type_params@.len(),
                |j: int| self.type_params@[j].0,
            ));
        }
        match find_sym(&self.type_params, sym) {
            Some(k) => copy_syms(&self.type_params[k].1),
            None => Vec::new(),
        }
    }

    /// Whether a value of type `ty` is `Copy` (see [`copy_spec`]).
    pub fn is_copy(&self, ty: &Ty) -> (r: bool)
        ensures
            r == copy_spec(self.m(), ty.m(), seq![]),
    {
        let v: Vec<u32> = Vec::new();
        self.copy_in(ty, &v)
    }

    fn all_copy(&self, items: &Vec<Ty>, visiting: &Vec<u32>) -> (r: bool)
        ensures
            r == all_copy_spec(self.m(), tys_m(items@), visiting@, items@.len() as int),
        decreases adt_bound(self.m()) - visiting@.len(), items, 0int,
    {
        let ghost t = self.m();
        let ghost im = tys_m(items@);
        let mut i: usize = 0;
        while i < items.len()
            invariant
                i <= items@.len(),
                t == self.m(),
                im == tys_m(items@),
                all_copy_spec(t, im, visiting@, i as int),
            decreases items.len() - i,
        {
            assert(im[i as int] == items@[i as int].m());
            if !self.copy_in(&items[i], visiting) {
                proof {
                    lemma_all_copy_prefix(t, im, visiting@, i + 1, items@.len() as int);
                }
                return false;
            }
            i = i + 1;
        }
        true
    }

    fn copy_in(&self, ty: &Ty, visiting: &Vec<u32>) -> (r: bool)
        ensures
            r == copy_spec(self.m(), ty.m(), visiting@),
        decreases adt_bound(self.m()) - visiting@.len(), ty, 1int,
    {
        let ghost t = self.m();
        match ty {
            Ty::Unit | Ty::Never | Ty::Bool | Ty::Char | Ty::Str | Ty::Int(_) | Ty::Float(_) | Ty::Fn(..) | Ty::Error => true,
            Ty::String | Ty::Array(_) | Ty::Dict(..) | Ty::Param(_) => false,
            Ty::Range(x) => self.copy_in(&**x, visiting),
            Ty::FixedArray(x, _) => self.copy_in(&**x, visiting),
            Ty::Option(x) => self.copy_in(&**x, visiting),
            Ty::Result(a, b) => self.copy_in(&**a, visiting) && self.copy_in(&**b, visiting),
            Ty::Tuple(items) => self.all_copy(items, visiting),
            Ty::Struct(sym, args) => {
                if has_sym(visiting, *sym) || visiting.len() >= self.structs.len() && visiting.len() - self.structs.len()
                    >= self.enums.len() {
                    return false;
                }
                proof {
                    assert(Seq::new(self.m().structs.len(), |j: int| self.m().structs[j].0) =~= Seq::new(
                        self.structs@.len(),
                        |j: int| self.structs@[j].0,
                    ));
                }
                match find_sym(&self.structs, *sym) {
                    Some(k) => {
                        let fs = &self.structs[k].1;
                        assert(struct_fields(t, *sym) == Some(tys_m(fs@)));
                        let ps = self.params_for(*sym);
                        let sub = subst_tys(fs, &ps, args);
                        assert(tys_m(sub@) =~= subst_all(tys_m(fs@), params_of(t, *sym), tys_m(args@))) by {
                            assert forall|i: int| 0 <= i < sub@.len() implies tys_m(sub@)[i] == subst_all(
                                tys_m(fs@),
                                params_of(t, *sym),
                                tys_m(args@),
                            )[i] by {
                                assert(tys_m(fs@)[i] == fs@[i].m());
                            }
                        }
                        let mut v2 = copy_syms(visiting);
                        v2.push(*sym);
                        assert(v2@ == visiting@.push(*sym));
                        self.all_copy(&sub, &v2)
                    },
                    None => false,
                }
            },
            Ty::Enum(sym, args) => {
                if has_sym(visiting, *sym) || visiting.len() >= self.structs.len() && visiting.len() - self.structs.len()
                    >= self.enums.len() {
                    return false;
                }
                proof {
                    assert(Seq::new(self.m().enums.len(), |j: int| self.m().enums[j].0) =~= Seq::new(
                        self.enums@.len(),
                        |j: int| self.enums@[j].0,
                    ));
                }
                match find_sym(&self.enums, *sym) {
                    Some(k) => {
                        let vs = &self.enums[k].1;
                        let ghost vm = t.enums[k as int].1;
                        assert(vm == Seq::new(vs@.len(), |j: int| tys_m(vs@[j]@)));
                        assert(enum_variants(t, *sym) == Some(vm));
                        let ps = self.params_for(*sym);
                        let ghost pm = params_of(t, *sym);
                        let ghost am = tys_m(args@);
                        let mut flat: Vec<Ty> = Vec::new();
                        let mut a: usize = 0;
                        assert(vm.take(0) =~= Seq::<Seq<TyM>>::empty());
                        assert(tys_m(flat@) =~= subst_all(flat_fields(vm.take(0)), pm, am));
                        while a < vs.len()
                            invariant
                                a <= vs@.len(),
                                vm == Seq::new(vs@.len(), |j: int| tys_m(vs@[j]@)),
                                ps@ == pm,
                                am == tys_m(args@),
                                tys_m(flat@) == subst_all(flat_fields(vm.take(a as int)), pm, am),
                            decreases vs.len() - a,
                        {
                            let fields = &vs[a];
                            let ghost before = tys_m(flat@);
                            let mut i: usize = 0;
                            while i < fields.len()
                                invariant
                                    i <= fields@.len(),
                                    ps@ == pm,
                                    am == tys_m(args@),
                                    tys_m(flat@) == before + subst_all(tys_m(fields@).take(i as int), pm, am),
                                decreases fields.len() - i,
                            {
                                let f2 = subst_ty(&fields[i], &ps, args);
                                let ghost f0 = flat@;
                                flat.push(f2);
                                assert(tys_m(fields@)[i as int] == fields@[i as int].m());
                                assert(tys_m(flat@) =~= tys_m(f0).push(f2.m()));
                                assert(tys_m(flat@) =~= before + subst_all(tys_m(fields@).take(i + 1), pm, am));
                                i = i + 1;
                            }
                            assert(tys_m(fields@).take(i as int) =~= tys_m(fields@));
                            assert(vm.take(a + 1).drop_last() =~= vm.take(a as int));
                            assert(vm.take(a + 1).last() == tys_m(fields@));
                            assert(subst_all(flat_fields(vm.take(a + 1)), pm, am) =~= before + subst_all(
                                tys_m(fields@),
                                pm,
                                am,
                            ));
                            a = a + 1;
                        }
                        assert(vm.take(a as int) =~= vm);
                        let mut v2 = copy_syms(visiting);
                        v2.push(*sym);
                        assert(v2@ == visiting@.push(*sym));
                        self.all_copy(&flat, &v2)
                    },
                    None => false,
                }
            },
        }
    }
}

// ---------------------------------------------------------------------------
// Laws of `Copy`.
// ---------------------------------------------------------------------------

/// The immediate component types of a tuple, fixed array, range, `Option`
/// or `Result`.
pub open spec fn parts(ty: TyM) -> Seq<TyM> {
    match ty {
        TyM::Result(a, b) => seq![*a, *b],
        TyM::Option(x) => seq![*x],
        TyM::Range(x) => seq![*x],
        TyM::FixedArray(x, _) => seq![*x],
        TyM::Tuple(items) => items,
        _ => seq![],
    }
}

/// A type made of its parts: a tuple, fixed array, range, `Option` or
/// `Result`.
pub open spec fn compound(ty: TyM) -> bool {
    ty is Result || ty is Option || ty is Range || ty is FixedArray || ty is Tuple
}

/// Whether a type holds an owned heap value (`String`, a growable array, a
/// map) directly or inside a tuple, fixed array, range, `Option` or
/// `Result`.
pub open spec fn owns_heap(ty: TyM) -> bool
    decreases ty, 0int,
{
    match ty {
        TyM::String | TyM::Array(_) | TyM::Dict(..) => true,
        TyM::Result(a, b) => owns_heap(*a) || owns_heap(*b),
        TyM::Option(x) => owns_heap(*x),
        TyM::Range(x) => owns_heap(*x),
        TyM::FixedArray(x, _) => owns_heap(*x),
        TyM::Tuple(items) => any_owns_heap(items, items.len() as int),
        _ => false,
    }
}

/// Whether one of the first `n` types holds an owned heap value.
pub open spec fn any_owns_heap(items: Seq<TyM>, n: int) -> bool
    decreases items, n,
{
    if n <= 0 || n > items.len() {
        false
    } else {
        any_owns_heap(items, n - 1) || owns_heap(items[n - 1])
    }
}

/// All of the first `n` types are `Copy` exactly when each is.
proof fn lemma_all_copy(t: TableM, tys: Seq<TyM>, v: Seq<u32>, n: int)
    requires
        0 <= n <= tys.len(),
    ensures
        all_copy_spec(t, tys, v, n) == (forall|i: int| 0 <= i < n ==> copy_spec(t, #[trigger] tys[i], v)),
    decreases n,
{
    if n > 0 {
        lemma_all_copy(t, tys, v, n - 1);
    }
}

/// A type holding a heap value among its first `n` items has one item that
/// holds it.
proof fn lemma_any_owns(items: Seq<TyM>, n: int)
    requires
        any_owns_heap(items, n),
    ensures
        exists|i: int| 0 <= i < n && i < items.len() && owns_heap(#[trigger] items[i]),
    decreases n,
{
    if n > 0 && n <= items.len() {
        if any_owns_heap(items, n - 1) {
            lemma_any_owns(items, n - 1);
            let i = choose|i: int| 0 <= i < n - 1 && i < items.len() && owns_heap(#[trigger] items[i]);
            assert(0 <= i < n);
        } else {
            assert(owns_heap(items[n - 1]));
        }
    }
}

/// A tuple, fixed array, range, `Option` or `Result` is `Copy` exactly when
/// every one of its parts is.
pub proof fn law_compound_copy_iff_parts(t: TableM, ty: TyM, v: Seq<u32>)
    requires
        compound(ty),
    ensures
        copy_spec(t, ty, v) == (forall|i: int| 0 <= i < parts(ty).len() ==> copy_spec(t, #[trigger] parts(ty)[i], v)),
{
    match ty {
        TyM::Tuple(items) => {
            lemma_all_copy(t, items, v, items.len() as int);
        },
        TyM::Result(a, b) => {
            let ps = parts(ty);
            assert(ps[0] == *a && ps[1] == *b);
            if copy_spec(t, ty, v) {
                assert forall|i: int| 0 <= i < ps.len() implies copy_spec(t, #[trigger] ps[i], v) by {}
            } else {
                if !copy_spec(t, *a, v) {
                    assert(!copy_spec(t, ps[0], v));
                } else {
                    assert(!copy_spec(t, ps[1], v));
                }
            }
        },
        _ => {
            let ps = parts(ty);
            assert(ps.len() == 1);
            if !copy_spec(t, ty, v) {
                assert(!copy_spec(t, ps[0], v));
            }
        },
    }
}

/// No type that holds an owned heap value, directly or inside a tuple,
/// fixed array, range, `Option` or `Result`, is `Copy`.
pub proof fn law_heap_owners_are_not_copy(t: TableM, ty: TyM, v: Seq<u32>)
    requires
        owns_heap(ty),
    ensures
        !copy_spec(t, ty, v),
    decreases ty,
{
    match ty {
        TyM::Result(a, b) => {
            if owns_heap(*a) {
                law_heap_owners_are_not_copy(t, *a, v);
            } else {
                law_heap_owners_are_not_copy(t, *b, v);
            }
        },
        TyM::Option(x) => law_heap_owners_are_not_copy(t, *x, v),
        TyM::Range(x) => law_heap_owners_are_not_copy(t, *x, v),
        TyM::FixedArray(x, _) => law_heap_owners_are_not_copy(t, *x, v),
        TyM::Tuple(items) => {
            lemma_any_owns(items, items.len() as int);
            let i = choose|i: int| 0 <= i < items.len() && i < items.len() && owns_heap(#[trigger] items[i]);
            law_heap_owners_are_not_copy(t, items[i], v);
            lemma_all_copy(t, items, v, items.len() as int);
        },
        _ => {},
    }
}

} // verus!
