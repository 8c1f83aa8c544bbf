//! The ownership checker's vocabulary: tracked places, parameter modes, and
//! where a tracked root came from.
//!
//! A place is a local binding or parameter (its **root** symbol) plus a
//! finite field path. v0 has no dereference operator, so paths never go
//! through a wrapper, and index expressions are not places. Two places
//! overlap when one is a prefix of the other: a move or borrow of one
//! conflicts with any use of the other.

use vstd::prelude::*;
use crate::text::{chars_eq, chars_of, eq_str};

verus! {

/// One tracked place: a root binding/parameter (by symbol number) and a
/// field path rooted in it (`p`, `p.left`, `msg.payload.buf`).
#[derive(Debug)]
pub struct Place {
    /// The root binding or parameter.
    pub root: u32,
    /// The field path from the root (field names or tuple indices),
    /// outermost first. Empty for the root itself.
    pub path: Vec<String>,
}

/// The content of a place: its root and its field path.
pub struct PlaceModel {
    pub root: u32,
    pub path: Seq<Seq<char>>,
}

/// The views of a sequence of strings.
pub open spec fn fields_model(v: Seq<String>) -> Seq<Seq<char>> {
    Seq::new(v.len(), |i: int| v[i]@)
}

/// `a` is a (non-strict) prefix of `b`: same root, and `a`'s path begins
/// `b`'s.
pub open spec fn prefix_of(a: PlaceModel, b: PlaceModel) -> bool {
    a.root == b.root && a.path.len() <= b.path.len() && b.path.take(a.path.len() as int) == a.path
}

/// Two places overlap when one is a prefix of the other.
pub open spec fn overlap(a: PlaceModel, b: PlaceModel) -> bool {
    prefix_of(a, b) || prefix_of(b, a)
}

impl Place {
    /// The content of this place.
    pub open spec fn model(&self) -> PlaceModel {
        PlaceModel { root: self.root, path: fields_model(self.path@) }
    }

    /// The whole place of a root binding or parameter.
    pub fn root(root: u32) -> (r: Place)
        ensures
            r.model() == (PlaceModel { root, path: seq![] }),
    {
        let r = Place { root, path: Vec::new() };
        assert(fields_model(r.path@) =~= Seq::<Seq<char>>::empty());
        r
    }

    /// The place one field further down.
    pub fn child(&self, field: &str) -> (r: Place)
        ensures
            r.model() == (PlaceModel { root: self.root, path: self.model().path.push(field@) }),
    {
        let mut path: Vec<String> = Vec::new();
        let mut i: usize = 0;
        while i < self.path.len()
            invariant
                i <= self.path@.len(),
                fields_model(path@) == fields_model(self.path@).take(i as int),
            decreases self.path.len() - i,
        {
            let ghost before = path@;
            path.push(self.path[i].clone());
            assert(fields_model(path@) =~= fields_model(before).push(self.path@[i as int]@));
            assert(fields_model(self.path@).take(i + 1) =~= fields_model(self.path@).take(i as int).push(
                self.path@[i as int]@,
            ));
            i = i + 1;
        }
        let ghost before = path@;
        path.push(field.to_owned());
        assert(fields_model(path@) =~= fields_model(before).push(field@));
        assert(fields_model(self.path@).take(self.path@.len() as int) =~= fields_model(self.path@));
        Place { root: self.root, path }
    }

    /// Is `self` a (non-strict) prefix of `other`?
    pub fn is_prefix_of(&self, other: &Place) -> (r: bool)
        ensures
            r == prefix_of(self.model(), other.model()),
    {
        if self.root != other.root || self.path.len() > other.path.len() {
            return false;
        }
        let ghost a = self.model().path;
        let ghost b = other.model().path;
        let mut i: usize = 0;
        while i < self.path.len()
            invariant
                i <= self.path@.len() <= other.path@.len(),
                a == self.model().path,
                b == other.model().path,
                forall|j: int| 0 <= j < i ==> #[trigger] a[j] == b[j],
            decreases self.path.len() - i,
        {
            if !chars_eq(&chars_of(self.path[i].as_str()), &chars_of(other.path[i].as_str())) {
                assert(b.take(a.len() as int)[i as int] != a[i as int]);
                return false;
            }
            i = i + 1;
        }
        assert(b.take(a.len() as int) =~= a);
        true
    }

    /// Do the two places overlap — is one a prefix of the other?
    pub fn overlaps(&self, other: &Place) -> (r: bool)
        ensures
            r == overlap(self.model(), other.model()),
    {
        self.is_prefix_of(other) || other.is_prefix_of(self)
    }
}

/// Overlap is symmetric: `a` overlaps `b` exactly when `b` overlaps `a`.
pub proof fn law_overlap_symmetric(a: PlaceModel, b: PlaceModel)
    ensures
        overlap(a, b) == overlap(b, a),
{
}

/// Every place is a prefix of itself, and being a prefix is transitive.
pub proof fn law_prefix_preorder(a: PlaceModel, b: PlaceModel, c: PlaceModel)
    ensures
        prefix_of(a, a),
        prefix_of(a, b) && prefix_of(b, c) ==> prefix_of(a, c),
{
    assert(a.path.take(a.path.len() as int) =~= a.path);
    if prefix_of(a, b) && prefix_of(b, c) {
        assert(c.path.take(a.path.len() as int) =~= b.path.take(a.path.len() as int));
    }
}

/// A place is a prefix of each of its children, and so overlaps them.
pub proof fn law_child_overlaps_parent(p: PlaceModel, field: Seq<char>)
    ensures
        prefix_of(p, PlaceModel { root: p.root, path: p.path.push(field) }),
        overlap(p, PlaceModel { root: p.root, path: p.path.push(field) }),
        !prefix_of(PlaceModel { root: p.root, path: p.path.push(field) }, p),
{
    assert(p.path.push(field).take(p.path.len() as int) =~= p.path);
}

/// A parameter mode as declared in a signature.
#[derive(Clone, Copy, PartialEq, Eq, Structural, Debug)]
pub enum Mode {
    /// `in`: a read-only borrow.
    In,
    /// `mut`: an exclusive borrow.
    Mut,
    /// `take`: ownership moves to the callee.
    Take,
}

/// Reading a mode keyword.
pub open spec fn mode_spec(text: Seq<char>) -> Option<Mode> {
    if text == "in"@ {
        Some(Mode::In)
    } else if text == "mut"@ {
        Some(Mode::Mut)
    } else if text == "take"@ {
        Some(Mode::Take)
    } else {
        None
    }
}

impl Mode {
    /// The mode a keyword names, if it names one.
    pub fn parse(text: &str) -> (r: Option<Mode>)
        ensures
            r == mode_spec(text@),
    {
        let v = chars_of(text);
        if eq_str(&v, "in") {
            Some(Mode::In)
        } else if eq_str(&v, "mut") {
            Some(Mode::Mut)
        } else if eq_str(&v, "take") {
            Some(Mode::Take)
        } else {
            None
        }
    }

    /// Whether the mode borrows rather than moves.
    pub fn is_borrow(self) -> (r: bool)
        ensures
            r == (self is In || self is Mut),
    {
        match self {
            Mode::In | Mode::Mut => true,
            Mode::Take => false,
        }
    }
}

/// What kind of declaration a tracked root came from; decides mutability
/// and whether the root is a borrow.
#[derive(Clone, Copy, PartialEq, Eq, Structural, Debug)]
pub enum Origin {
    /// A `let` binding (immutable, owned). `deferred` records whether it was
    /// declared without an initializer.
    Let {
        /// Declared without an initializer.
        deferred: bool,
    },
    /// A `var` binding (mutable, owned).
    Var,
    /// A pattern binding (match arm, `for` loop): immutable, owned.
    PatternBinding,
    /// An `in` parameter: immutable, borrowed.
    InParam,
    /// A `mut` parameter: mutable, borrowed.
    MutParam,
    /// A `take` parameter: mutable, owned.
    TakeParam,
}

impl Origin {
    /// Whether the root may be assigned through.
    pub fn is_mutable(self) -> (r: bool)
        ensures
            r == (self is Var || self is MutParam || self is TakeParam),
    {
        match self {
            Origin::Var | Origin::MutParam | Origin::TakeParam => true,
            _ => false,
        }
    }

    /// The borrow mode keyword when the root is a borrowed parameter.
    pub fn borrow_mode(self) -> (r: Option<&'static str>)
        ensures
            match self {
                Origin::InParam => r matches Some(s) && s@ == "in"@,
                Origin::MutParam => r matches Some(s) && s@ == "mut"@,
                _ => r is None,
            },
    {
        match self {
            Origin::InParam => Some("in"),
            Origin::MutParam => Some("mut"),
            _ => None,
        }
    }

    /// How a diagnostic names the declaration.
    pub fn describe(self) -> (r: &'static str)
        ensures
            r@ == match self {
                Origin::Let { .. } => "a `let` binding"@,
                Origin::Var => "a `var` binding"@,
                Origin::PatternBinding => "a pattern binding"@,
                Origin::InParam => "an `in` parameter"@,
                Origin::MutParam => "a `mut` parameter"@,
                Origin::TakeParam => "a `take` parameter"@,
            },
    {
        match self {
            Origin::Let { .. } => "a `let` binding",
            Origin::Var => "a `var` binding",
            Origin::PatternBinding => "a pattern binding",
            Origin::InParam => "an `in` parameter",
            Origin::MutParam => "a `mut` parameter",
            Origin::TakeParam => "a `take` parameter",
        }
    }
}

} // verus!
