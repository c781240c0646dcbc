use vstd::prelude::*;

use crate::ty::Name;

verus! {

/// Whether a reference or binding is shared or mutable.
#[derive(Copy, Clone, Debug, PartialEq, Eq, Structural, Hash)]
pub enum Mutability {
    Shared,
    Mut,
}

/// A literal expression.
#[derive(Copy, Clone, Debug, PartialEq, Eq, Structural, Hash)]
pub enum Literal {
    Int(Name),
    Float(Name),
    String(Name),
    Bool(bool),
    Char(Name),
}

#[derive(Copy, Clone, Debug, PartialEq, Eq, Structural, Hash)]
pub enum BinaryOp {
    Add,
    Sub,
    Mul,
    Div,
    Rem,
    And,
    Or,
    BitAnd,
    BitOr,
    BitXor,
    Shl,
    Shr,
    Eq,
    Ne,
    Lt,
    Le,
    Gt,
    Ge,
}

#[derive(Copy, Clone, Debug, PartialEq, Eq, Structural, Hash)]
pub enum UnaryOp {
    Not,
    Neg,
    Deref,
}

/// A lifetime as written in source.
#[derive(Copy, Clone, Debug, PartialEq, Eq, Structural, Hash)]
pub enum LifetimeCst {
    Named(Name),
    Anonymous,
}

/// What a use import brings into scope.
#[derive(Copy, Clone, Debug, PartialEq, Eq, Structural, Hash)]
pub enum UseKind {
    /// `use foo::bar` or `use foo::bar as baz`: imports under the given name.
    Named(Name),
    /// `use foo::bar::*`: glob import.
    Glob,
    /// `use foo::Bar as _`: unnamed import.
    Unnamed,
}

/// Kind of an attribute.
#[derive(Copy, Clone, Debug, PartialEq, Eq, Structural, Hash)]
pub enum AttrCstKind {
    Normal,
    DocComment,
}

/// The attribute names that do not transform an item before type checking.
pub open spec fn inert_item_attribute(name: Seq<char>) -> bool {
    name == "inline"@ || name == "repr"@ || name == "allow"@ || name == "deny"@ || name
        == "warn"@ || name == "forbid"@
}

/// The inner attribute names that affect linting only.
pub open spec fn inert_inner_attribute(name: Seq<char>) -> bool {
    name == "allow"@ || name == "deny"@ || name == "warn"@ || name == "forbid"@
}

/// Attributes whose presence does not transform an item before type checking.
pub fn is_known_inert_item_attribute(name: &str) -> (inert: bool)
    ensures
        inert == inert_item_attribute(name@),
{
    str_is(name, "inline") || str_is(name, "repr") || str_is(name, "allow") || str_is(name, "deny")
        || str_is(name, "warn") || str_is(name, "forbid")
}

/// Inner attributes that affect linting only and can therefore be ignored by
/// the current module and trait-candidate pipelines.
pub fn is_known_inert_inner_attribute(name: &str) -> (inert: bool)
    ensures
        inert == inert_inner_attribute(name@),
{
    str_is(name, "allow") || str_is(name, "deny") || str_is(name, "warn") || str_is(name, "forbid")
}

/// Character-wise string equality.
fn str_is(a: &str, b: &str) -> (same: bool)
    ensures
        same == (a@ == b@),
{
    let a_len = a.unicode_len();
    let b_len = b.unicode_len();
    if a_len != b_len {
        return false;
    }
    let mut i: usize = 0;
    while i < a_len
        invariant
            a_len == a@.len(),
            b_len == b@.len(),
            a_len == b_len,
            i <= a_len,
            forall|j: int| 0 <= j < i ==> a@[j] == b@[j],
        decreases a_len - i,
    {
        if a.get_char(i) != b.get_char(i) {
            return false;
        }
        i += 1;
    }
    proof {
        assert(a@ =~= b@);
    }
    true
}

} // verus!
