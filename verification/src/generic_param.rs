//! Generic parameters. Each parameter is identified by plain data: where it
//! was declared and its position, together with its kind and optional name.
use vstd::prelude::*;

use crate::ty::{Name, RelativeSpan, Symbol};

verus! {

#[derive(Copy, Clone, Debug, PartialEq, Eq, Structural, Hash)]
pub enum GenericParamKind {
    Type,
    Lifetime,
    Const,
}

/// A generic parameter declared in local source.
#[derive(Copy, Clone, Debug, PartialEq, Eq, Structural, Hash)]
pub struct AstGenericParam {
    pub kind: GenericParamKind,
    pub name: Option<Name>,
    pub span: RelativeSpan,
    pub parent: Symbol,
    pub index: u32,
}

/// A generic parameter read from external crate metadata.
#[derive(Copy, Clone, Debug, PartialEq, Eq, Structural, Hash)]
pub struct ExtGenericParam {
    pub kind: GenericParamKind,
    pub name: Option<Name>,
    pub parent: Symbol,
    pub index: u32,
}

/// Canonical placeholder used for alpha-equivalence testing.
#[derive(Copy, Clone, Debug, PartialEq, Eq, Structural, Hash)]
pub struct AlphaEquivParam {
    pub kind: GenericParamKind,
    pub index: u32,
}

impl AlphaEquivParam {
    pub fn new(kind: GenericParamKind, index: u32) -> (param: Self)
        ensures
            param.kind == kind,
            param.index == index,
    {
        AlphaEquivParam { kind, index }
    }
}

/// The unified generic parameter.
#[derive(Copy, Clone, Debug, PartialEq, Eq, Structural, Hash)]
pub enum GenericParam {
    Ast(AstGenericParam),
    Ext(ExtGenericParam),
    AlphaEquiv(AlphaEquivParam),
}

impl GenericParam {
    pub open spec fn spec_kind(self) -> GenericParamKind {
        match self {
            GenericParam::Ast(p) => p.kind,
            GenericParam::Ext(p) => p.kind,
            GenericParam::AlphaEquiv(p) => p.kind,
        }
    }

    pub open spec fn spec_name(self) -> Option<Name> {
        match self {
            GenericParam::Ast(p) => p.name,
            GenericParam::Ext(p) => p.name,
            GenericParam::AlphaEquiv(_) => None,
        }
    }

    pub fn kind(&self) -> (kind: GenericParamKind)
        ensures
            kind == self.spec_kind(),
    {
        match self {
            GenericParam::Ast(p) => p.kind,
            GenericParam::Ext(p) => p.kind,
            GenericParam::AlphaEquiv(p) => p.kind,
        }
    }

    pub fn name(&self) -> (name: Option<Name>)
        ensures
            name == self.spec_name(),
    {
        match self {
            GenericParam::Ast(p) => p.name,
            GenericParam::Ext(p) => p.name,
            GenericParam::AlphaEquiv(_) => None,
        }
    }
}

} // verus!
