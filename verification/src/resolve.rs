//! Name-resolution namespaces, and the traits in scope for method lookup.
use vstd::prelude::*;

use crate::merge::first_occurrences;
use crate::ty::TraitSymbol;

verus! {

#[derive(Copy, Clone, Debug, PartialEq, Eq, Structural, Hash)]
pub enum MacroKind {
    /// `foo!()`
    Bang,
    /// `#[foo]`
    Attr,
    /// `#[derive(Foo)]`
    Derive,
}

/// The namespace a name lives in. Each module maps names independently per
/// namespace, so the same identifier can resolve to different items in
/// different namespaces. Macros are split by kind, so a bang macro and a
/// derive of the same name coexist.
#[derive(Copy, Clone, Debug, PartialEq, Eq, Structural, Hash)]
pub enum Namespace {
    /// Types, traits, modules, type aliases, enum variants (as types).
    Type,
    /// Functions, constants, statics, enum variant constructors, local bindings.
    Value,
    /// Macros of one kind.
    Macro(MacroKind),
}

/// A module that a glob import names.
#[derive(Clone, Debug)]
pub enum GlobModule {
    /// A module of the crate being checked: its re-exports and
    /// macro-produced items are not enumerated.
    Local,
    /// A module of another crate, with the traits it defines.
    External(Vec<TraitSymbol>),
}

/// What one import of the current module resolved to.
#[derive(Clone, Debug)]
pub enum ImportEdge {
    /// An import written by another crate's module: not enumerated.
    External,
    /// A named or unnamed import: the traits among what it resolved to in
    /// the type namespace, and whether it resolved at all, in the type or
    /// the value namespace.
    Named { traits: Vec<TraitSymbol>, resolved: bool },
    /// A glob import: the modules it resolved to in the type namespace.
    Glob { modules: Vec<GlobModule> },
}

/// The edition's standard prelude as found from the `std` crate: how many
/// `std::prelude` modules there are, and the traits of each edition module
/// found in them.
#[derive(Clone, Debug)]
pub struct PreludeScope {
    pub prelude_modules: usize,
    pub edition_modules: Vec<Vec<TraitSymbol>>,
}

/// The traits of the modules of a list, in order.
pub open spec fn lists_traits(lists: Seq<Vec<TraitSymbol>>) -> Seq<TraitSymbol>
    decreases lists.len(),
{
    if lists.len() == 0 {
        Seq::empty()
    } else {
        lists_traits(lists.drop_last()) + lists.last()@
    }
}

/// The traits that the modules of a glob import contribute, in order.
pub open spec fn glob_traits(modules: Seq<GlobModule>) -> Seq<TraitSymbol>
    decreases modules.len(),
{
    if modules.len() == 0 {
        Seq::empty()
    } else {
        glob_traits(modules.drop_last()) + match modules.last() {
            GlobModule::Local => Seq::empty(),
            GlobModule::External(traits) => traits@,
        }
    }
}

/// The traits that one import contributes, in order.
pub open spec fn edge_traits(edge: ImportEdge) -> Seq<TraitSymbol> {
    match edge {
        ImportEdge::External => Seq::empty(),
        ImportEdge::Named { traits, .. } => traits@,
        ImportEdge::Glob { modules } => glob_traits(modules@),
    }
}

/// The traits that the imports contribute, in order.
pub open spec fn edges_traits(edges: Seq<ImportEdge>) -> Seq<TraitSymbol>
    decreases edges.len(),
{
    if edges.len() == 0 {
        Seq::empty()
    } else {
        edges_traits(edges.drop_last()) + edge_traits(edges.last())
    }
}

/// An import is fully enumerated: it is not another crate's, a named one
/// resolved, and a glob one names at least one module and no local one.
pub open spec fn edge_complete(edge: ImportEdge) -> bool {
    match edge {
        ImportEdge::External => false,
        ImportEdge::Named { resolved, .. } => resolved,
        ImportEdge::Glob { modules } => modules@.len() > 0 && forall|k: int|
            0 <= k < modules@.len() ==> !(#[trigger] modules@[k] is Local),
    }
}

/// The prelude was found as exactly one prelude module holding exactly one
/// edition module.
pub open spec fn prelude_complete(prelude: Option<PreludeScope>) -> bool {
    match prelude {
        Some(scope) => scope.prelude_modules == 1 && scope.edition_modules@.len() == 1,
        None => false,
    }
}

/// Every candidate trait, in the order the scope lists them: the module's
/// own, those of its imports, then those of the prelude.
pub open spec fn scope_candidates(
    module_traits: Seq<TraitSymbol>,
    imports: Seq<ImportEdge>,
    prelude: Option<PreludeScope>,
) -> Seq<TraitSymbol> {
    module_traits + edges_traits(imports) + match prelude {
        Some(scope) => lists_traits(scope.edition_modules@),
        None => Seq::empty(),
    }
}

/// Each trait, marked as definitely in scope.
pub open spec fn marked(traits: Seq<TraitSymbol>) -> Seq<(TraitSymbol, bool)> {
    traits.map_values(|t: TraitSymbol| (t, true))
}

/// Add `extra` to the listed traits, keeping each trait once.
fn push_traits(traits: &mut Vec<(TraitSymbol, bool)>, extra: &[TraitSymbol], Ghost(seen): Ghost<Seq<TraitSymbol>>)
    requires
        old(traits)@ == marked(first_occurrences(seen)),
    ensures
        final(traits)@ == marked(first_occurrences(seen + extra@)),
{
    let mut k: usize = 0;
    proof {
        assert(seen + extra@.take(0) =~= seen);
    }
    while k < extra.len()
        invariant
            k <= extra@.len(),
            traits@ == marked(first_occurrences(seen + extra@.take(k as int))),
        decreases extra@.len() - k,
    {
        let t = extra[k];
        let ghost before = seen + extra@.take(k as int);
        let ghost kept = first_occurrences(before);
        proof {
            assert(seen + extra@.take(k + 1) =~= before.push(t));
            assert((seen + extra@.take(k + 1)).drop_last() =~= before);
        }
        let mut j: usize = 0;
        let mut found = false;
        while j < traits.len()
            invariant
                j <= traits@.len(),
                traits@ == marked(kept),
                !found ==> forall|q: int| 0 <= q < j ==> traits@[q].0 != t,
                found ==> kept.contains(t),
            decreases traits@.len() - j,
        {
            if traits[j].0 == t {
                proof {
                    assert(kept[j as int] == t);
                }
                found = true;
                let definite = traits[j].1 || true;
                traits.set(j, (t, definite));
                proof {
                    assert(traits@ =~= marked(kept));
                }
            }
            j += 1;
        }
        if !found {
            proof {
                assert(!kept.contains(t)) by {
                    if kept.contains(t) {
                        let q = choose|q: int| 0 <= q < kept.len() && kept[q] == t;
                        assert(traits@[q].0 == t);
                    }
                }
            }
            traits.push((t, true));
            proof {
                assert(traits@ =~= marked(kept.push(t)));
            }
        }
        k += 1;
    }
    proof {
        assert(extra@.take(extra@.len() as int) =~= extra@);
    }
}

/// The traits directly available for method lookup in a module: those it
/// defines, those its imports bring in (named imports, and glob imports of
/// other crates' modules), and those of the edition's standard prelude,
/// each listed once in that order and marked as definitely in scope. The
/// flag is false when an unresolved import, a glob of a local module,
/// another crate's import list, an unexpanded module or an unclear prelude
/// could contribute another trait; the list is then not an exhaustive
/// negative.
pub fn traits_in_method_scope(
    module_complete: bool,
    module_traits: &[TraitSymbol],
    imports: &[ImportEdge],
    prelude: Option<PreludeScope>,
) -> (result: (Vec<(TraitSymbol, bool)>, bool))
    ensures
        result.0@ == marked(first_occurrences(scope_candidates(module_traits@, imports@, prelude))),
        result.1 == (module_complete && (forall|k: int|
            0 <= k < imports@.len() ==> edge_complete(#[trigger] imports@[k])) && prelude_complete(prelude)),
{
    let mut traits: Vec<(TraitSymbol, bool)> = Vec::new();
    let mut complete = module_complete;
    proof {
        assert(first_occurrences(Seq::<TraitSymbol>::empty()) =~= Seq::<TraitSymbol>::empty());
        assert(traits@ =~= marked(first_occurrences(Seq::<TraitSymbol>::empty())));
    }
    push_traits(&mut traits, module_traits, Ghost(Seq::empty()));
    proof {
        assert(Seq::<TraitSymbol>::empty() + module_traits@ =~= module_traits@);
        assert(imports@.take(0) =~= Seq::<ImportEdge>::empty());
        assert(module_traits@ + edges_traits(imports@.take(0)) =~= module_traits@);
    }
    let mut i: usize = 0;
    while i < imports.len()
        invariant
            i <= imports@.len(),
            traits@ == marked(first_occurrences(module_traits@ + edges_traits(imports@.take(i as int)))),
            complete == (module_complete && forall|k: int|
                0 <= k < i ==> edge_complete(#[trigger] imports@[k])),
        decreases imports@.len() - i,
    {
        let ghost seen = module_traits@ + edges_traits(imports@.take(i as int));
        proof {
            assert(imports@.take(i + 1).drop_last() =~= imports@.take(i as int));
            assert(edges_traits(imports@.take(i + 1)) == edges_traits(imports@.take(i as int)) + edge_traits(
                imports@[i as int],
            ));
            assert(seen + edge_traits(imports@[i as int]) =~= module_traits@ + edges_traits(imports@.take(i + 1)));
        }
        match &imports[i] {
            ImportEdge::External => {
                complete = false;
                proof {
                    assert(seen + Seq::<TraitSymbol>::empty() =~= seen);
                }
            },
            ImportEdge::Named { traits: named, resolved } => {
                if !*resolved {
                    complete = false;
                }
                push_traits(&mut traits, named.as_slice(), Ghost(seen));
            },
            ImportEdge::Glob { modules } => {
                if modules.len() == 0 {
                    complete = false;
                }
                let ghost ms = modules@;
                let ghost glob_ok = complete;
                proof {
                    assert(ms.take(0) =~= Seq::<GlobModule>::empty());
                    assert(seen + glob_traits(ms.take(0)) =~= seen);
                }
                let mut m: usize = 0;
                while m < modules.len()
                    invariant
                        m <= ms.len(),
                        ms == modules@,
                        traits@ == marked(first_occurrences(seen + glob_traits(ms.take(m as int)))),
                        complete == (glob_ok && forall|q: int| 0 <= q < m ==> !(#[trigger] ms[q] is Local)),
                    decreases ms.len() - m,
                {
                    proof {
                        assert(ms.take(m + 1).drop_last() =~= ms.take(m as int));
                    }
                    let ghost before = seen + glob_traits(ms.take(m as int));
                    match &modules[m] {
                        GlobModule::Local => {
                            complete = false;
                            proof {
                                assert(seen + glob_traits(ms.take(m + 1)) =~= before);
                            }
                        },
                        GlobModule::External(module_traits_of) => {
                            push_traits(&mut traits, module_traits_of.as_slice(), Ghost(before));
                            proof {
                                assert(before + module_traits_of@ =~= seen + glob_traits(ms.take(m + 1)));
                            }
                        },
                    }
                    m += 1;
                }
                proof {
                    assert(ms.take(ms.len() as int) =~= ms);
                }
            },
        }
        proof {
            assert forall|k: int| 0 <= k < i + 1 implies edge_complete(#[trigger] imports@[k]) == (if k < i {
                edge_complete(imports@[k])
            } else {
                edge_complete(imports@[i as int])
            }) by {}
        }
        i += 1;
    }
    proof {
        assert(imports@.take(imports@.len() as int) =~= imports@);
    }
    let ghost seen = module_traits@ + edges_traits(imports@);
    match &prelude {
        Some(scope) => {
            if scope.prelude_modules != 1 {
                complete = false;
            }
            if scope.edition_modules.len() != 1 {
                complete = false;
            }
            let ghost ls = scope.edition_modules@;
            proof {
                assert(ls.take(0) =~= Seq::<Vec<TraitSymbol>>::empty());
                assert(seen + lists_traits(ls.take(0)) =~= seen);
            }
            let mut e: usize = 0;
            while e < scope.edition_modules.len()
                invariant
                    e <= ls.len(),
                    ls == scope.edition_modules@,
                    traits@ == marked(first_occurrences(seen + lists_traits(ls.take(e as int)))),
                decreases ls.len() - e,
            {
                let ghost before = seen + lists_traits(ls.take(e as int));
                proof {
                    assert(ls.take(e + 1).drop_last() =~= ls.take(e as int));
                    assert(before + ls[e as int]@ =~= seen + lists_traits(ls.take(e + 1)));
                }
                push_traits(&mut traits, scope.edition_modules[e].as_slice(), Ghost(before));
                e += 1;
            }
            proof {
                assert(ls.take(ls.len() as int) =~= ls);
            }
        },
        None => {
            complete = false;
            proof {
                assert(seen + Seq::<TraitSymbol>::empty() =~= seen);
            }
        },
    }
    (traits, complete)
}

} // verus!
