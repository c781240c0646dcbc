use sage_ir::resolve::{traits_in_method_scope, GlobModule, ImportEdge, PreludeScope};
use sage_ir::ty::TraitSymbol;

fn prelude(traits: Vec<TraitSymbol>) -> Option<PreludeScope> {
    Some(PreludeScope { prelude_modules: 1, edition_modules: vec![traits] })
}

#[test]
fn module_imports_and_prelude_traits_are_listed_once_in_order() {
    let imports = vec![
        ImportEdge::Named { traits: vec![TraitSymbol(2), TraitSymbol(1)], resolved: true },
        ImportEdge::Glob {
            modules: vec![GlobModule::External(vec![TraitSymbol(3), TraitSymbol(2)])],
        },
    ];
    let (traits, complete) = traits_in_method_scope(
        true,
        &[TraitSymbol(1)],
        &imports,
        prelude(vec![TraitSymbol(4), TraitSymbol(1)]),
    );
    assert_eq!(
        traits,
        vec![
            (TraitSymbol(1), true),
            (TraitSymbol(2), true),
            (TraitSymbol(3), true),
            (TraitSymbol(4), true),
        ]
    );
    assert!(complete);
}

#[test]
fn unresolved_import_or_local_glob_makes_the_scope_incomplete() {
    let unresolved = vec![ImportEdge::Named { traits: Vec::new(), resolved: false }];
    let (_, complete) = traits_in_method_scope(true, &[], &unresolved, prelude(Vec::new()));
    assert!(!complete);

    let local_glob = vec![ImportEdge::Glob { modules: vec![GlobModule::Local] }];
    let (traits, complete) =
        traits_in_method_scope(true, &[TraitSymbol(5)], &local_glob, prelude(Vec::new()));
    assert_eq!(traits, vec![(TraitSymbol(5), true)]);
    assert!(!complete);

    let empty_glob = vec![ImportEdge::Glob { modules: Vec::new() }];
    let (_, complete) = traits_in_method_scope(true, &[], &empty_glob, prelude(Vec::new()));
    assert!(!complete);

    let external = vec![ImportEdge::External];
    let (_, complete) = traits_in_method_scope(true, &[], &external, prelude(Vec::new()));
    assert!(!complete);
}

#[test]
fn missing_or_ambiguous_prelude_makes_the_scope_incomplete() {
    let (_, complete) = traits_in_method_scope(true, &[], &[], None);
    assert!(!complete);
    let two = Some(PreludeScope {
        prelude_modules: 1,
        edition_modules: vec![vec![TraitSymbol(1)], vec![TraitSymbol(2)]],
    });
    let (traits, complete) = traits_in_method_scope(true, &[], &[], two);
    assert_eq!(traits, vec![(TraitSymbol(1), true), (TraitSymbol(2), true)]);
    assert!(!complete);
    let (_, complete) = traits_in_method_scope(false, &[], &[], prelude(Vec::new()));
    assert!(!complete);
}
