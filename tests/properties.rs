use lua_analyser::{AstWalk, Diagnostic, Event, LuaAnalyserVisitor, LuaAnalysis, Position};

fn at(line: usize, character: usize) -> Position {
    Position { bytes: 0, line, character }
}

fn assign(name: &str, line: usize, character: usize) -> Event {
    Event::AssignName(name.to_string(), at(line, character))
}

fn read(name: &str, line: usize, character: usize) -> Event {
    Event::ReadName(name.to_string(), at(line, character))
}

fn local(name: &str) -> Event {
    Event::LocalName(name.to_string())
}

#[test]
fn single_definition_has_its_position() {
    let ast = AstWalk { events: vec![Event::BlockStart, assign("x", 1, 1), Event::BlockEnd] };
    let analysis = LuaAnalysis::from_ast(&ast);
    assert_eq!(analysis.global_vars().len(), 1);
    assert_eq!(analysis.global_vars()[0].assign_positions, vec![at(1, 1)]);
    assert!(analysis.global_usages().is_empty());
    // Leaving the top-level block would pop the root scope: a no-op, reported.
    assert_eq!(analysis.diagnostics(), &vec![Diagnostic::RootScopeExit]);
}

#[test]
fn assignments_to_one_global_merge_in_source_order() {
    let ast = AstWalk {
        events: vec![
            Event::BlockStart,
            assign("a", 1, 1),
            assign("b", 2, 1),
            Event::BlockStart,
            assign("a", 3, 5),
            Event::BlockEnd,
            assign("a", 4, 1),
            Event::BlockEnd,
        ],
    };
    let analysis = LuaAnalysis::from_ast(&ast);
    let defs = analysis.global_vars();
    assert_eq!(defs.len(), 2);
    assert_eq!(defs[0].name, "a");
    assert_eq!(defs[0].assign_positions, vec![at(1, 1), at(3, 5), at(4, 1)]);
    assert_eq!(defs[1].name, "b");
    assert_eq!(defs[1].assign_positions, vec![at(2, 1)]);
}

#[test]
fn locals_shadow_in_nested_blocks() {
    let ast = AstWalk {
        events: vec![
            Event::BlockStart,
            local("v"),
            Event::BlockStart,
            Event::BlockStart,
            assign("v", 3, 1),
            read("v", 4, 1),
            Event::BlockEnd,
            Event::BlockEnd,
            assign("v", 6, 1),
            Event::BlockEnd,
        ],
    };
    let analysis = LuaAnalysis::from_ast(&ast);
    assert!(analysis.global_vars().is_empty());
    assert!(analysis.global_usages().is_empty());
}

#[test]
fn block_locals_are_not_seen_by_siblings_or_parent() {
    let ast = AstWalk {
        events: vec![
            Event::BlockStart,
            Event::BlockStart,
            local("t"),
            assign("t", 2, 1),
            Event::BlockEnd,
            Event::BlockStart,
            assign("t", 4, 1),
            Event::BlockEnd,
            read("t", 5, 1),
            Event::BlockEnd,
        ],
    };
    let analysis = LuaAnalysis::from_ast(&ast);
    assert_eq!(analysis.global_vars().len(), 1);
    assert_eq!(analysis.global_vars()[0].assign_positions, vec![at(4, 1)]);
    let t = "t".to_string();
    assert_eq!(analysis.usages_of(&t).unwrap(), &vec![at(5, 1)]);
}

#[test]
fn engine_scope_is_restored_after_a_block() {
    let mut visitor = LuaAnalyserVisitor::new();
    let t = "t".to_string();
    visitor.enter_scope();
    visitor.enter_scope();
    visitor.add_local_var(t.clone());
    assert!(visitor.is_local(&t));
    visitor.exit_scope();
    assert!(!visitor.is_local(&t));
}

#[test]
fn definitions_and_usages_are_separate() {
    let ast = AstWalk {
        events: vec![
            Event::BlockStart,
            assign("g", 1, 1),
            read("g", 2, 5),
            read("g", 3, 5),
            assign("g", 4, 1),
            Event::BlockEnd,
        ],
    };
    let analysis = LuaAnalysis::from_ast(&ast);
    let g = "g".to_string();
    assert_eq!(analysis.definition_of(&g).unwrap(), &vec![at(1, 1), at(4, 1)]);
    assert_eq!(analysis.usages_of(&g).unwrap(), &vec![at(2, 5), at(3, 5)]);
}

#[test]
fn reanalysis_gives_the_same_result() {
    let ast = AstWalk {
        events: vec![
            Event::BlockStart,
            assign("a", 1, 1),
            read("b", 1, 5),
            local("c"),
            read("c", 2, 1),
            Event::BlockEnd,
        ],
    };
    let first = LuaAnalysis::from_ast(&ast);
    let second = LuaAnalysis::from_ast(&ast);
    assert_eq!(format!("{first:?}"), format!("{second:?}"));
}

#[test]
fn parameters_belong_to_the_function_body() {
    let ast = AstWalk {
        events: vec![
            Event::BlockStart,
            Event::Parameters(vec!["p".to_string(), "p".to_string()]),
            Event::BlockStart,
            assign("p", 2, 1),
            Event::BlockEnd,
            assign("p", 4, 1),
            Event::BlockEnd,
        ],
    };
    let analysis = LuaAnalysis::from_ast(&ast);
    assert_eq!(analysis.global_vars().len(), 1);
    assert_eq!(analysis.global_vars()[0].assign_positions, vec![at(4, 1)]);
}

#[test]
fn empty_walk_gives_empty_result() {
    let analysis = LuaAnalysis::from_ast(&AstWalk { events: vec![] });
    assert!(analysis.global_vars().is_empty());
    assert!(analysis.global_usages().is_empty());
    assert!(analysis.diagnostics().is_empty());
}

#[test]
fn exiting_the_root_scope_is_a_diagnostic() {
    let ast = AstWalk {
        events: vec![Event::BlockStart, Event::BlockEnd, Event::BlockEnd, assign("r", 1, 1)],
    };
    let analysis = LuaAnalysis::from_ast(&ast);
    assert_eq!(analysis.diagnostics(), &vec![Diagnostic::RootScopeExit, Diagnostic::RootScopeExit]);
    assert_eq!(analysis.global_vars().len(), 1);
}

#[test]
fn events_without_a_scope_are_diagnostics() {
    let ast = AstWalk { events: vec![Event::BlockEnd, local("q"), read("q", 1, 1)] };
    let analysis = LuaAnalysis::from_ast(&ast);
    assert_eq!(analysis.diagnostics(), &vec![Diagnostic::NoActiveScope, Diagnostic::NoActiveScope]);
    let q = "q".to_string();
    assert_eq!(analysis.usages_of(&q).unwrap(), &vec![at(1, 1)]);
}

#[test]
fn redeclaring_a_local_is_harmless() {
    let mut visitor = LuaAnalyserVisitor::new();
    let w = "w".to_string();
    visitor.enter_scope();
    visitor.add_local_var(w.clone());
    visitor.add_local_var(w.clone());
    assert!(visitor.is_local(&w));
    visitor.add_global_var(w.clone(), at(1, 1));
    visitor.add_global_usage(w.clone(), at(1, 5));
    assert!(visitor.global_vars().is_empty());
    assert!(visitor.global_usages().is_empty());
}

#[test]
fn branch_local_is_global_in_sibling_and_after() {
    // if c then local a = 1 else a = 2 end a = 3
    let ast = AstWalk {
        events: vec![
            Event::BlockStart,
            read("c", 1, 4),
            Event::BlockStart,
            local("a"),
            Event::BlockEnd,
            Event::BlockStart,
            assign("a", 1, 28),
            Event::BlockEnd,
            assign("a", 1, 40),
            Event::BlockEnd,
        ],
    };
    let analysis = LuaAnalysis::from_ast(&ast);
    let a = "a".to_string();
    assert_eq!(analysis.global_vars().len(), 1);
    assert_eq!(analysis.definition_of(&a).unwrap(), &vec![at(1, 28), at(1, 40)]);
}

#[test]
fn parameter_is_global_after_its_function() {
    // function f(p) end p = 1
    let ast = AstWalk {
        events: vec![
            Event::BlockStart,
            Event::Parameters(vec!["p".to_string()]),
            Event::BlockStart,
            Event::BlockEnd,
            assign("p", 1, 19),
            Event::BlockEnd,
        ],
    };
    let analysis = LuaAnalysis::from_ast(&ast);
    let p = "p".to_string();
    assert_eq!(analysis.definition_of(&p).unwrap(), &vec![at(1, 19)]);
}

#[test]
fn entered_scope_starts_empty() {
    let mut visitor = LuaAnalyserVisitor::new();
    let q = "q".to_string();
    visitor.enter_scope();
    visitor.visit(&Event::Parameters(vec![q.clone()]));
    visitor.enter_scope();
    assert!(!visitor.is_local(&q));
}
