use lua_analyser::{AstWalk, Event, LuaAnalyserVisitor, LuaAnalysis, Position};

/// The position of the `nth` occurrence (from 0) of the identifier `word` in `code`.
fn pos(code: &str, word: &str, nth: usize) -> Position {
    let bytes = code.as_bytes();
    let is_ident = |b: u8| b.is_ascii_alphanumeric() || b == b'_';
    let mut seen = 0;
    let mut start = 0;
    while let Some(found) = code[start..].find(word) {
        let at = start + found;
        let end = at + word.len();
        let before_ok = at == 0 || !is_ident(bytes[at - 1]);
        let after_ok = end == bytes.len() || !is_ident(bytes[end]);
        if before_ok && after_ok {
            if seen == nth {
                let line = code[..at].matches('\n').count() + 1;
                let line_start = code[..at].rfind('\n').map(|i| i + 1).unwrap_or(0);
                return Position { bytes: at, line, character: at - line_start + 1 };
            }
            seen += 1;
        }
        start = at + 1;
    }
    panic!("{word} occurs fewer than {} times", nth + 1)
}

fn local(name: &str) -> Event {
    Event::LocalName(name.to_string())
}

fn params(names: &[&str]) -> Event {
    Event::Parameters(names.iter().map(|n| n.to_string()).collect())
}

fn assign(code: &str, name: &str, nth: usize) -> Event {
    Event::AssignName(name.to_string(), pos(code, name, nth))
}

fn read(code: &str, name: &str, nth: usize) -> Event {
    Event::ReadName(name.to_string(), pos(code, name, nth))
}

fn walk(events: Vec<Event>) -> AstWalk {
    AstWalk { events }
}

#[test]
fn indexes_global_defs() {
    let code = "x = 123";
    let ast = walk(vec![Event::BlockStart, assign(code, "x", 0), Event::BlockEnd]);
    let analysis = LuaAnalysis::from_ast(&ast);
    assert_eq!(analysis.global_vars().len(), 1);
    assert_eq!(&analysis.global_vars()[0].name, "x");
}

#[test]
fn ignores_local_defs_and_expr_assigns() {
    let code = r#"
        local x = 1
        y = 2
        z.b.a = 3
        z.c = 4
        "#;
    // `z.b.a` and `z.c` are compound targets: the walk holds no node for them.
    let ast = walk(vec![Event::BlockStart, local("x"), assign(code, "y", 0), Event::BlockEnd]);
    let analysis = LuaAnalysis::from_ast(&ast);
    assert_eq!(analysis.global_vars().len(), 1);
    assert_eq!(&analysis.global_vars()[0].name, "y");
}

#[test]
fn include_nested_assigns() {
    let code = r#"
        function highest(n1, n2)
            if n1 > n2 then
                y = n1;
                return n1;
            else
                y = n2;
                return n2;
            end
        end
        "#;
    let ast = walk(vec![
        Event::BlockStart,
        params(&["n1", "n2"]),
        Event::BlockStart,
        read(code, "n1", 1),
        read(code, "n2", 1),
        Event::BlockStart,
        assign(code, "y", 0),
        read(code, "n1", 2),
        read(code, "n1", 3),
        Event::BlockEnd,
        Event::BlockStart,
        assign(code, "y", 1),
        read(code, "n2", 2),
        read(code, "n2", 3),
        Event::BlockEnd,
        Event::BlockEnd,
        Event::BlockEnd,
    ]);
    let analysis = LuaAnalysis::from_ast(&ast);
    assert_eq!(analysis.global_vars().len(), 1);
    assert_eq!(&analysis.global_vars()[0].name, "y");
}

#[test]
fn reassigned_locals_are_not_globals() {
    let code = r#"local x = 1;
        local y = 2;
        x = 3;
        function test()
            x = 4;
            y = 5;
            z = x;
        end
        "#;
    let ast = walk(vec![
        Event::BlockStart,
        local("x"),
        local("y"),
        assign(code, "x", 1),
        params(&[]),
        Event::BlockStart,
        assign(code, "x", 2),
        assign(code, "y", 1),
        assign(code, "z", 0),
        read(code, "x", 3),
        Event::BlockEnd,
        Event::BlockEnd,
    ]);
    let mut visitor = LuaAnalyserVisitor::new();
    visitor.visit_ast(&ast);
    assert_eq!(visitor.global_vars().len(), 1);
    assert_eq!(&visitor.global_vars()[0].name, "z");
}

#[test]
fn function_arguments_are_locals() {
    let code = r#"
        function with_args(n1, n2)
            n1 = 1;
            n2 = 2;
        end
        "#;
    let ast = walk(vec![
        Event::BlockStart,
        params(&["n1", "n2"]),
        Event::BlockStart,
        assign(code, "n1", 1),
        assign(code, "n2", 1),
        Event::BlockEnd,
        Event::BlockEnd,
    ]);
    let analysis = LuaAnalysis::from_ast(&ast);
    assert!(analysis.global_vars().is_empty());
}

fn usages_program() -> (&'static str, AstWalk) {
    let code = r#"
        x = 1;
        y = 2;
        local z = 3;
        function example()
            z = x + y;
            print(x);
            z = x;
        end
        "#;
    let ast = walk(vec![
        Event::BlockStart,
        assign(code, "x", 0),
        assign(code, "y", 0),
        local("z"),
        params(&[]),
        Event::BlockStart,
        assign(code, "z", 1),
        read(code, "x", 1),
        read(code, "y", 1),
        read(code, "print", 0),
        read(code, "x", 2),
        assign(code, "z", 2),
        read(code, "x", 3),
        Event::BlockEnd,
        Event::BlockEnd,
    ]);
    (code, ast)
}

#[test]
fn includes_all_global_usages() {
    let (_, ast) = usages_program();
    let analysis = LuaAnalysis::from_ast(&ast);
    let x = "x".to_string();
    let y = "y".to_string();
    let print = "print".to_string();
    assert_eq!(analysis.global_usages().len(), 3);
    assert_eq!(analysis.usages_of(&x).unwrap().len(), 3);
    assert_eq!(analysis.usages_of(&y).unwrap().len(), 1);
    assert_eq!(analysis.usages_of(&print).unwrap().len(), 1);
}

#[test]
fn local_function_usages_are_ignored() {
    let code = r#"
        local function example(y)
            print(y);
        end
        example();
        "#;
    let ast = walk(vec![
        Event::BlockStart,
        local("example"),
        params(&["y"]),
        Event::BlockStart,
        read(code, "print", 0),
        read(code, "y", 1),
        Event::BlockEnd,
        read(code, "example", 1),
        Event::BlockEnd,
    ]);
    let analysis = LuaAnalysis::from_ast(&ast);
    let print = "print".to_string();
    assert!(analysis.global_vars().is_empty());
    assert_eq!(analysis.global_usages().len(), 1);
    assert_eq!(analysis.usages_of(&print).unwrap().len(), 1);
}
