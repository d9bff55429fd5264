use crate::analyser::Diagnostic;
use crate::walk::{EventView, Position};
use vstd::prelude::*;

verus! {

/// One lexical scope: the names declared local in it and its parent's index.
pub struct ScopeView {
    pub locals: Seq<Seq<char>>,
    pub parent: Option<int>,
}

/// The state of an analysis in progress.
pub struct Model {
    /// The arena of every scope entered so far.
    pub scopes: Seq<ScopeView>,
    /// The index of the active scope, if any.
    pub current: Option<int>,
    /// Parameters waiting for the body block of their function.
    pub pending: Seq<Seq<char>>,
    /// Global definitions: each name with its assignment positions.
    pub defs: Seq<(Seq<char>, Seq<Position>)>,
    /// Global usages: each name with its read positions.
    pub uses: Seq<(Seq<char>, Seq<Position>)>,
    /// Scope-stack inconsistencies met on the way.
    pub diagnostics: Seq<Diagnostic>,
}

/// Whether `n` is declared in scope `i` or in one of its ancestors.
pub open spec fn visible(scopes: Seq<ScopeView>, i: int, n: Seq<char>) -> bool
    decreases i,
{
    if 0 <= i < scopes.len() {
        scopes[i].locals.contains(n) || match scopes[i].parent {
            Some(p) => 0 <= p < i && visible(scopes, p, n),
            None => false,
        }
    } else {
        false
    }
}

/// Whether `n` is local at the current point of the analysis.
pub open spec fn is_local(m: Model, n: Seq<char>) -> bool {
    match m.current {
        Some(c) => visible(m.scopes, c, n),
        None => false,
    }
}

/// Names of a result list are pairwise distinct.
pub open spec fn unique_names(e: Seq<(Seq<char>, Seq<Position>)>) -> bool {
    forall|i: int, j: int| 0 <= i < e.len() && 0 <= j < e.len() && i != j ==> e[i].0 != e[j].0
}

pub open spec fn has_name(e: Seq<(Seq<char>, Seq<Position>)>, n: Seq<char>) -> bool {
    exists|i: int| 0 <= i < e.len() && e[i].0 == n
}

/// The positions recorded for `n`, or none.
pub open spec fn positions_of(e: Seq<(Seq<char>, Seq<Position>)>, n: Seq<char>) -> Seq<Position> {
    if has_name(e, n) {
        let i = choose|i: int| 0 <= i < e.len() && e[i].0 == n;
        e[i].1
    } else {
        Seq::empty()
    }
}

/// Record `p` for `n`: appended to the entry of `n`, or a new entry at the end.
pub open spec fn merge(
    e: Seq<(Seq<char>, Seq<Position>)>,
    n: Seq<char>,
    p: Position,
) -> Seq<(Seq<char>, Seq<Position>)> {
    if has_name(e, n) {
        let i = choose|i: int| 0 <= i < e.len() && e[i].0 == n;
        e.update(i, (n, e[i].1.push(p)))
    } else {
        e.push((n, seq![p]))
    }
}

/// Declaring a name that a scope already holds changes nothing.
pub open spec fn add_name(locals: Seq<Seq<char>>, n: Seq<char>) -> Seq<Seq<char>> {
    if locals.contains(n) {
        locals
    } else {
        locals.push(n)
    }
}

pub open spec fn add_names(locals: Seq<Seq<char>>, ns: Seq<Seq<char>>) -> Seq<Seq<char>>
    decreases ns.len(),
{
    if ns.len() == 0 {
        locals
    } else {
        add_name(add_names(locals, ns.drop_last()), ns.last())
    }
}

/// The state that no scope has yet been entered.
pub open spec fn initial() -> Model {
    Model {
        scopes: Seq::empty(),
        current: None,
        pending: Seq::empty(),
        defs: Seq::empty(),
        uses: Seq::empty(),
        diagnostics: Seq::empty(),
    }
}

/// Push a new, empty scope whose parent is the active one, and make it active.
pub open spec fn enter(m: Model) -> Model {
    Model {
        scopes: m.scopes.push(ScopeView { locals: Seq::empty(), parent: m.current }),
        current: Some(m.scopes.len() as int),
        ..m
    }
}

/// Make the active scope's parent active; without one, only a diagnostic is recorded.
pub open spec fn exit(m: Model) -> Model {
    match m.current {
        None => Model { diagnostics: m.diagnostics.push(Diagnostic::NoActiveScope), ..m },
        Some(c) => match m.scopes[c].parent {
            None => Model { diagnostics: m.diagnostics.push(Diagnostic::RootScopeExit), ..m },
            Some(p) => Model { current: Some(p), ..m },
        },
    }
}

/// Declare `n` in the active scope; without one, only a diagnostic is recorded.
pub open spec fn declare(m: Model, n: Seq<char>) -> Model {
    match m.current {
        None => Model { diagnostics: m.diagnostics.push(Diagnostic::NoActiveScope), ..m },
        Some(c) => Model {
            scopes: m.scopes.update(c, ScopeView { locals: add_name(m.scopes[c].locals, n), ..m.scopes[c] }),
            ..m
        },
    }
}

/// Declare each of `ns` in the active scope, in order.
pub open spec fn declare_names(m: Model, ns: Seq<Seq<char>>) -> Model
    decreases ns.len(),
{
    if ns.len() == 0 {
        m
    } else {
        declare(declare_names(m, ns.drop_last()), ns.last())
    }
}

/// The effect of one node of the walk.
pub open spec fn step(m: Model, e: EventView) -> Model {
    match e {
        EventView::BlockStart => declare_names(enter(Model { pending: Seq::empty(), ..m }), m.pending),
        EventView::BlockEnd => exit(m),
        EventView::LocalName(n) => declare(m, n),
        EventView::Parameters(ns) => Model { pending: ns, ..m },
        EventView::AssignName(n, p) => if is_local(m, n) {
            m
        } else {
            Model { defs: merge(m.defs, n, p), ..m }
        },
        EventView::ReadName(n, p) => if is_local(m, n) {
            m
        } else {
            Model { uses: merge(m.uses, n, p), ..m }
        },
    }
}

/// The state after the nodes of `evs`, in order, from `m`.
pub open spec fn run(m: Model, evs: Seq<EventView>) -> Model
    decreases evs.len(),
{
    if evs.len() == 0 {
        m
    } else {
        step(run(m, evs.drop_last()), evs.last())
    }
}

/// The arena is a forest whose parent links point to earlier scopes, no
/// scope holds a name twice, the active scope exists, and no name has two
/// result entries.
pub open spec fn model_wf(m: Model) -> bool {
    &&& forall|i: int| 0 <= i < m.scopes.len() ==> match #[trigger] m.scopes[i].parent {
        Some(p) => 0 <= p < i,
        None => true,
    }
    &&& forall|i: int| 0 <= i < m.scopes.len() ==> (#[trigger] m.scopes[i]).locals.no_duplicates()
    &&& match m.current {
        Some(c) => 0 <= c < m.scopes.len(),
        None => true,
    }
    &&& unique_names(m.defs)
    &&& unique_names(m.uses)
}

/// What an analysis reports.
pub struct Analysis {
    pub defs: Seq<(Seq<char>, Seq<Position>)>,
    pub uses: Seq<(Seq<char>, Seq<Position>)>,
    pub diagnostics: Seq<Diagnostic>,
}

/// The report of a finished run.
pub open spec fn report(m: Model) -> Analysis {
    Analysis { defs: m.defs, uses: m.uses, diagnostics: m.diagnostics }
}

/// The report on a whole walk, from a fresh state.
pub open spec fn analyse(evs: Seq<EventView>) -> Analysis {
    report(run(initial(), evs))
}

} // verus!
