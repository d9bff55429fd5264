use crate::model::{
    add_name, analyse, declare, declare_names, enter, exit, has_name, initial, is_local, merge, model_wf, positions_of, run,
    step, unique_names, visible, Analysis, Model, ScopeView,
};
use crate::walk::{names_view, AstWalk, Event, EventView, Position};
use vstd::prelude::*;

verus! {

/// A scope-stack inconsistency that the analysis stepped over.
#[derive(Clone, Copy, Debug, PartialEq, Eq, Structural)]
pub enum Diagnostic {
    /// A block ended, or a name was declared, while no scope was active.
    NoActiveScope,
    /// The root scope was asked to end.
    RootScopeExit,
}

/// One global variable: its name and the position of each assignment to it.
#[derive(Clone, Debug)]
pub struct VariableDefinition {
    pub name: String,
    pub assign_positions: Vec<Position>,
}

/// One global name that is read, with the position of each read.
#[derive(Clone, Debug)]
pub struct GlobalUsage {
    pub name: String,
    pub positions: Vec<Position>,
}

/// One lexical scope of the arena.
#[derive(Debug)]
pub struct Scope {
    pub local_vars: Vec<String>,
    pub parent: Option<usize>,
}

impl View for Scope {
    type V = ScopeView;

    open spec fn view(&self) -> ScopeView {
        ScopeView {
            locals: names_view(self.local_vars@),
            parent: match self.parent {
                Some(p) => Some(p as int),
                None => None,
            },
        }
    }
}

pub open spec fn defs_view(v: Seq<VariableDefinition>) -> Seq<(Seq<char>, Seq<Position>)> {
    v.map_values(|d: VariableDefinition| (d.name@, d.assign_positions@))
}

pub open spec fn uses_view(v: Seq<GlobalUsage>) -> Seq<(Seq<char>, Seq<Position>)> {
    v.map_values(|u: GlobalUsage| (u.name@, u.positions@))
}

/// The result of analysing one program.
#[derive(Debug)]
pub struct LuaAnalysis {
    global_vars: Vec<VariableDefinition>,
    global_usages: Vec<GlobalUsage>,
    diagnostics: Vec<Diagnostic>,
}

/// The scope-resolution engine: walks a program and classifies each name.
#[derive(Debug)]
pub struct LuaAnalyserVisitor {
    global_vars: Vec<VariableDefinition>,
    global_usages: Vec<GlobalUsage>,
    scopes: Vec<Scope>,
    current_scope: Option<usize>,
    pending_params: Vec<String>,
    diagnostics: Vec<Diagnostic>,
}

impl View for LuaAnalyserVisitor {
    type V = Model;

    closed spec fn view(&self) -> Model {
        Model {
            scopes: self.scopes@.map_values(|s: Scope| s@),
            current: match self.current_scope {
                Some(c) => Some(c as int),
                None => None,
            },
            pending: names_view(self.pending_params@),
            defs: defs_view(self.global_vars@),
            uses: uses_view(self.global_usages@),
            diagnostics: self.diagnostics@,
        }
    }
}

/// Whether `v` holds a string equal to `n`.
fn contains_name(v: &Vec<String>, n: &String) -> (r: bool)
    ensures
        r == names_view(v@).contains(n@),
{
    let mut i: usize = 0;
    while i < v.len()
        invariant
            i <= v.len(),
            forall|j: int| 0 <= j < i ==> v@[j]@ != n@,
        decreases v.len() - i,
    {
        if v[i] == *n {
            assert(names_view(v@)[i as int] == n@);
            return true;
        }
        i += 1;
    }
    proof {
        if names_view(v@).contains(n@) {
            let k = choose|k: int| 0 <= k < names_view(v@).len() && names_view(v@)[k] == n@;
            assert(v@[k]@ == n@);
        }
    }
    false
}

impl LuaAnalyserVisitor {
    pub open spec fn wf(&self) -> bool {
        model_wf(self@)
    }

    /// A fresh engine: no scope, no results.
    pub fn new() -> (r: Self)
        ensures
            r.wf(),
            r@ == initial(),
    {
        let r = Self {
            global_vars: Vec::new(),
            global_usages: Vec::new(),
            scopes: Vec::new(),
            current_scope: None,
            pending_params: Vec::new(),
            diagnostics: Vec::new(),
        };
        assert(r@.scopes =~= Seq::empty());
        assert(r@.pending =~= Seq::empty());
        assert(r@.defs =~= Seq::empty());
        assert(r@.uses =~= Seq::empty());
        r
    }

    /// Whether `name` is declared in the active scope or one of its ancestors.
    pub fn is_local(&self, name: &String) -> (r: bool)
        requires
            self.wf(),
        ensures
            r == is_local(self@, name@),
    {
        match self.current_scope {
            None => false,
            Some(start) => {
                let mut idx: usize = start;
                loop
                    invariant
                        self.wf(),
                        self.current_scope == Some(start),
                        idx < self.scopes.len(),
                        visible(self@.scopes, start as int, name@) == visible(self@.scopes, idx as int, name@),
                    decreases idx,
                {
                    let scope = &self.scopes[idx];
                    assert(self@.scopes[idx as int] == scope@);
                    let found = contains_name(&scope.local_vars, name);
                    proof {
                        let sc = self@.scopes;
                        assert(sc[idx as int] == scope@);
                        assert(sc[idx as int].locals.contains(name@) == found);
                        assert(visible(sc, idx as int, name@) == (sc[idx as int].locals.contains(name@) || match sc[idx as int].parent {
                            Some(p) => 0 <= p < idx && visible(sc, p, name@),
                            None => false,
                        }));
                    }
                    if found {
                        return true;
                    }
                    match scope.parent {
                        None => {
                            return false;
                        },
                        Some(p) => {
                            idx = p;
                        },
                    }
                }
            },
        }
    }
}


/// A copy of `v`, string by string.
fn copy_names(v: &Vec<String>) -> (r: Vec<String>)
    ensures
        names_view(r@) == names_view(v@),
{
    let mut r: Vec<String> = Vec::new();
    let mut i: usize = 0;
    while i < v.len()
        invariant
            i <= v.len(),
            names_view(r@) == names_view(v@).take(i as int),
        decreases v.len() - i,
    {
        let s = v[i].clone();
        let ghost prev = names_view(r@);
        r.push(s);
        proof {
            assert(names_view(r@) =~= prev.push(v@[i as int]@));
            assert(names_view(r@) =~= names_view(v@).take(i + 1));
        }
        i += 1;
    }
    proof {
        assert(names_view(v@).take(v@.len() as int) =~= names_view(v@));
    }
    r
}

impl LuaAnalyserVisitor {
    /// Push a new, empty scope whose parent is the active one, and make it
    /// active.
    pub fn enter_scope(&mut self)
        requires
            old(self).wf(),
        ensures
            final(self).wf(),
            final(self)@ == enter(old(self)@),
    {
        let parent = self.current_scope;
        let ghost before = self@;
        let local_vars: Vec<String> = Vec::new();
        assert(names_view(local_vars@) =~= Seq::<Seq<char>>::empty());
        self.scopes.push(Scope { local_vars, parent });
        self.current_scope = Some(self.scopes.len() - 1);
        proof {
            assert(self@.scopes =~= enter(before).scopes);
        }
    }

    /// Make the parent of the active scope active. Without an active scope,
    /// or at the root, nothing changes but a recorded diagnostic.
    pub fn exit_scope(&mut self)
        requires
            old(self).wf(),
        ensures
            final(self).wf(),
            final(self)@ == exit(old(self)@),
    {
        match self.current_scope {
            None => {
                self.diagnostics.push(Diagnostic::NoActiveScope);
            },
            Some(c) => {
                assert(self@.scopes[c as int] == self.scopes@[c as int]@);
                match self.scopes[c].parent {
                    None => {
                        self.diagnostics.push(Diagnostic::RootScopeExit);
                    },
                    Some(p) => {
                        self.current_scope = Some(p);
                    },
                }
            },
        }
    }

    /// Declare `name` in the active scope. Without an active scope nothing
    /// changes but a recorded diagnostic.
    pub fn add_local_var(&mut self, name: String)
        requires
            old(self).wf(),
        ensures
            final(self).wf(),
            final(self)@ == declare(old(self)@, name@),
    {
        match self.current_scope {
            None => {
                self.diagnostics.push(Diagnostic::NoActiveScope);
            },
            Some(c) => {
                let ghost before = self@;
                assert(before.scopes[c as int] == self.scopes@[c as int]@);
                let present = contains_name(&self.scopes[c].local_vars, &name);
                let ghost nv = name@;
                if !present {
                    self.scopes[c].local_vars.push(name);
                    proof {
                        let old_locals = before.scopes[c as int].locals;
                        assert(names_view(self.scopes@[c as int].local_vars@) =~= old_locals.push(nv));
                        assert forall|x: int, y: int| 0 <= x < y < old_locals.len() + 1 implies old_locals.push(nv)[x]
                            != old_locals.push(nv)[y] by {
                            if y == old_locals.len() {
                                assert(old_locals[x] != nv);
                            }
                        }
                    }
                }
                proof {
                    assert(self.scopes@[c as int]@.locals =~= add_name(before.scopes[c as int].locals, nv));
                    assert(self.scopes@[c as int]@ == ScopeView {
                        locals: add_name(before.scopes[c as int].locals, nv),
                        ..before.scopes[c as int]
                    });
                    assert(self@.scopes =~= declare(before, nv).scopes);
                }
            },
        }
    }

    /// Record an assignment to `name` at `position` unless `name` is local:
    /// appended to the definition of `name`, or a new definition at the end.
    pub fn add_global_var(&mut self, name: String, position: Position)
        requires
            old(self).wf(),
        ensures
            final(self).wf(),
            final(self)@ == step(old(self)@, EventView::AssignName(name@, position)),
    {
        if self.is_local(&name) {
            return;
        }
        let ghost before = self@;
        let mut i: usize = 0;
        while i < self.global_vars.len()
            invariant
                i <= self.global_vars.len(),
                self@ == before,
                before == old(self)@,
                model_wf(before),
                !is_local(before, name@),
                forall|j: int| 0 <= j < i ==> before.defs[j].0 != name@,
            decreases self.global_vars.len() - i,
        {
            if self.global_vars[i].name == name {
                assert(before.defs[i as int].0 == name@);
                self.global_vars[i].assign_positions.push(position);
                proof {
                    let k = choose|k: int| 0 <= k < before.defs.len() && before.defs[k].0 == name@;
                    assert(k == i);
                    assert(self@.defs =~= merge(before.defs, name@, position));
                }
                return;
            }
            i += 1;
        }
        let ghost nv = name@;
        let v = vec![position];
        assert(v@ =~= seq![position]);
        self.global_vars.push(VariableDefinition { name, assign_positions: v });
        proof {
            assert(!has_name(before.defs, nv));
            assert(self@.defs =~= merge(before.defs, nv, position));
        }
    }

    /// Record a read of `name` at `position` unless `name` is local:
    /// appended to the usages of `name`, or a new entry at the end.
    pub fn add_global_usage(&mut self, name: String, position: Position)
        requires
            old(self).wf(),
        ensures
            final(self).wf(),
            final(self)@ == step(old(self)@, EventView::ReadName(name@, position)),
    {
        if self.is_local(&name) {
            return;
        }
        let ghost before = self@;
        let mut i: usize = 0;
        while i < self.global_usages.len()
            invariant
                i <= self.global_usages.len(),
                self@ == before,
                before == old(self)@,
                model_wf(before),
                !is_local(before, name@),
                forall|j: int| 0 <= j < i ==> before.uses[j].0 != name@,
            decreases self.global_usages.len() - i,
        {
            if self.global_usages[i].name == name {
                assert(before.uses[i as int].0 == name@);
                self.global_usages[i].positions.push(position);
                proof {
                    let k = choose|k: int| 0 <= k < before.uses.len() && before.uses[k].0 == name@;
                    assert(k == i);
                    assert(self@.uses =~= merge(before.uses, name@, position));
                }
                return;
            }
            i += 1;
        }
        let ghost nv = name@;
        let v = vec![position];
        assert(v@ =~= seq![position]);
        self.global_usages.push(GlobalUsage { name, positions: v });
        proof {
            assert(!has_name(before.uses, nv));
            assert(self@.uses =~= merge(before.uses, nv, position));
        }
    }

    /// Take every node of a walk into account, in order.
    pub fn visit_ast(&mut self, ast: &AstWalk)
        requires
            old(self).wf(),
        ensures
            final(self).wf(),
            final(self)@ == run(old(self)@, ast@),
    {
        let mut i: usize = 0;
        while i < ast.events.len()
            invariant
                i <= ast.events.len(),
                self.wf(),
                self@ == run(old(self)@, ast@.take(i as int)),
            decreases ast.events.len() - i,
        {
            self.visit(&ast.events[i]);
            proof {
                assert(ast@.take(i + 1).drop_last() =~= ast@.take(i as int));
            }
            i += 1;
        }
        proof {
            assert(ast@.take(ast@.len() as int) =~= ast@);
        }
    }

    /// The global definitions recorded so far.
    pub fn global_vars(&self) -> (r: &Vec<VariableDefinition>)
        ensures
            defs_view(r@) == self@.defs,
    {
        &self.global_vars
    }

    /// The global usages recorded so far.
    pub fn global_usages(&self) -> (r: &Vec<GlobalUsage>)
        ensures
            uses_view(r@) == self@.uses,
    {
        &self.global_usages
    }

    /// Take one node of the walk into account.
    pub fn visit(&mut self, event: &Event)
        requires
            old(self).wf(),
        ensures
            final(self).wf(),
            final(self)@ == step(old(self)@, event@),
    {
        match event {
            Event::BlockStart => {
                let params = copy_names(&self.pending_params);
                let ghost pv = names_view(params@);
                self.pending_params = Vec::new();
                proof {
                    assert(names_view(self.pending_params@) =~= Seq::<Seq<char>>::empty());
                    assert(self@ == Model { pending: Seq::empty(), ..old(self)@ });
                }
                self.enter_scope();
                let ghost base = self@;
                let mut i: usize = 0;
                while i < params.len()
                    invariant
                        i <= params.len(),
                        pv == names_view(params@),
                        self.wf(),
                        self@ == declare_names(base, pv.take(i as int)),
                    decreases params.len() - i,
                {
                    self.add_local_var(params[i].clone());
                    proof {
                        assert(pv.take(i + 1).drop_last() =~= pv.take(i as int));
                    }
                    i += 1;
                }
                proof {
                    assert(pv.take(pv.len() as int) =~= pv);
                }
            },
            Event::BlockEnd => self.exit_scope(),
            Event::LocalName(n) => self.add_local_var(n.clone()),
            Event::Parameters(ns) => {
                self.pending_params = copy_names(ns);
            },
            Event::AssignName(n, p) => self.add_global_var(n.clone(), *p),
            Event::ReadName(n, p) => self.add_global_usage(n.clone(), *p),
        }
    }
}

impl View for LuaAnalysis {
    type V = Analysis;

    closed spec fn view(&self) -> Analysis {
        Analysis {
            defs: defs_view(self.global_vars@),
            uses: uses_view(self.global_usages@),
            diagnostics: self.diagnostics@,
        }
    }
}

impl LuaAnalysis {
    pub open spec fn wf(&self) -> bool {
        unique_names(self@.defs) && unique_names(self@.uses)
    }

    /// Analyse a whole program with a fresh engine.
    pub fn from_ast(ast: &AstWalk) -> (r: Self)
        ensures
            r.wf(),
            r@ == analyse(ast@),
    {
        let mut visitor = LuaAnalyserVisitor::new();
        visitor.visit_ast(ast);
        LuaAnalysis {
            global_vars: visitor.global_vars,
            global_usages: visitor.global_usages,
            diagnostics: visitor.diagnostics,
        }
    }

    /// The global definitions, in order of first assignment.
    pub fn global_vars(&self) -> (r: &Vec<VariableDefinition>)
        ensures
            defs_view(r@) == self@.defs,
    {
        &self.global_vars
    }

    /// The global usages, in order of first read.
    pub fn global_usages(&self) -> (r: &Vec<GlobalUsage>)
        ensures
            uses_view(r@) == self@.uses,
    {
        &self.global_usages
    }

    /// The scope-stack inconsistencies that the analysis stepped over.
    pub fn diagnostics(&self) -> (r: &Vec<Diagnostic>)
        ensures
            r@ == self@.diagnostics,
    {
        &self.diagnostics
    }

    /// The positions where the global `name` is read, if it is read at all.
    pub fn usages_of(&self, name: &String) -> (r: Option<&Vec<Position>>)
        requires
            self.wf(),
        ensures
            r is Some <==> has_name(self@.uses, name@),
            r is Some ==> r->0@ == positions_of(self@.uses, name@),
    {
        let mut i: usize = 0;
        while i < self.global_usages.len()
            invariant
                i <= self.global_usages.len(),
                self.wf(),
                forall|j: int| 0 <= j < i ==> self@.uses[j].0 != name@,
            decreases self.global_usages.len() - i,
        {
            if self.global_usages[i].name == *name {
                proof {
                    assert(self@.uses[i as int].0 == name@);
                    let k = choose|k: int| 0 <= k < self@.uses.len() && self@.uses[k].0 == name@;
                    assert(k == i);
                }
                return Some(&self.global_usages[i].positions);
            }
            i += 1;
        }
        None
    }

    /// The positions where the global `name` is assigned, if it is at all.
    pub fn definition_of(&self, name: &String) -> (r: Option<&Vec<Position>>)
        requires
            self.wf(),
        ensures
            r is Some <==> has_name(self@.defs, name@),
            r is Some ==> r->0@ == positions_of(self@.defs, name@),
    {
        let mut i: usize = 0;
        while i < self.global_vars.len()
            invariant
                i <= self.global_vars.len(),
                self.wf(),
                forall|j: int| 0 <= j < i ==> self@.defs[j].0 != name@,
            decreases self.global_vars.len() - i,
        {
            if self.global_vars[i].name == *name {
                proof {
                    assert(self@.defs[i as int].0 == name@);
                    let k = choose|k: int| 0 <= k < self@.defs.len() && self@.defs[k].0 == name@;
                    assert(k == i);
                }
                return Some(&self.global_vars[i].assign_positions);
            }
            i += 1;
        }
        None
    }
}

} // verus!
