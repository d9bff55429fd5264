use crate::analyser::LuaAnalysis;
use crate::model::{
    add_name, add_names, analyse, declare, declare_names, enter, exit, has_name, initial, is_local, merge, model_wf, positions_of, run, step,
    unique_names, visible, Model, ScopeView,
};
use crate::walk::{EventView, Position};
use vstd::prelude::*;

verus! {

/// The positions of the assignments to `n` in `evs` that were made where
/// `n` was not local, in order, starting from the state `m`.
pub open spec fn global_assigns(m: Model, evs: Seq<EventView>, n: Seq<char>) -> Seq<Position>
    decreases evs.len(),
{
    if evs.len() == 0 {
        Seq::empty()
    } else {
        let before = global_assigns(m, evs.drop_last(), n);
        match evs.last() {
            EventView::AssignName(x, p) => if x == n && !is_local(run(m, evs.drop_last()), n) {
                before.push(p)
            } else {
                before
            },
            _ => before,
        }
    }
}

/// The positions of the reads of `n` in `evs` that were made where `n` was
/// not local, in order, starting from the state `m`.
pub open spec fn global_reads(m: Model, evs: Seq<EventView>, n: Seq<char>) -> Seq<Position>
    decreases evs.len(),
{
    if evs.len() == 0 {
        Seq::empty()
    } else {
        let before = global_reads(m, evs.drop_last(), n);
        match evs.last() {
            EventView::ReadName(x, p) => if x == n && !is_local(run(m, evs.drop_last()), n) {
                before.push(p)
            } else {
                before
            },
            _ => before,
        }
    }
}

proof fn lemma_positions_at(e: Seq<(Seq<char>, Seq<Position>)>, n: Seq<char>, i: int)
    requires
        unique_names(e),
        0 <= i < e.len(),
        e[i].0 == n,
    ensures
        has_name(e, n),
        positions_of(e, n) == e[i].1,
{
    let k = choose|k: int| 0 <= k < e.len() && e[k].0 == n;
    assert(k == i);
}

/// Merging keeps names distinct, appends `p` to the positions of `x`, and
/// leaves every other name's positions alone.
proof fn lemma_merge(e: Seq<(Seq<char>, Seq<Position>)>, x: Seq<char>, p: Position, n: Seq<char>)
    requires
        unique_names(e),
    ensures
        unique_names(merge(e, x, p)),
        positions_of(merge(e, x, p), n) == if x == n {
            positions_of(e, n).push(p)
        } else {
            positions_of(e, n)
        },
        has_name(merge(e, x, p), n) == (has_name(e, n) || x == n),
        merge(e, x, p).len() == e.len() + if has_name(e, x) {
            0int
        } else {
            1int
        },
{
    let r = merge(e, x, p);
    if has_name(e, x) {
        let i = choose|i: int| 0 <= i < e.len() && e[i].0 == x;
        assert(r == e.update(i, (x, e[i].1.push(p))));
        assert forall|a: int, b: int| 0 <= a < r.len() && 0 <= b < r.len() && a != b implies r[a].0 != r[b].0 by {
            assert(r[a].0 == e[a].0);
            assert(r[b].0 == e[b].0);
        }
        lemma_positions_at(e, x, i);
        lemma_positions_at(r, x, i);
        if x != n {
            if has_name(e, n) {
                let j = choose|j: int| 0 <= j < e.len() && e[j].0 == n;
                lemma_positions_at(e, n, j);
                lemma_positions_at(r, n, j);
            } else {
                assert forall|j: int| 0 <= j < r.len() implies r[j].0 != n by {
                    assert(r[j].0 == e[j].0);
                }
            }
        }
    } else {
        assert(r == e.push((x, seq![p])));
        assert forall|a: int, b: int| 0 <= a < r.len() && 0 <= b < r.len() && a != b implies r[a].0 != r[b].0 by {
            if a < e.len() && b < e.len() {
                assert(r[a].0 == e[a].0);
                assert(r[b].0 == e[b].0);
            }
        }
        lemma_positions_at(r, x, e.len() as int);
        if x == n {
            assert(positions_of(e, n) =~= Seq::<Position>::empty());
            assert(seq![p] =~= Seq::<Position>::empty().push(p));
        } else if has_name(e, n) {
            let j = choose|j: int| 0 <= j < e.len() && e[j].0 == n;
            lemma_positions_at(e, n, j);
            lemma_positions_at(r, n, j);
        } else {
            assert forall|j: int| 0 <= j < r.len() implies r[j].0 != n by {
                if j < e.len() {
                    assert(r[j].0 == e[j].0);
                }
            }
        }
    }
}

proof fn lemma_add_name_distinct(s: Seq<Seq<char>>, n: Seq<char>)
    requires
        s.no_duplicates(),
    ensures
        add_name(s, n).no_duplicates(),
        forall|x: Seq<char>| s.contains(x) ==> #[trigger] add_name(s, n).contains(x),
        add_name(s, n).contains(n),
{
    if !s.contains(n) {
        let r = s.push(n);
        assert forall|x: int, y: int| 0 <= x < r.len() && 0 <= y < r.len() && x != y implies r[x] != r[y] by {
            if y == s.len() {
                assert(s[x] != n);
            } else if x == s.len() {
                assert(s[y] != n);
            }
        }
        assert forall|x: Seq<char>| s.contains(x) implies #[trigger] r.contains(x) by {
            let k = choose|k: int| 0 <= k < s.len() && s[k] == x;
            assert(r[k] == x);
        }
        assert(r[s.len() as int] == n);
    }
}

/// Declaring a name touches only the active scope, and keeps the state well formed.
proof fn lemma_declare(m: Model, n: Seq<char>)
    requires
        model_wf(m),
        m.current is Some,
    ensures
        model_wf(declare(m, n)),
        declare(m, n).current == m.current,
        declare(m, n).scopes.len() == m.scopes.len(),
        forall|i: int| 0 <= i < m.scopes.len() && i != m.current->0 ==> #[trigger] declare(m, n).scopes[i] == m.scopes[i],
        declare(m, n).scopes[m.current->0] == (ScopeView {
            locals: add_name(m.scopes[m.current->0].locals, n),
            parent: m.scopes[m.current->0].parent,
        }),
        declare(m, n).defs == m.defs,
        declare(m, n).uses == m.uses,
        declare(m, n).pending == m.pending,
{
    let c = m.current->0;
    let r = declare(m, n);
    lemma_add_name_distinct(m.scopes[c].locals, n);
    assert forall|i: int| 0 <= i < r.scopes.len() implies (#[trigger] r.scopes[i]).locals.no_duplicates() by {
        if i != c {
            assert(r.scopes[i] == m.scopes[i]);
        }
    }
    assert forall|i: int| 0 <= i < r.scopes.len() implies match #[trigger] r.scopes[i].parent {
        Some(p) => 0 <= p < i,
        None => true,
    } by {
        assert(r.scopes[i].parent == m.scopes[i].parent);
    }
}

/// Declaring several names touches only the active scope, whose locals
/// become `add_names` of the old ones.
proof fn lemma_declare_names(m: Model, ns: Seq<Seq<char>>)
    requires
        model_wf(m),
        m.current is Some,
    ensures
        model_wf(declare_names(m, ns)),
        declare_names(m, ns).current == m.current,
        declare_names(m, ns).scopes.len() == m.scopes.len(),
        forall|i: int| 0 <= i < m.scopes.len() && i != m.current->0 ==> #[trigger] declare_names(m, ns).scopes[i] == m.scopes[i],
        declare_names(m, ns).scopes[m.current->0] == (ScopeView {
            locals: add_names(m.scopes[m.current->0].locals, ns),
            parent: m.scopes[m.current->0].parent,
        }),
        declare_names(m, ns).defs == m.defs,
        declare_names(m, ns).uses == m.uses,
        declare_names(m, ns).pending == m.pending,
    decreases ns.len(),
{
    if ns.len() > 0 {
        let c = m.current->0;
        lemma_declare_names(m, ns.drop_last());
        let p = declare_names(m, ns.drop_last());
        lemma_declare(p, ns.last());
        assert forall|i: int| 0 <= i < m.scopes.len() && i != c implies #[trigger] declare_names(m, ns).scopes[i] == m.scopes[i] by {
            assert(declare(p, ns.last()).scopes[i] == p.scopes[i]);
        }
    }
}

/// Entering a block keeps the state well formed; the new scope is active
/// and its parent is the scope that was active.
proof fn lemma_enter(m: Model)
    requires
        model_wf(m),
    ensures
        model_wf(enter(m)),
        enter(m).current == Some(m.scopes.len() as int),
        enter(m).scopes.len() == m.scopes.len() + 1,
        forall|j: int| 0 <= j < m.scopes.len() ==> #[trigger] enter(m).scopes[j] == m.scopes[j],
        enter(m).scopes[m.scopes.len() as int] == (ScopeView { locals: Seq::empty(), parent: m.current }),
{
    let r = enter(m);
    assert forall|i: int| 0 <= i < r.scopes.len() implies match #[trigger] r.scopes[i].parent {
        Some(q) => 0 <= q < i,
        None => true,
    } by {
        if i < m.scopes.len() {
            assert(r.scopes[i] == m.scopes[i]);
        }
    }
    assert forall|i: int| 0 <= i < r.scopes.len() implies (#[trigger] r.scopes[i]).locals.no_duplicates() by {
        if i < m.scopes.len() {
            assert(r.scopes[i] == m.scopes[i]);
        }
    }
}

/// What a `BlockStart` does: a new scope, child of the active one, holding
/// the pending parameters; nothing else changes but the pending list.
proof fn lemma_block_start(m: Model)
    requires
        model_wf(m),
    ensures
        model_wf(step(m, EventView::BlockStart)),
        step(m, EventView::BlockStart).current == Some(m.scopes.len() as int),
        step(m, EventView::BlockStart).scopes.len() == m.scopes.len() + 1,
        forall|j: int| 0 <= j < m.scopes.len() ==> #[trigger] step(m, EventView::BlockStart).scopes[j] == m.scopes[j],
        step(m, EventView::BlockStart).scopes[m.scopes.len() as int] == (ScopeView {
            locals: add_names(Seq::empty(), m.pending),
            parent: m.current,
        }),
        step(m, EventView::BlockStart).defs == m.defs,
        step(m, EventView::BlockStart).uses == m.uses,
{
    let m0 = Model { pending: Seq::empty(), ..m };
    lemma_enter(m0);
    lemma_declare_names(enter(m0), m.pending);
    let r = step(m, EventView::BlockStart);
    assert forall|j: int| 0 <= j < m.scopes.len() implies #[trigger] r.scopes[j] == m.scopes[j] by {
        assert(enter(m0).scopes[j] == m.scopes[j]);
    }
}

/// Every node of a walk keeps the engine's state well formed.
pub proof fn lemma_step_wf(m: Model, e: EventView)
    requires
        model_wf(m),
    ensures
        model_wf(step(m, e)),
{
    let n = Seq::<char>::empty();
    let p = Position { bytes: 0, line: 0, character: 0 };
    lemma_merge(m.defs, n, p, n);
    lemma_merge(m.uses, n, p, n);
    match e {
        EventView::BlockStart => {
            lemma_block_start(m);
        },
        EventView::LocalName(x) => {
            if m.current is Some {
                lemma_declare(m, x);
            }
        },
        EventView::BlockEnd => {
            let r = exit(m);
            if let Some(c) = m.current {
                assert(match m.scopes[c].parent {
                    Some(q) => 0 <= q < c,
                    None => true,
                });
            }
        },
        EventView::AssignName(x, q) => {
            lemma_merge(m.defs, x, q, x);
        },
        EventView::ReadName(x, q) => {
            lemma_merge(m.uses, x, q, x);
        },
        _ => {},
    }
}

/// A whole walk keeps the engine's state well formed.
pub proof fn lemma_run_wf(m: Model, evs: Seq<EventView>)
    requires
        model_wf(m),
    ensures
        model_wf(run(m, evs)),
    decreases evs.len(),
{
    if evs.len() > 0 {
        lemma_run_wf(m, evs.drop_last());
        lemma_step_wf(run(m, evs.drop_last()), evs.last());
    }
}

/// Definitions and usages accumulate separately: the positions recorded for
/// `n` as a definition are exactly those of its assignments where it was
/// global, and those recorded as a usage exactly those of its reads where
/// it was global, each in walk order.
pub proof fn lemma_defs_and_uses_separate(m: Model, evs: Seq<EventView>, n: Seq<char>)
    requires
        model_wf(m),
    ensures
        positions_of(run(m, evs).defs, n) == positions_of(m.defs, n) + global_assigns(m, evs, n),
        positions_of(run(m, evs).uses, n) == positions_of(m.uses, n) + global_reads(m, evs, n),
        has_name(run(m, evs).defs, n) == (has_name(m.defs, n) || global_assigns(m, evs, n).len() > 0),
        has_name(run(m, evs).uses, n) == (has_name(m.uses, n) || global_reads(m, evs, n).len() > 0),
    decreases evs.len(),
{
    if evs.len() == 0 {
        assert(positions_of(m.defs, n) + Seq::empty() =~= positions_of(m.defs, n));
        assert(positions_of(m.uses, n) + Seq::empty() =~= positions_of(m.uses, n));
    } else {
        let prev = evs.drop_last();
        let s = run(m, prev);
        lemma_defs_and_uses_separate(m, prev, n);
        lemma_run_wf(m, prev);
        match evs.last() {
            EventView::AssignName(x, p) => {
                lemma_merge(s.defs, x, p, n);
                if !is_local(s, x) && x == n {
                    assert(positions_of(m.defs, n) + global_assigns(m, prev, n).push(p) =~= (positions_of(m.defs, n)
                        + global_assigns(m, prev, n)).push(p));
                }
            },
            EventView::ReadName(x, p) => {
                lemma_merge(s.uses, x, p, n);
                if !is_local(s, x) && x == n {
                    assert(positions_of(m.uses, n) + global_reads(m, prev, n).push(p) =~= (positions_of(m.uses, n)
                        + global_reads(m, prev, n)).push(p));
                }
            },
            EventView::BlockStart => {
                lemma_block_start(s);
            },
            _ => {},
        }
    }
}

/// Every global name has exactly one definition entry, holding the
/// positions of all the assignments to it that were made where it was not
/// local, in source order.
pub proof fn lemma_merge_by_name(evs: Seq<EventView>, n: Seq<char>)
    ensures
        unique_names(analyse(evs).defs),
        has_name(analyse(evs).defs, n) == (global_assigns(initial(), evs, n).len() > 0),
        positions_of(analyse(evs).defs, n) == global_assigns(initial(), evs, n),
{
    lemma_run_wf(initial(), evs);
    lemma_defs_and_uses_separate(initial(), evs, n);
    assert(Seq::<Position>::empty() + global_assigns(initial(), evs, n) =~= global_assigns(initial(), evs, n));
}

/// Two analyses of the same walk, each with a fresh engine, agree.
pub proof fn lemma_reanalysis_agrees(a: LuaAnalysis, b: LuaAnalysis, evs: Seq<EventView>)
    requires
        a@ == analyse(evs),
        b@ == analyse(evs),
    ensures
        a@ == b@,
{
}

/// Blocks begun minus blocks ended.
pub open spec fn nesting(evs: Seq<EventView>) -> int
    decreases evs.len(),
{
    if evs.len() == 0 {
        0
    } else {
        nesting(evs.drop_last()) + match evs.last() {
            EventView::BlockStart => 1int,
            EventView::BlockEnd => -1int,
            _ => 0int,
        }
    }
}

/// No prefix of the walk ends more blocks than it begins: the walk never
/// leaves the block in which it starts.
pub open spec fn stays_inside(evs: Seq<EventView>) -> bool {
    forall|k: int| 0 <= k <= evs.len() ==> nesting(#[trigger] evs.take(k)) >= 0
}

/// The scope `d` parent links above scope `i`.
pub open spec fn ancestor(scopes: Seq<ScopeView>, i: int, d: nat) -> Option<int>
    decreases d,
{
    if d == 0 {
        Some(i)
    } else if 0 <= i < scopes.len() {
        match scopes[i].parent {
            Some(p) => ancestor(scopes, p, (d - 1) as nat),
            None => None,
        }
    } else {
        None
    }
}

pub open spec fn forest(scopes: Seq<ScopeView>) -> bool {
    forall|i: int| 0 <= i < scopes.len() ==> match #[trigger] scopes[i].parent {
        Some(p) => 0 <= p < i,
        None => true,
    }
}

/// After a walk that started in scope `c` of state `m` and is now `d`
/// blocks deeper: `c` is `d` links above the active scope, the scopes in
/// between are new, and of the old scopes only `c` may have gained locals.
pub open spec fn inside(m: Model, s: Model, c: int, d: nat) -> bool {
    &&& s.current is Some
    &&& ancestor(s.scopes, s.current->0, d) == Some(c)
    &&& forall|k: nat| k < d ==> match #[trigger] ancestor(s.scopes, s.current->0, k) {
        Some(a) => a >= m.scopes.len(),
        None => false,
    }
    &&& s.scopes.len() >= m.scopes.len()
    &&& forall|i: int| 0 <= i < m.scopes.len() && i != c ==> #[trigger] s.scopes[i] == m.scopes[i]
    &&& s.scopes[c].parent == m.scopes[c].parent
    &&& forall|n: Seq<char>| m.scopes[c].locals.contains(n) ==> #[trigger] s.scopes[c].locals.contains(n)
}

proof fn lemma_ancestor_frame(s1: Seq<ScopeView>, s2: Seq<ScopeView>, i: int, d: nat)
    requires
        forest(s1),
        s1.len() <= s2.len(),
        forall|j: int| 0 <= j < s1.len() ==> #[trigger] s2[j].parent == s1[j].parent,
        0 <= i < s1.len(),
    ensures
        ancestor(s2, i, d) == ancestor(s1, i, d),
    decreases d,
{
    if d > 0 {
        assert(s2[i].parent == s1[i].parent);
        if let Some(p) = s1[i].parent {
            lemma_ancestor_frame(s1, s2, p, (d - 1) as nat);
        }
    }
}

proof fn lemma_ancestor_step(s: Seq<ScopeView>, i: int, p: int, k: nat)
    requires
        0 <= i < s.len(),
        s[i].parent == Some(p),
    ensures
        ancestor(s, i, k + 1) == ancestor(s, p, k),
{
    assert(((k + 1) - 1) as nat == k);
}

proof fn lemma_visible_grow(s1: Seq<ScopeView>, s2: Seq<ScopeView>, i: int, n: Seq<char>)
    requires
        forest(s1),
        0 <= i < s1.len(),
        i < s2.len(),
        forall|j: int| 0 <= j <= i ==> #[trigger] s2[j].parent == s1[j].parent,
        forall|j: int| 0 <= j <= i && s1[j].locals.contains(n) ==> #[trigger] s2[j].locals.contains(n),
        visible(s1, i, n),
    ensures
        visible(s2, i, n),
    decreases i,
{
    assert(s2[i].parent == s1[i].parent);
    if !s1[i].locals.contains(n) {
        if let Some(p) = s1[i].parent {
            lemma_visible_grow(s1, s2, p, n);
        }
    }
}

proof fn lemma_visible_from_ancestor(s: Seq<ScopeView>, i: int, d: nat, a: int, n: Seq<char>)
    requires
        forest(s),
        0 <= i < s.len(),
        ancestor(s, i, d) == Some(a),
        visible(s, a, n),
    ensures
        visible(s, i, n),
    decreases d,
{
    if d > 0 {
        if let Some(p) = s[i].parent {
            lemma_ancestor_step(s, i, p, (d - 1) as nat);
            lemma_visible_from_ancestor(s, p, (d - 1) as nat, a, n);
        }
    }
}

proof fn lemma_stays_inside_prefix(evs: Seq<EventView>)
    requires
        evs.len() > 0,
        stays_inside(evs),
    ensures
        stays_inside(evs.drop_last()),
        nesting(evs) >= 0,
{
    assert(evs.take(evs.len() as int) =~= evs);
    assert forall|k: int| 0 <= k <= evs.drop_last().len() implies nesting(#[trigger] evs.drop_last().take(k)) >= 0 by {
        assert(evs.drop_last().take(k) =~= evs.take(k));
    }
}

/// The invariant `inside` holds along every walk that stays in its block.
proof fn lemma_inside(m: Model, evs: Seq<EventView>)
    requires
        model_wf(m),
        m.current is Some,
        stays_inside(evs),
    ensures
        nesting(evs) >= 0,
        inside(m, run(m, evs), m.current->0, nesting(evs) as nat),
        model_wf(run(m, evs)),
    decreases evs.len(),
{
    let c = m.current->0;
    lemma_run_wf(m, evs);
    if evs.len() == 0 {
        assert(inside(m, m, c, 0));
    } else {
        let prev = evs.drop_last();
        lemma_stays_inside_prefix(evs);
        lemma_inside(m, prev);
        let s = run(m, prev);
        let d = nesting(prev) as nat;
        let cur = s.current->0;
        let r = step(s, evs.last());
        assert(r == run(m, evs));
        match evs.last() {
            EventView::BlockStart => {
                let l = s.scopes.len() as int;
                lemma_block_start(s);
                assert(r.scopes[l].parent == Some(cur));
                assert forall|j: int| 0 <= j < s.scopes.len() implies #[trigger] r.scopes[j].parent == s.scopes[j].parent by {
                    assert(r.scopes[j] == s.scopes[j]);
                }
                assert forall|k: nat| k < d + 1 implies match #[trigger] ancestor(r.scopes, l, k) {
                    Some(a) => a >= m.scopes.len(),
                    None => false,
                } by {
                    if k > 0 {
                        lemma_ancestor_step(r.scopes, l, cur, (k - 1) as nat);
                        lemma_ancestor_frame(s.scopes, r.scopes, cur, (k - 1) as nat);
                        assert(ancestor(s.scopes, cur, (k - 1) as nat) matches Some(a) && a >= m.scopes.len());
                    }
                }
                lemma_ancestor_step(r.scopes, l, cur, d);
                lemma_ancestor_frame(s.scopes, r.scopes, cur, d);
                assert((d + 1) as nat == nesting(evs) as nat);
                assert forall|i: int| 0 <= i < m.scopes.len() && i != c implies #[trigger] r.scopes[i] == m.scopes[i] by {
                    assert(r.scopes[i] == s.scopes[i]);
                }
                assert(r.scopes[c] == s.scopes[c]);
            },
            EventView::BlockEnd => {
                assert(d >= 1);
                let p = s.scopes[cur].parent->0;
                lemma_ancestor_step(s.scopes, cur, p, (d - 1) as nat);
                assert(r.current == Some(p));
                assert((d - 1) as nat == nesting(evs) as nat);
                assert forall|k: nat| k < (d - 1) as nat implies match #[trigger] ancestor(r.scopes, p, k) {
                    Some(a) => a >= m.scopes.len(),
                    None => false,
                } by {
                    lemma_ancestor_step(s.scopes, cur, p, k);
                    assert(ancestor(s.scopes, cur, k + 1) matches Some(a) && a >= m.scopes.len());
                }
            },
            EventView::LocalName(x) => {
                lemma_declare(s, x);
                assert(r.scopes.len() == s.scopes.len());
                assert forall|j: int| 0 <= j < s.scopes.len() implies #[trigger] r.scopes[j].parent == s.scopes[j].parent by {}
                lemma_ancestor_frame(s.scopes, r.scopes, cur, d);
                assert forall|k: nat| k < d implies match #[trigger] ancestor(r.scopes, cur, k) {
                    Some(a) => a >= m.scopes.len(),
                    None => false,
                } by {
                    lemma_ancestor_frame(s.scopes, r.scopes, cur, k);
                    assert(ancestor(s.scopes, cur, k) matches Some(a) && a >= m.scopes.len());
                }
                if d == 0 {
                    assert(cur == c);
                    assert forall|n: Seq<char>| m.scopes[c].locals.contains(n) implies #[trigger] r.scopes[c].locals.contains(n) by {
                        assert(s.scopes[c].locals.contains(n));
                        assert(r.scopes[c].locals == add_name(s.scopes[c].locals, x));
                        if !s.scopes[c].locals.contains(x) {
                            assert(s.scopes[c].locals.push(x)[s.scopes[c].locals.index_of(n)] == n);
                        }
                    }
                } else {
                    assert(ancestor(s.scopes, cur, 0) matches Some(a) && a >= m.scopes.len());
                    assert(cur >= m.scopes.len());
                    assert forall|i: int| 0 <= i < m.scopes.len() && i != c implies #[trigger] r.scopes[i] == m.scopes[i] by {
                        assert(r.scopes[i] == s.scopes[i]);
                    }
                    assert(r.scopes[c] == s.scopes[c]);
                }
            },
            _ => {
                assert(r.scopes == s.scopes);
                assert(r.current == s.current);
            },
        }
    }
}

/// A name local at some point stays local along every walk that does not
/// leave the current block.
proof fn lemma_still_local(m: Model, evs: Seq<EventView>, n: Seq<char>)
    requires
        model_wf(m),
        is_local(m, n),
        stays_inside(evs),
    ensures
        is_local(run(m, evs), n),
{
    let c = m.current->0;
    lemma_inside(m, evs);
    let s = run(m, evs);
    let cur = s.current->0;
    lemma_visible_grow(m.scopes, s.scopes, c, n);
    lemma_visible_from_ancestor(s.scopes, cur, nesting(evs) as nat, c, n);
}

/// Shadowing: once a name is local in a block, no assignment to it and no
/// read of it, in that block or in blocks nested in it, adds a global
/// definition or usage position for it.
pub proof fn lemma_shadowing(m: Model, evs: Seq<EventView>, n: Seq<char>)
    requires
        model_wf(m),
        is_local(m, n),
        stays_inside(evs),
    ensures
        is_local(run(m, evs), n),
        global_assigns(m, evs, n) == Seq::<Position>::empty(),
        global_reads(m, evs, n) == Seq::<Position>::empty(),
        positions_of(run(m, evs).defs, n) == positions_of(m.defs, n),
        positions_of(run(m, evs).uses, n) == positions_of(m.uses, n),
    decreases evs.len(),
{
    lemma_still_local(m, evs, n);
    lemma_defs_and_uses_separate(m, evs, n);
    if evs.len() > 0 {
        lemma_stays_inside_prefix(evs);
        lemma_shadowing(m, evs.drop_last(), n);
    }
    assert(positions_of(m.defs, n) + Seq::<Position>::empty() =~= positions_of(m.defs, n));
    assert(positions_of(m.uses, n) + Seq::<Position>::empty() =~= positions_of(m.uses, n));
}

/// A name declared `local` while a scope is active is local right after.
pub proof fn lemma_declared_is_local(m: Model, n: Seq<char>)
    requires
        model_wf(m),
        m.current is Some,
    ensures
        is_local(step(m, EventView::LocalName(n)), n),
{
    let c = m.current->0;
    let r = step(m, EventView::LocalName(n));
    if !m.scopes[c].locals.contains(n) {
        assert(r.scopes[c].locals.last() == n);
    }
    assert(r.scopes[c].locals.contains(n));
}

proof fn lemma_add_names_contains(locals: Seq<Seq<char>>, ns: Seq<Seq<char>>, n: Seq<char>)
    requires
        ns.contains(n),
    ensures
        add_names(locals, ns).contains(n),
    decreases ns.len(),
{
    let prev = add_names(locals, ns.drop_last());
    if ns.last() == n {
        if !prev.contains(n) {
            assert(prev.push(n).last() == n);
        }
    } else {
        let i = choose|i: int| 0 <= i < ns.len() && ns[i] == n;
        assert(ns.drop_last()[i] == n);
        lemma_add_names_contains(locals, ns.drop_last(), n);
        if !prev.contains(ns.last()) {
            let j = choose|j: int| 0 <= j < prev.len() && prev[j] == n;
            assert(prev.push(ns.last())[j] == n);
        }
    }
}

/// The parameters of a function are local in the block that follows them,
/// which is the function's body.
pub proof fn lemma_parameters_are_local(m: Model, ns: Seq<Seq<char>>, n: Seq<char>)
    requires
        model_wf(m),
        ns.contains(n),
    ensures
        is_local(step(step(m, EventView::Parameters(ns)), EventView::BlockStart), n),
{
    lemma_add_names_contains(Seq::empty(), ns, n);
    let mp = step(m, EventView::Parameters(ns));
    lemma_block_start(mp);
    let r = step(mp, EventView::BlockStart);
    assert(r.scopes[m.scopes.len() as int].locals == add_names(Seq::empty(), ns));
}

proof fn lemma_run_append(m: Model, a: Seq<EventView>, b: Seq<EventView>)
    ensures
        run(m, a + b) == run(run(m, a), b),
    decreases b.len(),
{
    if b.len() == 0 {
        assert(a + b =~= a);
    } else {
        assert((a + b).drop_last() =~= a + b.drop_last());
        lemma_run_append(m, a, b.drop_last());
    }
}

/// Scope restoration: visiting a whole block brings back the scope that was
/// active before it, and what is local there afterwards is what was local
/// before; names declared inside the block are not seen outside it, nor by
/// the blocks that follow.
pub proof fn lemma_scope_restored(m: Model, inner: Seq<EventView>, n: Seq<char>)
    requires
        model_wf(m),
        m.current is Some,
        stays_inside(inner),
        nesting(inner) == 0,
    ensures
        run(m, seq![EventView::BlockStart] + inner + seq![EventView::BlockEnd]).current == m.current,
        is_local(run(m, seq![EventView::BlockStart] + inner + seq![EventView::BlockEnd]), n) == is_local(m, n),
{
    let c = m.current->0;
    let start = seq![EventView::BlockStart];
    let m1 = run(m, start);
    assert(start.drop_last() =~= Seq::<EventView>::empty());
    assert(run(m, start.drop_last()) == m);
    assert(start.last() == EventView::BlockStart);
    assert(m1 == step(m, EventView::BlockStart));
    lemma_block_start(m);
    lemma_inside(m1, inner);
    lemma_run_append(m, start, inner);
    lemma_run_append(m, start + inner, seq![EventView::BlockEnd]);
    let s = run(m1, inner);
    let l = m.scopes.len() as int;
    assert(s.current == Some(l));
    assert(s.scopes[l].parent == m1.scopes[l].parent);
    let r = run(m, start + inner + seq![EventView::BlockEnd]);
    let end = seq![EventView::BlockEnd];
    assert(end.drop_last() =~= Seq::<EventView>::empty());
    assert(run(s, end.drop_last()) == s);
    assert(end.last() == EventView::BlockEnd);
    assert(run(s, end) == exit(s));
    assert(r == exit(s));
    assert(r.current == Some(c));
    assert forall|j: int| 0 <= j <= c implies #[trigger] r.scopes[j] == m.scopes[j] by {
        assert(s.scopes[j] == m1.scopes[j]);
    }
    if visible(m.scopes, c, n) {
        lemma_visible_grow(m.scopes, r.scopes, c, n);
    }
    if visible(r.scopes, c, n) {
        lemma_visible_grow(r.scopes, m.scopes, c, n);
    }
}

proof fn lemma_run_push(m: Model, evs: Seq<EventView>, e: EventView)
    ensures
        run(m, evs + seq![e]) == step(run(m, evs), e),
{
    assert((evs + seq![e]).drop_last() =~= evs);
    assert((evs + seq![e]).last() == e);
}

proof fn lemma_initial_wf()
    ensures
        model_wf(initial()),
{
}

/// Shadowing, over a whole program: once `n` is declared `local` in a
/// block, the rest of that block (nested blocks included) adds no global
/// definition or usage of `n` to the analysis, and creates no entry for it.
pub proof fn lemma_program_shadowing(pre: Seq<EventView>, post: Seq<EventView>, n: Seq<char>)
    requires
        run(initial(), pre).current is Some,
        stays_inside(post),
    ensures
        positions_of(analyse(pre + seq![EventView::LocalName(n)] + post).defs, n) == positions_of(analyse(pre).defs, n),
        positions_of(analyse(pre + seq![EventView::LocalName(n)] + post).uses, n) == positions_of(analyse(pre).uses, n),
        has_name(analyse(pre + seq![EventView::LocalName(n)] + post).defs, n) == has_name(analyse(pre).defs, n),
        has_name(analyse(pre + seq![EventView::LocalName(n)] + post).uses, n) == has_name(analyse(pre).uses, n),
{
    lemma_initial_wf();
    lemma_run_wf(initial(), pre);
    let m = run(initial(), pre);
    let decl = EventView::LocalName(n);
    lemma_run_push(initial(), pre, decl);
    let m1 = step(m, decl);
    lemma_declared_is_local(m, n);
    lemma_step_wf(m, decl);
    lemma_run_append(initial(), pre + seq![decl], post);
    lemma_shadowing(m1, post, n);
    lemma_defs_and_uses_separate(m1, post, n);
}

/// Scope restoration, over a whole program: after a block, what is local is
/// what was local before it. So a name that only the block declared is
/// global again: an assignment to it, or a read of it, right after the
/// block is recorded.
pub proof fn lemma_program_scope_restored(
    pre: Seq<EventView>,
    inner: Seq<EventView>,
    a: Seq<char>,
    p: Position,
)
    requires
        run(initial(), pre).current is Some,
        stays_inside(inner),
        nesting(inner) == 0,
    ensures
        forall|n: Seq<char>| #[trigger] is_local(
            run(initial(), pre + (seq![EventView::BlockStart] + inner + seq![EventView::BlockEnd])),
            n,
        ) == is_local(run(initial(), pre), n),
        !is_local(run(initial(), pre), a) ==> positions_of(
            analyse(pre + (seq![EventView::BlockStart] + inner + seq![EventView::BlockEnd]) + seq![EventView::AssignName(a, p)]).defs,
            a,
        ) == positions_of(analyse(pre + (seq![EventView::BlockStart] + inner + seq![EventView::BlockEnd])).defs, a).push(p),
        !is_local(run(initial(), pre), a) ==> positions_of(
            analyse(pre + (seq![EventView::BlockStart] + inner + seq![EventView::BlockEnd]) + seq![EventView::ReadName(a, p)]).uses,
            a,
        ) == positions_of(analyse(pre + (seq![EventView::BlockStart] + inner + seq![EventView::BlockEnd])).uses, a).push(p),
{
    lemma_initial_wf();
    lemma_run_wf(initial(), pre);
    let m = run(initial(), pre);
    let blk = seq![EventView::BlockStart] + inner + seq![EventView::BlockEnd];
    lemma_run_append(initial(), pre, blk);
    assert forall|n: Seq<char>| #[trigger] is_local(run(initial(), pre + blk), n) == is_local(m, n) by {
        lemma_scope_restored(m, inner, n);
    }
    let s = run(initial(), pre + blk);
    lemma_run_wf(initial(), pre + blk);
    lemma_run_push(initial(), pre + blk, EventView::AssignName(a, p));
    lemma_run_push(initial(), pre + blk, EventView::ReadName(a, p));
    lemma_merge(s.defs, a, p, a);
    lemma_merge(s.uses, a, p, a);
}

/// The walk of `k` assignments to `n`, at the positions `ps`, in order.
pub open spec fn assignments_to(n: Seq<char>, ps: Seq<Position>) -> Seq<EventView> {
    ps.map_values(|p: Position| EventView::AssignName(n, p))
}

/// Merging, over `k` assignments in a row to a name that is not local: the
/// name ends with exactly one entry, whose positions gain `ps` in order, and
/// the list of definitions grows by one entry only if the name had none.
pub proof fn lemma_repeated_assignments(m: Model, n: Seq<char>, ps: Seq<Position>)
    requires
        model_wf(m),
        !is_local(m, n),
        ps.len() > 0,
    ensures
        unique_names(run(m, assignments_to(n, ps)).defs),
        has_name(run(m, assignments_to(n, ps)).defs, n),
        positions_of(run(m, assignments_to(n, ps)).defs, n) == positions_of(m.defs, n) + ps,
        run(m, assignments_to(n, ps)).defs.len() == m.defs.len() + if has_name(m.defs, n) {
            0int
        } else {
            1int
        },
    decreases ps.len(),
{
    let evs = assignments_to(n, ps);
    let prev = ps.drop_last();
    assert(evs.drop_last() =~= assignments_to(n, prev));
    assert(evs.last() == EventView::AssignName(n, ps.last()));
    if prev.len() == 0 {
        assert(assignments_to(n, prev) =~= Seq::<EventView>::empty());
        lemma_merge(m.defs, n, ps.last(), n);
        assert(positions_of(m.defs, n) + ps =~= positions_of(m.defs, n).push(ps.last()));
    } else {
        lemma_repeated_assignments(m, n, prev);
        let s = run(m, assignments_to(n, prev));
        assert(s.scopes == m.scopes && s.current == m.current) by {
            lemma_assignments_keep_scopes(m, n, prev);
        }
        lemma_merge(s.defs, n, ps.last(), n);
        assert(positions_of(m.defs, n) + ps =~= (positions_of(m.defs, n) + prev).push(ps.last()));
    }
    lemma_run_wf(m, evs);
}

proof fn lemma_assignments_keep_scopes(m: Model, n: Seq<char>, ps: Seq<Position>)
    ensures
        run(m, assignments_to(n, ps)).scopes == m.scopes,
        run(m, assignments_to(n, ps)).current == m.current,
    decreases ps.len(),
{
    if ps.len() > 0 {
        let evs = assignments_to(n, ps);
        assert(evs.drop_last() =~= assignments_to(n, ps.drop_last()));
        assert(evs.last() == EventView::AssignName(n, ps.last()));
        lemma_assignments_keep_scopes(m, n, ps.drop_last());
    }
}

} // verus!
