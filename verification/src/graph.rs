//! The mathematical model of the dependency graph: "depends-on" edges over
//! the rule store's mapping, paths, reachability, cycles, and what it means
//! for a sequence of rule names to be a valid execution plan.

use vstd::prelude::*;
use crate::config::RuleView;

verus! {

/// A direct "depends-on" edge: rule `a` exists and declares `b` among its
/// dependencies.
pub open spec fn dep_edge(m: Map<Seq<char>, RuleView>, a: Seq<char>, b: Seq<char>) -> bool {
    m.contains_key(a) && m[a].deps.contains(b)
}

/// A walk along dependency edges.  Every name but the last must be a stored
/// rule; the last may be a dangling reference.
pub open spec fn is_dep_path(m: Map<Seq<char>, RuleView>, p: Seq<Seq<char>>) -> bool {
    p.len() >= 1 && forall|i: int| 0 <= i < p.len() - 1 ==> dep_edge(m, #[trigger] p[i], p[i + 1])
}

/// `a` reaches `b` along dependency edges (every name reaches itself).
pub open spec fn reaches(m: Map<Seq<char>, RuleView>, a: Seq<char>, b: Seq<char>) -> bool {
    exists|p: Seq<Seq<char>>| is_dep_path(m, p) && p.first() == a && p.last() == b
}

/// A dependency cycle: a walk of at least one edge from a name back to
/// itself.
pub open spec fn is_cycle(m: Map<Seq<char>, RuleView>, p: Seq<Seq<char>>) -> bool {
    p.len() >= 2 && is_dep_path(m, p) && p.first() == p.last()
}

/// A graph with no dependency cycle anywhere.
pub open spec fn acyclic(m: Map<Seq<char>, RuleView>) -> bool {
    !exists|p: Seq<Seq<char>>| is_cycle(m, p)
}

/// Every name reachable from `root` — `root` itself included — has a stored
/// rule.
pub open spec fn fully_defined_from(m: Map<Seq<char>, RuleView>, root: Seq<char>) -> bool {
    forall|n: Seq<char>| reaches(m, root, n) ==> m.contains_key(n)
}

/// Some dependency of the rule at plan position `i` is scheduled strictly
/// earlier.
pub open spec fn scheduled_earlier(
    m: Map<Seq<char>, RuleView>,
    plan: Seq<Seq<char>>,
    i: int,
    k: int,
) -> bool {
    exists|j: int| 0 <= j < i && plan[j] == m[plan[i]].deps[k]
}

/// What the resolver owes: the plan ends with the requested root, schedules
/// every rule at most once, schedules each rule only after all of its
/// declared dependencies, and consists of exactly the rules reachable from
/// the root.
pub open spec fn plan_valid(
    m: Map<Seq<char>, RuleView>,
    root: Seq<char>,
    plan: Seq<Seq<char>>,
) -> bool {
    &&& plan.len() >= 1
    &&& plan.last() == root
    &&& forall|i: int, j: int| 0 <= i < j < plan.len() ==> plan[i] != plan[j]
    &&& forall|i: int| 0 <= i < plan.len() ==> m.contains_key(#[trigger] plan[i])
    &&& forall|i: int, k: int|
        0 <= i < plan.len() && 0 <= k < m[plan[i]].deps.len() ==> scheduled_earlier(m, plan, i, k)
    &&& forall|i: int| 0 <= i < plan.len() ==> reaches(m, root, #[trigger] plan[i])
    &&& forall|n: Seq<char>| reaches(m, root, n) ==> plan.contains(n)
}

/// Every name reaches itself, by the one-name walk.
pub proof fn lemma_reaches_self(m: Map<Seq<char>, RuleView>, a: Seq<char>)
    ensures
        reaches(m, a, a),
{
    let p = seq![a];
    assert(is_dep_path(m, p) && p.first() == a && p.last() == a);
}

/// Reachability extends along one more edge.
pub proof fn lemma_reaches_step(m: Map<Seq<char>, RuleView>, a: Seq<char>, b: Seq<char>, c: Seq<char>)
    requires
        reaches(m, a, b),
        dep_edge(m, b, c),
    ensures
        reaches(m, a, c),
{
    let p = choose|p: Seq<Seq<char>>| is_dep_path(m, p) && p.first() == a && p.last() == b;
    let q = p.push(c);
    assert forall|i: int| 0 <= i < q.len() - 1 implies dep_edge(m, #[trigger] q[i], q[i + 1]) by {
        if i < p.len() - 1 {
            assert(q[i] == p[i] && q[i + 1] == p[i + 1]);
        } else {
            assert(q[i] == p.last() && q[i + 1] == c);
        }
    }
    assert(is_dep_path(m, q) && q.first() == a && q.last() == c);
}

/// A set of names that contains the start of a walk and is closed under the
/// dependencies of stored rules contains the walk's end.
pub proof fn lemma_closed_path(
    m: Map<Seq<char>, RuleView>,
    plan: Seq<Seq<char>>,
    p: Seq<Seq<char>>,
)
    requires
        is_dep_path(m, p),
        plan.contains(p.first()),
        forall|i: int, k: int|
            0 <= i < plan.len() && m.contains_key(#[trigger] plan[i]) && 0 <= k < m[plan[i]].deps.len()
                ==> plan.contains(#[trigger] m[plan[i]].deps[k]),
    ensures
        plan.contains(p.last()),
    decreases p.len(),
{
    if p.len() == 1 {
    } else {
        assert(dep_edge(m, p[0], p[1]));
        let i = choose|i: int| 0 <= i < plan.len() && plan[i] == p.first();
        let k = choose|k: int| 0 <= k < m[p[0]].deps.len() && m[p[0]].deps[k] == p[1];
        assert(plan.contains(m[plan[i]].deps[k]));
        let q = p.subrange(1, p.len() as int);
        assert forall|x: int| 0 <= x < q.len() - 1 implies dep_edge(m, #[trigger] q[x], q[x + 1]) by {
            assert(q[x] == p[x + 1] && q[x + 1] == p[x + 2]);
        }
        assert(is_dep_path(m, q));
        assert(q.first() == p[1] && q.last() == p.last());
        lemma_closed_path(m, plan, q);
    }
}

/// The law behind the plan's ordering: whenever one scheduled rule
/// transitively depends on another — there is a walk of at least one edge
/// from the dependent rule to the other — the dependency stands strictly
/// earlier in the plan.
pub proof fn lemma_plan_orders_dependencies(
    m: Map<Seq<char>, RuleView>,
    root: Seq<char>,
    plan: Seq<Seq<char>>,
    i: int,
    j: int,
    p: Seq<Seq<char>>,
)
    requires
        plan_valid(m, root, plan),
        0 <= i < plan.len(),
        0 <= j < plan.len(),
        is_dep_path(m, p),
        p.len() >= 2,
        p.first() == plan[j],
        p.last() == plan[i],
    ensures
        i < j,
    decreases p.len(),
{
    assert(dep_edge(m, plan[j], p[1]));
    let k = choose|k: int| 0 <= k < m[plan[j]].deps.len() && m[plan[j]].deps[k] == p[1];
    assert(scheduled_earlier(m, plan, j, k));
    let j1 = choose|x: int| 0 <= x < j && plan[x] == m[plan[j]].deps[k];
    if p.len() == 2 {
        assert(plan[j1] == plan[i]);
        if i != j1 {
            assert(plan[i] != plan[j1]);
        }
    } else {
        let q = p.subrange(1, p.len() as int);
        assert forall|x: int| 0 <= x < q.len() - 1 implies dep_edge(m, #[trigger] q[x], q[x + 1]) by {
            assert(q[x] == p[x + 1] && q[x + 1] == p[x + 2]);
        }
        assert(is_dep_path(m, q));
        assert(q.first() == plan[j1] && q.last() == plan[i]);
        lemma_plan_orders_dependencies(m, root, plan, i, j1, q);
    }
}

} // verus!
