//! The dependency graph builder and cycle-safe topological resolver: an
//! iterative depth-first walk with explicit three-state marking (a name is
//! unvisited, on the traversal stack, or already in the plan) that turns the
//! rule store and a root rule into an execution plan, reporting unknown
//! references and dependency cycles precisely.

use vstd::prelude::*;
use vstd::set_lib::lemma_len_subset;
use crate::config::{name_seq, Config, ConfigError, RuleView};
use crate::graph::{acyclic, dep_edge, fully_defined_from, is_cycle, is_dep_path, reaches};
use crate::graph::{lemma_closed_path, lemma_reaches_self, lemma_reaches_step};
use crate::graph::{plan_valid, scheduled_earlier};
use crate::identifier::Identifier;

verus! {

/// One frame of the explicit traversal stack: a rule that is in progress,
/// its dependency list, and how many of those dependencies are fully
/// resolved.
struct Frame {
    name: Identifier,
    deps: Vec<Identifier>,
    k: usize,
}

/// A stack frame agrees with the store: its rule exists and its dependency
/// list is that rule's, with at most all of them examined.
spec fn frame_wf(m: Map<Seq<char>, RuleView>, f: Frame) -> bool {
    &&& m.contains_key(f.name@)
    &&& name_seq(f.deps@) == m[f.name@].deps
    &&& f.k <= f.deps@.len()
}

/// The dependency edges still to be examined, summed over the stack.
spec fn stack_work(s: Seq<Frame>) -> int
    decreases s.len(),
{
    if s.len() == 0 {
        0
    } else {
        stack_work(s.drop_last()) + s.last().deps@.len() - s.last().k
    }
}

proof fn lemma_stack_work_nonneg(s: Seq<Frame>)
    requires
        forall|i: int| 0 <= i < s.len() ==> (#[trigger] s[i]).k <= s[i].deps@.len(),
    ensures
        stack_work(s) >= 0,
    decreases s.len(),
{
    if s.len() > 0 {
        assert(forall|i: int| 0 <= i < s.drop_last().len() ==> #[trigger] s.drop_last()[i] == s[i]);
        lemma_stack_work_nonneg(s.drop_last());
        assert(s.last() == s[s.len() - 1]);
    }
}

proof fn lemma_stack_work_push(s: Seq<Frame>, f: Frame)
    ensures
        stack_work(s.push(f)) == stack_work(s) + f.deps@.len() - f.k,
{
    assert(s.push(f).drop_last() =~= s);
    assert(s.push(f).last() == f);
}

/// A sequence of distinct names that all key the mapping is no longer than
/// the mapping's domain.
proof fn lemma_distinct_in_dom_bound(m: Map<Seq<char>, RuleView>, names: Seq<Seq<char>>, bound: int)
    requires
        names.no_duplicates(),
        forall|i: int| 0 <= i < names.len() ==> m.contains_key(#[trigger] names[i]),
        m.dom().finite(),
        m.dom().len() <= bound,
    ensures
        names.len() <= bound,
{
    names.unique_seq_to_set();
    assert forall|a: Seq<char>| names.to_set().contains(a) implies m.dom().contains(a) by {
        let i = choose|i: int| 0 <= i < names.len() && names[i] == a;
        assert(m.contains_key(names[i]));
    }
    lemma_len_subset(names.to_set(), m.dom());
}

/// True when some identifier of `v` carries the name `x@`.
fn contains_name(v: &Vec<Identifier>, x: &Identifier) -> (r: bool)
    ensures
        r == exists|i: int| 0 <= i < v@.len() && (#[trigger] v@[i])@ == x@,
{
    let n = v.len();
    let mut i: usize = 0;
    while i < n
        invariant
            n == v@.len(),
            i <= n,
            forall|j: int| 0 <= j < i ==> (#[trigger] v@[j])@ != x@,
        decreases n - i,
    {
        if v[i] == *x {
            return true;
        }
        i = i + 1;
    }
    false
}

/// The position of the frame carrying the name `x@`, if any.
fn find_name_position(frames: &Vec<Frame>, x: &Identifier) -> (r: Option<usize>)
    ensures
        match r {
            Some(pos) => pos < frames@.len() && frames@[pos as int].name@ == x@,
            None => forall|i: int| 0 <= i < frames@.len() ==> (#[trigger] frames@[i]).name@ != x@,
        },
{
    let n = frames.len();
    let mut i: usize = 0;
    while i < n
        invariant
            n == frames@.len(),
            i <= n,
            forall|j: int| 0 <= j < i ==> (#[trigger] frames@[j]).name@ != x@,
        decreases n - i,
    {
        if frames[i].name == *x {
            return Some(i);
        }
        i = i + 1;
    }
    None
}

/// A copy of a list of identifiers.
fn clone_ids(v: &Vec<Identifier>) -> (r: Vec<Identifier>)
    ensures
        r@ == v@,
{
    let n = v.len();
    let mut r: Vec<Identifier> = Vec::new();
    let mut i: usize = 0;
    while i < n
        invariant
            n == v@.len(),
            i <= n,
            r@.len() == i,
            forall|j: int| 0 <= j < i ==> #[trigger] r@[j] == v@[j],
        decreases n - i,
    {
        r.push(v[i].clone());
        i = i + 1;
    }
    proof {
        assert(r@ =~= v@);
    }
    r
}

/// The reported cycle: the names from the frame at `pos` up the stack,
/// followed by the repeated name itself.
fn build_cycle_path(stack: &Vec<Frame>, pos: usize, d: Identifier) -> (r: Vec<Identifier>)
    requires
        pos < stack@.len(),
    ensures
        r@.len() == stack@.len() - pos + 1,
        forall|i: int| 0 <= i < stack@.len() - pos ==> (#[trigger] r@[i])@ == stack@[pos + i].name@,
        r@[r@.len() - 1]@ == d@,
{
    let mut r: Vec<Identifier> = Vec::new();
    let mut idx = pos;
    let n = stack.len();
    while idx < n
        invariant
            pos <= idx <= n,
            n == stack@.len(),
            r@.len() == idx - pos,
            forall|i: int| 0 <= i < idx - pos ==> (#[trigger] r@[i])@ == stack@[pos + i].name@,
        decreases n - idx,
    {
        r.push(stack[idx].name.clone());
        idx = idx + 1;
    }
    r.push(d);
    r
}

impl Config {
    /// Resolves the execution plan rooted at `root`: a deterministic,
    /// deduplicated order over exactly the rules reachable from the root,
    /// every rule strictly after all of its declared dependencies and the
    /// root last.  Fails with `UnknownRule` exactly when the root or some
    /// transitively referenced dependency has no stored rule, and with
    /// `DependencyCycle` — carrying a genuine cyclic walk that the root
    /// reaches — exactly when the reachable graph has a cycle.
    #[verifier::rlimit(100)]
    pub fn resolve_plan(&self, root: &Identifier) -> (r: Result<Vec<Identifier>, ConfigError>)
        ensures
            match r {
                Ok(plan) => plan_valid(self@, root@, name_seq(plan@)),
                Err(ConfigError::UnknownRule(id)) => reaches(self@, root@, id@)
                    && !self@.contains_key(id@),
                Err(ConfigError::DependencyCycle(p)) => is_cycle(self@, name_seq(p@))
                    && reaches(self@, root@, name_seq(p@).first()),
                Err(_) => false,
            },
            fully_defined_from(self@, root@) && acyclic(self@) ==> r is Ok,
    {
        let ghost m = self@;
        let root_body = match self.try_get_rule(root) {
            Ok(b) => b,
            Err(e) => {
                proof {
                    lemma_reaches_self(m, root@);
                }
                return Err(e);
            },
        };
        let mut plan: Vec<Identifier> = Vec::new();
        let mut stack: Vec<Frame> = Vec::new();
        stack.push(Frame { name: root.clone(), deps: clone_ids(&root_body.deps), k: 0 });
        proof {
            lemma_reaches_self(m, root@);
            self.lemma_dom_bound();
        }
        while stack.len() > 0
            invariant
                m == self@,
                forall|i: int| 0 <= i < stack@.len() ==> frame_wf(m, #[trigger] stack@[i]),
                forall|i: int| 0 <= i < plan@.len() ==> m.contains_key((#[trigger] plan@[i])@),
                forall|i: int, j: int| 0 <= i < j < plan@.len()
                    ==> (#[trigger] plan@[i])@ != (#[trigger] plan@[j])@,
                forall|i: int, j: int| 0 <= i < j < stack@.len()
                    ==> (#[trigger] stack@[i]).name@ != (#[trigger] stack@[j]).name@,
                forall|i: int, j: int| 0 <= i < plan@.len() && 0 <= j < stack@.len()
                    ==> (#[trigger] plan@[i])@ != (#[trigger] stack@[j]).name@,
                forall|i: int, k: int|
                    0 <= i < plan@.len() && 0 <= k < m[plan@[i]@].deps.len()
                        ==> scheduled_earlier(m, name_seq(plan@), i, k),
                forall|fi: int, j: int|
                    0 <= fi < stack@.len() && 0 <= j < (#[trigger] stack@[fi]).k
                        ==> name_seq(plan@).contains((#[trigger] stack@[fi].deps@[j])@),
                forall|fi: int| 0 <= fi < stack@.len() - 1 ==> {
                    &&& (#[trigger] stack@[fi]).k < stack@[fi].deps@.len()
                    &&& stack@[fi].deps@[stack@[fi].k as int]@ == stack@[fi + 1].name@
                },
                forall|i: int| 0 <= i < plan@.len() ==> reaches(m, root@, (#[trigger] plan@[i])@),
                forall|fi: int| 0 <= fi < stack@.len()
                    ==> reaches(m, root@, (#[trigger] stack@[fi]).name@),
                stack@.len() > 0 ==> stack@[0].name@ == root@,
                stack@.len() == 0 ==> plan@.len() >= 1 && plan@.last()@ == root@,
                plan@.len() + stack@.len() <= self.entries().len(),
            decreases
                    self.entries().len() - plan@.len() - stack@.len(),
                    stack_work(stack@),
                    stack@.len(),
        {
            proof {
                lemma_stack_work_nonneg(stack@);
            }
            let ghost work0 = stack_work(stack@);
            let ghost budget0 = self.entries().len() - plan@.len() - stack@.len();
            let ghost depth0 = stack@.len();
            let top = stack.len() - 1;
            let fr_k = stack[top].k;
            let fr_deps_len = stack[top].deps.len();
            if fr_k == fr_deps_len {
                // every dependency of the top rule is planned: schedule it
                let ghost plan0 = plan@;
                let ghost stack0 = stack@;
                let fr = stack.pop().unwrap();
                let ghost fr0 = fr;
                proof {
                    assert(stack@ == stack0.drop_last());
                    assert(stack_work(stack0) == stack_work(stack@) + fr0.deps@.len() - fr0.k);
                }
                plan.push(fr.name);
                proof {
                    let pn0 = name_seq(plan0);
                    let pn = name_seq(plan@);
                    let i0 = pn0.len() as int;
                    assert(pn =~= pn0.push(fr0.name@));
                    assert(frame_wf(m, stack0[stack0.len() - 1]));
                    assert forall|k: int| 0 <= k < m[pn[i0]].deps.len() implies scheduled_earlier(
                        m,
                        pn,
                        i0,
                        k,
                    ) by {
                        assert(m[fr0.name@].deps[k] == fr0.deps@[k]@);
                        assert(pn0.contains(stack0[stack0.len() - 1].deps@[k]@));
                        let j = choose|j: int| 0 <= j < pn0.len() && pn0[j] == fr0.deps@[k]@;
                        assert(pn[j] == m[pn[i0]].deps[k]);
                    }
                    assert forall|i: int, k: int|
                        0 <= i < i0 && 0 <= k < m[pn[i]].deps.len() implies scheduled_earlier(
                        m,
                        pn,
                        i,
                        k,
                    ) by {
                        assert(scheduled_earlier(m, pn0, i, k));
                        let j = choose|j: int| 0 <= j < i && pn0[j] == m[pn0[i]].deps[k];
                        assert(pn[j] == m[pn[i]].deps[k]);
                    }
                    assert forall|fi: int, j: int|
                        0 <= fi < stack@.len() && 0 <= j < (#[trigger] stack@[fi]).k implies pn
                        .contains((#[trigger] stack@[fi].deps@[j])@) by {
                        assert(stack@[fi] == stack0[fi]);
                        assert(pn0.contains(stack0[fi].deps@[j]@));
                        let x = choose|x: int| 0 <= x < pn0.len() && pn0[x] == stack0[fi].deps@[j]@;
                        assert(pn[x] == stack0[fi].deps@[j]@);
                    }
                    assert(self.entries().len() - plan@.len() - stack@.len() == budget0);
                    assert(stack_work(stack@) == work0);
                    assert(stack@.len() < depth0);
                }
            } else {
                let d = stack[top].deps[fr_k].clone();
                proof {
                    assert(stack@[top as int].deps@[fr_k as int]@ == d@);
                    assert(m[stack@[top as int].name@].deps[fr_k as int] == d@);
                    assert(m[stack@[top as int].name@].deps.contains(d@));
                    assert(dep_edge(m, stack@[top as int].name@, d@));
                    lemma_reaches_step(m, root@, stack@[top as int].name@, d@);
                }
                if contains_name(&plan, &d) {
                    // already planned: this shared dependency is deduplicated
                    let ghost stack0 = stack@;
                    let mut fr = stack.pop().unwrap();
                    proof {
                        assert(stack@ == stack0.drop_last());
                        assert(stack_work(stack0) == stack_work(stack@) + fr.deps@.len() - fr.k);
                    }
                    fr.k = fr_k + 1;
                    proof {
                        lemma_stack_work_push(stack@, fr);
                    }
                    stack.push(fr);
                    proof {
                        assert(stack@.len() == stack0.len());
                        assert(forall|i: int| 0 <= i < stack@.len() - 1
                            ==> #[trigger] stack@[i] == stack0[i]);
                        assert(stack@.last().name@ == stack0.last().name@);
                        let i = choose|i: int| 0 <= i < plan@.len() && (#[trigger] plan@[i])@ == d@;
                        assert(name_seq(plan@)[i] == d@);
                        assert(name_seq(plan@).contains(d@));
                        assert(self.entries().len() - plan@.len() - stack@.len() == budget0);
                        lemma_stack_work_nonneg(stack@);
                        assert(stack_work(stack@) < work0);
                    }
                } else {
                    match find_name_position(&stack, &d) {
                        Some(pos) => {
                            // the name is in progress: report the exact loop
                            let path = build_cycle_path(&stack, pos, d);
                            proof {
                                let names = name_seq(path@);
                                assert(names.len() == stack@.len() - pos + 1);
                                assert forall|i: int| 0 <= i < names.len() - 1 implies dep_edge(
                                    m,
                                    #[trigger] names[i],
                                    names[i + 1],
                                ) by {
                                    let fi = pos + i;
                                    assert(names[i] == stack@[fi].name@);
                                    if i < names.len() - 2 {
                                        assert(names[i + 1] == stack@[fi + 1].name@);
                                        assert(stack@[fi].deps@[stack@[fi].k as int]@
                                            == stack@[fi + 1].name@);
                                        assert(m[stack@[fi].name@].deps[stack@[fi].k as int]
                                            == stack@[fi + 1].name@);
                                        assert(m[stack@[fi].name@].deps.contains(
                                            stack@[fi + 1].name@,
                                        ));
                                    } else {
                                        assert(fi == stack@.len() - 1);
                                        assert(names[i + 1] == d@);
                                    }
                                }
                                assert(is_dep_path(m, names));
                                assert(names.first() == stack@[pos as int].name@);
                                assert(names.last() == d@);
                                assert(is_cycle(m, names));
                            }
                            return Err(ConfigError::DependencyCycle(path));
                        },
                        None => {
                            match self.try_get_rule(&d) {
                                Ok(b) => {
                                    // unvisited: mark it in progress
                                    let ghost dv = d@;
                                    let f = Frame { name: d, deps: clone_ids(&b.deps), k: 0 };
                                    proof {
                                        lemma_stack_work_push(stack@, f);
                                        assert(frame_wf(m, f));
                                    }
                                    stack.push(f);
                                    proof {
                                        let ghost combined = name_seq(plan@) + stack@.map_values(
                                            |fr: Frame| fr.name@,
                                        );
                                        let pl = plan@.len() as int;
                                        assert forall|i: int, j: int|
                                            0 <= i < j < combined.len() implies combined[i]
                                            != combined[j] by {
                                            if i < pl && j >= pl {
                                                assert(combined[i] == plan@[i]@);
                                                assert(combined[j] == stack@[j - pl].name@);
                                            } else if i >= pl {
                                                assert(combined[i] == stack@[i - pl].name@);
                                                assert(combined[j] == stack@[j - pl].name@);
                                            } else {
                                                assert(combined[i] == plan@[i]@);
                                                assert(combined[j] == plan@[j]@);
                                            }
                                        }
                                        assert(combined.no_duplicates());
                                        assert forall|i: int| 0 <= i < combined.len() implies m
                                            .contains_key(#[trigger] combined[i]) by {
                                            if i < pl {
                                                assert(combined[i] == plan@[i]@);
                                            } else {
                                                assert(combined[i] == stack@[i - pl].name@);
                                                assert(frame_wf(m, stack@[i - pl]));
                                            }
                                        }
                                        self.lemma_dom_bound();
                                        lemma_distinct_in_dom_bound(
                                            m,
                                            combined,
                                            self.entries().len() as int,
                                        );
                                        assert(combined.len() == plan@.len() + stack@.len());
                                        assert(self.entries().len() - plan@.len() - stack@.len()
                                            < budget0);
                                        assert(self.entries().len() - plan@.len() - stack@.len()
                                            >= 0);
                                        lemma_stack_work_nonneg(stack@);
                                    }
                                },
                                Err(e) => {
                                    // a declared dependency has no rule
                                    return Err(e);
                                },
                            }
                        },
                    }
                }
            }
        }
        proof {
            let pn = name_seq(plan@);
            assert(pn.last() == plan@.last()@);
            assert forall|i: int, k: int|
                0 <= i < pn.len() && m.contains_key(#[trigger] pn[i]) && 0 <= k < m[pn[i]].deps.len()
                implies pn.contains(#[trigger] m[pn[i]].deps[k]) by {
                assert(scheduled_earlier(m, pn, i, k));
                let j = choose|j: int| 0 <= j < i && pn[j] == m[pn[i]].deps[k];
                assert(pn[j] == m[pn[i]].deps[k]);
            }
            assert forall|n: Seq<char>| reaches(m, root@, n) implies pn.contains(n) by {
                let p = choose|p: Seq<Seq<char>>|
                    is_dep_path(m, p) && p.first() == root@ && p.last() == n;
                assert(pn[pn.len() - 1] == root@);
                assert(pn.contains(p.first()));
                lemma_closed_path(m, pn, p);
            }
            assert(plan_valid(m, root@, pn));
        }
        Ok(plan)
    }
}

} // verus!
