//! The action orchestrator: turns a resolved execution plan into the exact
//! ordered schedule of actions to run, and exposes it as a step-by-step
//! execution state machine.  The caller performs one scheduled action at a
//! time, reports success by advancing, and on the first failure obtains the
//! `FailedToPerform` error attributing the failure to the owning rule;
//! nothing after a failure is ever handed out, which makes execution
//! fail-fast with no rollback.

use vstd::prelude::*;
use crate::config::{name_seq, ActionError, Config, ConfigError, RuleView};
use crate::graph::{acyclic, fully_defined_from, is_cycle, plan_valid, reaches};
use crate::identifier::Identifier;

verus! {

/// One scheduled invocation: the action to perform and the rule that owns
/// it.
#[derive(Debug)]
pub struct ActionStep {
    pub rule: Identifier,
    pub action: Identifier,
}

/// The mathematical model of a scheduled invocation.
pub struct StepView {
    pub rule: Seq<char>,
    pub action: Seq<char>,
}

impl View for ActionStep {
    type V = StepView;

    open spec fn view(&self) -> StepView {
        StepView { rule: self.rule@, action: self.action@ }
    }
}

/// The models of a sequence of scheduled invocations.
pub open spec fn step_seq(s: Seq<ActionStep>) -> Seq<StepView> {
    s.map_values(|st: ActionStep| st@)
}

/// The schedule of one rule's actions, in declaration order, each owned by
/// that rule.
pub open spec fn steps_of(rule: Seq<char>, actions: Seq<Seq<char>>) -> Seq<StepView> {
    actions.map_values(|a: Seq<char>| StepView { rule: rule, action: a })
}

/// The full schedule of a plan: every action of every planned rule, rules
/// in plan order, actions in declaration order.
pub open spec fn schedule_of(m: Map<Seq<char>, RuleView>, names: Seq<Seq<char>>) -> Seq<StepView>
    decreases names.len(),
{
    if names.len() == 0 {
        Seq::empty()
    } else {
        schedule_of(m, names.drop_last()) + steps_of(names.last(), m[names.last()].actions)
    }
}

/// A sequential, fail-fast run over a schedule of actions.  `position`
/// counts the actions already performed successfully; everything after it
/// has not been handed out yet.
#[derive(Debug)]
pub struct Execution {
    plan: Vec<Identifier>,
    steps: Vec<ActionStep>,
    next: usize,
}

impl Execution {
    #[verifier::type_invariant]
    spec fn exec_inv(&self) -> bool {
        self.next <= self.steps@.len()
    }

    /// The resolved plan whose actions this run performs.
    pub closed spec fn plan_names(&self) -> Seq<Seq<char>> {
        name_seq(self.plan@)
    }

    /// The full ordered schedule of this run.
    pub closed spec fn schedule(&self) -> Seq<StepView> {
        step_seq(self.steps@)
    }

    /// How many scheduled actions have completed successfully.
    pub closed spec fn position(&self) -> int {
        self.next as int
    }

    /// The planned rules, in execution order.
    pub fn plan(&self) -> (r: &Vec<Identifier>)
        ensures
            name_seq(r@) == self.plan_names(),
    {
        &self.plan
    }

    /// The scheduled invocations, in execution order.
    pub fn steps(&self) -> (r: &Vec<ActionStep>)
        ensures
            step_seq(r@) == self.schedule(),
    {
        &self.steps
    }

    /// The next action to perform, or `None` when the run has completed.
    pub fn next_action(&self) -> (r: Option<&ActionStep>)
        ensures
            match r {
                Some(st) => self.position() < self.schedule().len()
                    && st@ == self.schedule()[self.position()],
                None => self.position() == self.schedule().len(),
            },
    {
        proof {
            use_type_invariant(&*self);
        }
        if self.next < self.steps.len() {
            Some(&self.steps[self.next])
        } else {
            None
        }
    }

    /// True when every scheduled action has completed.
    pub fn is_complete(&self) -> (r: bool)
        ensures
            r == (self.position() == self.schedule().len()),
    {
        proof {
            use_type_invariant(&*self);
        }
        self.next == self.steps.len()
    }

    /// Records that the current action completed successfully, moving on to
    /// the next one.
    pub fn advance(&mut self)
        requires
            old(self).position() < old(self).schedule().len(),
        ensures
            final(self).position() == old(self).position() + 1,
            final(self).schedule() == old(self).schedule(),
            final(self).plan_names() == old(self).plan_names(),
    {
        proof {
            use_type_invariant(&*self);
        }
        let n = self.steps.len();
        assert(self.next < n);
        self.next = self.next + 1;
    }

    /// Wraps a collaborator's failure of the current action into the error
    /// the library reports: the failure is attributed to the rule owning
    /// that action, and the underlying error is carried unchanged.
    pub fn report_failure(&self, err: ActionError) -> (r: ConfigError)
        requires
            self.position() < self.schedule().len(),
        ensures
            match r {
                ConfigError::FailedToPerform { rule, err: e } => rule@ == self.schedule()[
                    self.position()
                ].rule && e == err,
                _ => false,
            },
    {
        proof {
            use_type_invariant(&*self);
        }
        ConfigError::FailedToPerform { rule: self.steps[self.next].rule.clone(), err }
    }
}

impl Config {
    /// Resolves the execution plan rooted at `ident` and lays out the run
    /// of every action of every planned rule, rules in plan order and each
    /// rule's actions in declaration order.  Fails exactly as
    /// [`Config::resolve_plan`] does; no action is scheduled on failure.
    #[verifier::rlimit(30)]
    pub fn perform_rule(&self, ident: &Identifier) -> (r: Result<Execution, ConfigError>)
        ensures
            match r {
                Ok(ex) => {
                    &&& plan_valid(self@, ident@, ex.plan_names())
                    &&& ex.schedule() == schedule_of(self@, ex.plan_names())
                    &&& ex.position() == 0
                },
                Err(ConfigError::UnknownRule(id)) => reaches(self@, ident@, id@)
                    && !self@.contains_key(id@),
                Err(ConfigError::DependencyCycle(p)) => is_cycle(self@, name_seq(p@))
                    && reaches(self@, ident@, name_seq(p@).first()),
                Err(_) => false,
            },
            fully_defined_from(self@, ident@) && acyclic(self@) ==> r is Ok,
    {
        let ghost m = self@;
        let plan = match self.resolve_plan(ident) {
            Ok(p) => p,
            Err(e) => {
                return Err(e);
            },
        };
        let ghost pn = name_seq(plan@);
        let mut steps: Vec<ActionStep> = Vec::new();
        let n = plan.len();
        let mut i: usize = 0;
        while i < n
            invariant
                m == self@,
                n == plan@.len(),
                i <= n,
                pn == name_seq(plan@),
                plan_valid(m, ident@, pn),
                step_seq(steps@) == schedule_of(m, pn.subrange(0, i as int)),
            decreases n - i,
        {
            let body = match self.try_get_rule(&plan[i]) {
                Ok(b) => b,
                Err(e) => {
                    proof {
                        assert(m.contains_key(pn[i as int]));
                        assert(pn[i as int] == plan@[i as int]@);
                        assert(false);
                    }
                    return Err(e);
                },
            };
            let ghost acts = m[pn[i as int]].actions;
            proof {
                assert(body@ == m[pn[i as int]]);
                assert(name_seq(body.actions@) == acts);
            }
            let a_len = body.actions.len();
            let mut j: usize = 0;
            while j < a_len
                invariant
                    m == self@,
                    n == plan@.len(),
                    i < n,
                    pn == name_seq(plan@),
                    acts == m[pn[i as int]].actions,
                    name_seq(body.actions@) == acts,
                    a_len == body.actions@.len(),
                    j <= a_len,
                    step_seq(steps@) == schedule_of(m, pn.subrange(0, i as int)) + steps_of(
                        pn[i as int],
                        acts.subrange(0, j as int),
                    ),
                decreases a_len - j,
            {
                let ghost steps0 = steps@;
                steps.push(ActionStep { rule: plan[i].clone(), action: body.actions[j].clone() });
                proof {
                    let sv = StepView { rule: pn[i as int], action: acts[j as int] };
                    assert(steps@.last()@ == sv);
                    assert(step_seq(steps@) =~= step_seq(steps0).push(sv));
                    assert(steps_of(pn[i as int], acts.subrange(0, j + 1)) =~= steps_of(
                        pn[i as int],
                        acts.subrange(0, j as int),
                    ).push(sv));
                    assert(step_seq(steps@) =~= schedule_of(m, pn.subrange(0, i as int))
                        + steps_of(pn[i as int], acts.subrange(0, j + 1)));
                }
                j = j + 1;
            }
            proof {
                assert(acts.subrange(0, a_len as int) =~= acts);
                let pre = pn.subrange(0, i + 1);
                assert(pre.drop_last() =~= pn.subrange(0, i as int));
                assert(pre.last() == pn[i as int]);
                assert(schedule_of(m, pre) == schedule_of(m, pre.drop_last()) + steps_of(
                    pre.last(),
                    m[pre.last()].actions,
                ));
                assert(step_seq(steps@) =~= schedule_of(m, pn.subrange(0, i + 1)));
            }
            i = i + 1;
        }
        proof {
            assert(pn.subrange(0, n as int) =~= pn);
        }
        Ok(Execution { plan, steps, next: 0 })
    }

    /// Executes a named subset of one rule's actions: schedules exactly the
    /// caller's action names, in the caller's order, all owned by `ident`,
    /// without walking or scheduling the rule's declared dependencies.
    /// Fails with `UnknownRule` exactly when `ident` has no stored rule, and
    /// then schedules nothing.
    pub fn perform_rule_actions(&self, ident: &Identifier, actions_list: &Vec<Identifier>) -> (r:
        Result<Execution, ConfigError>)
        ensures
            match r {
                Ok(ex) => {
                    &&& self@.contains_key(ident@)
                    &&& ex.plan_names() == seq![ident@]
                    &&& ex.schedule() == steps_of(ident@, name_seq(actions_list@))
                    &&& ex.position() == 0
                },
                Err(e) => !self@.contains_key(ident@) && match e {
                    ConfigError::UnknownRule(id) => id@ == ident@,
                    _ => false,
                },
            },
    {
        match self.try_get_rule(ident) {
            Ok(_) => {},
            Err(e) => {
                return Err(e);
            },
        }
        let mut steps: Vec<ActionStep> = Vec::new();
        let n = actions_list.len();
        let mut j: usize = 0;
        while j < n
            invariant
                n == actions_list@.len(),
                j <= n,
                step_seq(steps@) == steps_of(ident@, name_seq(actions_list@).subrange(0, j as int)),
            decreases n - j,
        {
            let ghost steps0 = steps@;
            steps.push(ActionStep { rule: ident.clone(), action: actions_list[j].clone() });
            proof {
                let an = name_seq(actions_list@);
                let sv = StepView { rule: ident@, action: an[j as int] };
                assert(step_seq(steps@) =~= step_seq(steps0).push(sv));
                assert(steps_of(ident@, an.subrange(0, j + 1)) =~= steps_of(
                    ident@,
                    an.subrange(0, j as int),
                ).push(sv));
            }
            j = j + 1;
        }
        let mut plan: Vec<Identifier> = Vec::new();
        plan.push(ident.clone());
        proof {
            let an = name_seq(actions_list@);
            assert(an.subrange(0, n as int) =~= an);
            assert(name_seq(plan@) =~= seq![ident@]);
        }
        Ok(Execution { plan, steps, next: 0 })
    }
}

} // verus!
