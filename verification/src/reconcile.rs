//! The order in which routes and rules are applied: what to ask of the
//! kernel next, given how the last request ended.
//!
//! Every entry is first removed and then, unless it is only to be removed,
//! set up again, so that applying the same definitions twice ends in the same
//! state. A route is set up only once its interface exists. Routes come
//! before rules, and each entry is done with before the next one begins.

use vstd::prelude::*;
use crate::route::{RouteView, Routes};
use crate::rule::{Rule, RuleVersion, Rules};

verus! {

/// What is asked of the kernel, or how the run ends.
#[derive(Clone, Copy, Debug, PartialEq, Eq, Structural)]
pub enum Step {
    /// Open the connection to the kernel.
    Connect,
    /// Remove the route with this index.
    DeleteRoute(usize),
    /// Wait until the interface of the route with this index exists.
    WaitLink(usize),
    /// Set up the route with this index.
    AddRoute(usize),
    /// Remove, for the rule with the first index, the request of one
    /// family with the second index.
    DeleteRule(usize, usize),
    /// Set up, for the rule with the first index, the request of one family
    /// with the second index.
    AddRule(usize, usize),
    /// Everything is applied: stay idle for good.
    Idle,
    /// The run has failed: report it and end.
    Abort,
}

/// How many requests of one family `rule` stands for.
pub open spec fn parts(rule: Rule) -> int {
    match rule.version {
        RuleVersion::Both => 2,
        _ => 1,
    }
}

/// What begins with rule `j`: its removal, or the end where no rule is
/// left.
pub open spec fn rule_start(rules: Seq<Rule>, j: int) -> Step {
    if j < rules.len() {
        Step::DeleteRule(j as usize, 0)
    } else {
        Step::Idle
    }
}

/// What begins with route `i`: its removal, or the rules where no route is
/// left.
pub open spec fn route_start(routes: Seq<RouteView>, rules: Seq<Rule>, i: int) -> Step {
    if i < routes.len() {
        Step::DeleteRoute(i as usize)
    } else {
        rule_start(rules, 0)
    }
}

/// Whether `step` speaks of an entry that is there.
pub open spec fn in_range(routes: Seq<RouteView>, rules: Seq<Rule>, step: Step) -> bool {
    match step {
        Step::DeleteRoute(i) | Step::WaitLink(i) | Step::AddRoute(i) => i < routes.len(),
        Step::DeleteRule(j, p) | Step::AddRule(j, p) => j < rules.len() && p < parts(
            rules[j as int],
        ),
        _ => true,
    }
}

/// The step that follows `step`, where `ok` says whether `step` succeeded.
///
/// Without a connection nothing is applied. A route is removed, whether or
/// not it is to be set up and whether or not it was there; then its
/// interface is awaited, and only then is it set up. A wait that fails ends
/// the run. A rule is removed for each of its families in turn, up to the
/// first family for which that fails, and then set up in the same way.
/// A request that fails for one entry never keeps the next entry from its
/// turn. A step that speaks of no entry ends the run.
pub open spec fn next(routes: Seq<RouteView>, rules: Seq<Rule>, step: Step, ok: bool) -> Step {
    if !in_range(routes, rules, step) {
        Step::Abort
    } else {
        match step {
            Step::Connect => if ok {
                route_start(routes, rules, 0)
            } else {
                Step::Abort
            },
            Step::DeleteRoute(i) => Step::WaitLink(i),
            Step::WaitLink(i) => if !ok {
                Step::Abort
            } else if routes[i as int].delete {
                route_start(routes, rules, i + 1)
            } else {
                Step::AddRoute(i)
            },
            Step::AddRoute(i) => route_start(routes, rules, i + 1),
            Step::DeleteRule(j, p) => if ok && p + 1 < parts(rules[j as int]) {
                Step::DeleteRule(j, (p + 1) as usize)
            } else if rules[j as int].delete {
                rule_start(rules, j + 1)
            } else {
                Step::AddRule(j, 0)
            },
            Step::AddRule(j, p) => if ok && p + 1 < parts(rules[j as int]) {
                Step::AddRule(j, (p + 1) as usize)
            } else {
                rule_start(rules, j + 1)
            },
            Step::Idle => Step::Idle,
            Step::Abort => Step::Abort,
        }
    }
}

/// The step that a run has come to when its steps so far ended as
/// `outcomes` says, the first outcome being that of `Connect`.
pub open spec fn run(routes: Seq<RouteView>, rules: Seq<Rule>, outcomes: Seq<bool>) -> Step
    decreases outcomes.len(),
{
    if outcomes.len() == 0 {
        Step::Connect
    } else {
        next(routes, rules, run(routes, rules, outcomes.drop_last()), outcomes.last())
    }
}

/// The step with which every run begins.
pub fn first_step() -> (r: Step)
    ensures
        r == Step::Connect,
{
    Step::Connect
}

/// Whether the run is over with `step`.
pub fn is_last(step: Step) -> (r: bool)
    ensures
        r == (step == Step::Idle || step == Step::Abort),
{
    match step {
        Step::Idle => true,
        Step::Abort => true,
        _ => false,
    }
}

/// What begins with rule `j`.
fn start_rule(rules: &Rules, j: usize) -> (r: Step)
    ensures
        r == rule_start(rules.rules@, j as int),
{
    if j < rules.rules.len() {
        Step::DeleteRule(j, 0)
    } else {
        Step::Idle
    }
}

/// What begins with route `i`.
fn start_route(routes: &Routes, rules: &Rules, i: usize) -> (r: Step)
    ensures
        r == route_start(routes@, rules.rules@, i as int),
{
    if i < routes.routes.len() {
        Step::DeleteRoute(i)
    } else {
        start_rule(rules, 0)
    }
}

/// How many requests of one family `rule` stands for.
fn count_parts(rule: &Rule) -> (r: usize)
    ensures
        r == parts(*rule),
{
    match rule.version {
        RuleVersion::Both => 2,
        _ => 1,
    }
}

/// The step that follows `step`, where `ok` says whether `step` succeeded.
pub fn next_step(routes: &Routes, rules: &Rules, step: Step, ok: bool) -> (r: Step)
    ensures
        r == next(routes@, rules.rules@, step, ok),
{
    match step {
        Step::Connect => {
            if ok {
                start_route(routes, rules, 0)
            } else {
                Step::Abort
            }
        },
        Step::DeleteRoute(i) => {
            if i < routes.routes.len() {
                Step::WaitLink(i)
            } else {
                Step::Abort
            }
        },
        Step::WaitLink(i) => {
            if i >= routes.routes.len() || !ok {
                Step::Abort
            } else if routes.routes[i].delete {
                start_route(routes, rules, i + 1)
            } else {
                Step::AddRoute(i)
            }
        },
        Step::AddRoute(i) => {
            if i < routes.routes.len() {
                start_route(routes, rules, i + 1)
            } else {
                Step::Abort
            }
        },
        Step::DeleteRule(j, p) => {
            if j >= rules.rules.len() {
                return Step::Abort;
            }
            let n = count_parts(&rules.rules[j]);
            if p >= n {
                Step::Abort
            } else if ok && p + 1 < n {
                Step::DeleteRule(j, p + 1)
            } else if rules.rules[j].delete {
                start_rule(rules, j + 1)
            } else {
                Step::AddRule(j, 0)
            }
        },
        Step::AddRule(j, p) => {
            if j >= rules.rules.len() {
                return Step::Abort;
            }
            let n = count_parts(&rules.rules[j]);
            if p >= n {
                Step::Abort
            } else if ok && p + 1 < n {
                Step::AddRule(j, p + 1)
            } else {
                start_rule(rules, j + 1)
            }
        },
        Step::Idle => Step::Idle,
        Step::Abort => Step::Abort,
    }
}

/// The removal with which the entry of `step` began, where `step` is a
/// later step of an entry.
pub open spec fn begun_with(step: Step) -> Option<Step> {
    match step {
        Step::WaitLink(i) | Step::AddRoute(i) => Some(Step::DeleteRoute(i)),
        Step::DeleteRule(j, p) => if p > 0 {
            Some(Step::DeleteRule(j, 0))
        } else {
            None
        },
        Step::AddRule(j, p) => Some(Step::DeleteRule(j, 0)),
        _ => None,
    }
}

/// How many routes have had their interface awaited with success when
/// a run is at `step`.
pub open spec fn waited(routes: Seq<RouteView>, step: Step) -> int {
    match step {
        Step::Connect | Step::Abort => 0,
        Step::DeleteRoute(i) | Step::WaitLink(i) => i as int,
        Step::AddRoute(i) => i + 1,
        Step::DeleteRule(_, _) | Step::AddRule(_, _) | Step::Idle => routes.len() as int,
    }
}

/// Where `step` stands in the order of all steps.
pub open spec fn rank(routes: Seq<RouteView>, rules: Seq<Rule>, step: Step) -> int {
    match step {
        Step::Connect => 0,
        Step::DeleteRoute(i) => 1 + 3 * i,
        Step::WaitLink(i) => 2 + 3 * i,
        Step::AddRoute(i) => 3 + 3 * i,
        Step::DeleteRule(j, p) => 1 + 3 * routes.len() + 4 * j + p,
        Step::AddRule(j, p) => 3 + 3 * routes.len() + 4 * j + p,
        Step::Idle | Step::Abort => 1 + 3 * routes.len() + 4 * (rules.len() as int),
    }
}

/// Whether the run is over with `step`.
pub open spec fn last(step: Step) -> bool {
    step == Step::Idle || step == Step::Abort
}

/// A run only comes to steps that speak of entries that are there.
pub proof fn lemma_run_in_range(routes: Seq<RouteView>, rules: Seq<Rule>, outcomes: Seq<bool>)
    requires
        routes.len() <= usize::MAX,
        rules.len() <= usize::MAX,
    ensures
        in_range(routes, rules, run(routes, rules, outcomes)),
    decreases outcomes.len(),
{
    if outcomes.len() > 0 {
        lemma_run_in_range(routes, rules, outcomes.drop_last());
    }
}

/// Removal comes before everything else that is done for an entry, set-up
/// included, whether or not the entry is to be set up: a run that is at a
/// later step of an entry has been at the removal of that entry.
pub proof fn lemma_delete_before_add(
    routes: Seq<RouteView>,
    rules: Seq<Rule>,
    outcomes: Seq<bool>,
)
    requires
        routes.len() <= usize::MAX,
        rules.len() <= usize::MAX,
    ensures
        begun_with(run(routes, rules, outcomes)) matches Some(removal) ==> exists|k: int|
            0 <= k < outcomes.len() && #[trigger] run(routes, rules, outcomes.take(k)) == removal,
    decreases outcomes.len(),
{
    let step = run(routes, rules, outcomes);
    if outcomes.len() > 0 && begun_with(step) is Some {
        let removal = begun_with(step)->0;
        let before = outcomes.drop_last();
        let prev = run(routes, rules, before);
        lemma_run_in_range(routes, rules, before);
        assert(before == outcomes.take(outcomes.len() - 1));
        if prev != removal {
            assert(begun_with(prev) == Some(removal));
            lemma_delete_before_add(routes, rules, before);
            let k = choose|k: int|
                0 <= k < before.len() && #[trigger] run(routes, rules, before.take(k)) == removal;
            assert(before.take(k) == outcomes.take(k));
        }
    }
}

/// A route is set up directly behind the wait for its interface, which
/// succeeded, and that wait directly behind the removal of the route.
pub proof fn lemma_add_route_follows_wait(
    routes: Seq<RouteView>,
    rules: Seq<Rule>,
    outcomes: Seq<bool>,
    i: usize,
)
    requires
        routes.len() <= usize::MAX,
        rules.len() <= usize::MAX,
        run(routes, rules, outcomes) == Step::AddRoute(i),
    ensures
        outcomes.len() >= 2,
        i < routes.len() && !routes[i as int].delete,
        run(routes, rules, outcomes.drop_last()) == Step::WaitLink(i),
        outcomes.last(),
        run(routes, rules, outcomes.drop_last().drop_last()) == Step::DeleteRoute(i),
{
    let before = outcomes.drop_last();
    lemma_run_in_range(routes, rules, before);
    assert(run(routes, rules, before) == Step::WaitLink(i));
    lemma_run_in_range(routes, rules, before.drop_last());
}

/// No route has its turn before the interface of every route in front of
/// it has been awaited with success, and no rule before that of every
/// route: a run that is past route `n` has been at the wait for `n`, and
/// that wait succeeded.
pub proof fn lemma_wait_before_next_route(
    routes: Seq<RouteView>,
    rules: Seq<Rule>,
    outcomes: Seq<bool>,
    n: int,
)
    requires
        routes.len() <= usize::MAX,
        rules.len() <= usize::MAX,
        0 <= n < waited(routes, run(routes, rules, outcomes)),
    ensures
        n < routes.len(),
        exists|k: int|
            0 <= k < outcomes.len() && #[trigger] run(routes, rules, outcomes.take(k))
                == Step::WaitLink(n as usize) && outcomes[k],
    decreases outcomes.len(),
{
    if outcomes.len() > 0 {
        let before = outcomes.drop_last();
        let prev = run(routes, rules, before);
        lemma_run_in_range(routes, rules, before);
        lemma_run_in_range(routes, rules, outcomes);
        assert(before == outcomes.take(outcomes.len() - 1));
        if n < waited(routes, prev) {
            lemma_wait_before_next_route(routes, rules, before, n);
            let k = choose|k: int|
                0 <= k < before.len() && #[trigger] run(routes, rules, before.take(k))
                    == Step::WaitLink(n as usize) && before[k];
            assert(before.take(k) == outcomes.take(k));
        } else {
            assert(prev == Step::WaitLink(n as usize));
            assert(outcomes[outcomes.len() - 1]);
        }
    }
}

/// Nothing but a connection that cannot be opened or a wait that fails
/// ends a run early: no removal and no set-up that the kernel refuses
/// does.
pub proof fn lemma_abort_only_without_kernel(
    routes: Seq<RouteView>,
    rules: Seq<Rule>,
    outcomes: Seq<bool>,
)
    requires
        routes.len() <= usize::MAX,
        rules.len() <= usize::MAX,
        run(routes, rules, outcomes) == Step::Abort,
    ensures
        exists|k: int|
            0 <= k < outcomes.len() && !outcomes[k] && ({
                let step = #[trigger] run(routes, rules, outcomes.take(k));
                step == Step::Connect || step is WaitLink
            }),
    decreases outcomes.len(),
{
    let before = outcomes.drop_last();
    let prev = run(routes, rules, before);
    lemma_run_in_range(routes, rules, before);
    assert(before == outcomes.take(outcomes.len() - 1));
    if prev == Step::Abort {
        lemma_abort_only_without_kernel(routes, rules, before);
        let k = choose|k: int|
            0 <= k < before.len() && !before[k] && ({
                let step = #[trigger] run(routes, rules, before.take(k));
                step == Step::Connect || step is WaitLink
            });
        assert(before.take(k) == outcomes.take(k));
    } else {
        assert(!outcomes[outcomes.len() - 1]);
    }
}

/// Every step but the last leads further on in the order of all steps.
pub proof fn lemma_next_moves_on(routes: Seq<RouteView>, rules: Seq<Rule>, step: Step, ok: bool)
    requires
        routes.len() <= usize::MAX,
        rules.len() <= usize::MAX,
        in_range(routes, rules, step),
        !last(step),
    ensures
        rank(routes, rules, step) < rank(routes, rules, next(routes, rules, step, ok)) <= 1 + 3
            * routes.len() + 4 * rules.len(),
{
}

/// Every run is over after one step for the connection, three for each
/// route and four for each rule, at the most.
pub proof fn lemma_run_ends(routes: Seq<RouteView>, rules: Seq<Rule>, outcomes: Seq<bool>)
    requires
        routes.len() <= usize::MAX,
        rules.len() <= usize::MAX,
    ensures
        last(run(routes, rules, outcomes)) || outcomes.len() <= rank(
            routes,
            rules,
            run(routes, rules, outcomes),
        ) < 1 + 3 * routes.len() + 4 * rules.len(),
    decreases outcomes.len(),
{
    if outcomes.len() > 0 {
        let before = outcomes.drop_last();
        lemma_run_ends(routes, rules, before);
        lemma_run_in_range(routes, rules, before);
        if !last(run(routes, rules, before)) {
            lemma_next_moves_on(routes, rules, run(routes, rules, before), outcomes.last());
        }
    }
}

} // verus!
