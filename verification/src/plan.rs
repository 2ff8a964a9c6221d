//! The planner: turns a rule set and a goal target into an ordered sequence
//! of execution phases by a longest-dependency-chain ranking, plus the
//! substitution of `$@` and `$<` in command text that the executor performs.
//!
//! Every invocation's dependencies are placed in strictly earlier phases, the
//! goal sits alone at the top, and the plan holds exactly the targets
//! reachable from the goal. Planning fails with [`PlanError::UnknownTarget`]
//! when the goal or a transitively required dependency has no rule, and with
//! [`PlanError::CyclicDependency`] when a required target transitively
//! depends on itself.

use vstd::prelude::*;

use crate::makefile::{names_of, Command, Makefile, Rule, RuleModel, Target};

verus! {

/// The first rule in `m` whose target is `t`, if any: lookup is
/// first-match-wins, later duplicates are unreachable.
pub open spec fn first_rule_for(m: Seq<RuleModel>, t: Seq<char>) -> Option<RuleModel>
    decreases m.len(),
{
    if m.len() == 0 {
        None
    } else if m[0].target == t {
        Some(m[0])
    } else {
        first_rule_for(m.drop_first(), t)
    }
}

/// Whether some rule in `m` builds `t`.
pub open spec fn has_rule(m: Seq<RuleModel>, t: Seq<char>) -> bool {
    first_rule_for(m, t) is Some
}

/// The rule that builds `t` (the first match).
pub open spec fn rule_of(m: Seq<RuleModel>, t: Seq<char>) -> RuleModel {
    first_rule_for(m, t)->Some_0
}

/// There is a dependency path of exactly `n` edges from `from` to `to`,
/// following each intermediate target's first-match rule.
pub open spec fn dep_path(m: Seq<RuleModel>, from: Seq<char>, to: Seq<char>, n: nat) -> bool
    decreases n,
{
    if n == 0 {
        from == to
    } else {
        has_rule(m, from) && exists|i: int|
            0 <= i < rule_of(m, from).deps.len() && dep_path(
                m,
                rule_of(m, from).deps[i],
                to,
                (n - 1) as nat,
            )
    }
}

/// Target `to` is `from` itself or one of its transitive dependencies.
pub open spec fn reaches(m: Seq<RuleModel>, from: Seq<char>, to: Seq<char>) -> bool {
    exists|n: nat| dep_path(m, from, to, n)
}

/// No target reachable from `goal` depends, transitively, on itself.
pub open spec fn cycle_free(m: Seq<RuleModel>, goal: Seq<char>) -> bool {
    forall|t: Seq<char>, n: nat| reaches(m, goal, t) && n >= 1 ==> !dep_path(m, t, t, n)
}

/// Every target reachable from `goal` has a matching rule.
pub open spec fn targets_resolvable(m: Seq<RuleModel>, goal: Seq<char>) -> bool {
    forall|t: Seq<char>| reaches(m, goal, t) ==> has_rule(m, t)
}

proof fn lemma_first_rule_is(m: Seq<RuleModel>, t: Seq<char>, j: int)
    requires
        0 <= j <= m.len(),
        forall|k: int| 0 <= k < j ==> m[k].target != t,
        j < m.len() ==> m[j].target == t,
    ensures
        j < m.len() ==> first_rule_for(m, t) == Some(m[j]),
        j == m.len() ==> first_rule_for(m, t) is None,
    decreases m.len(),
{
    if m.len() > 0 && j > 0 {
        assert(m[0].target != t);
        lemma_first_rule_is(m.drop_first(), t, j - 1);
        assert forall|k: int| 0 <= k < j - 1 implies m.drop_first()[k].target != t by {
            assert(m.drop_first()[k] == m[k + 1]);
        }
        if j < m.len() {
            assert(m.drop_first()[j - 1] == m[j]);
        }
    }
}

/// Dependency paths compose.
proof fn lemma_dep_path_trans(
    m: Seq<RuleModel>,
    a: Seq<char>,
    b: Seq<char>,
    c: Seq<char>,
    n1: nat,
    n2: nat,
)
    requires
        dep_path(m, a, b, n1),
        dep_path(m, b, c, n2),
    ensures
        dep_path(m, a, c, n1 + n2),
    decreases n1,
{
    if n1 == 0 {
    } else {
        let i = choose|i: int|
            0 <= i < rule_of(m, a).deps.len() && dep_path(
                m,
                rule_of(m, a).deps[i],
                b,
                (n1 - 1) as nat,
            );
        lemma_dep_path_trans(m, rule_of(m, a).deps[i], b, c, (n1 - 1) as nat, n2);
        assert(dep_path(m, rule_of(m, a).deps[i], c, (n1 + n2 - 1) as nat));
    }
}

/// If `b` is a dependency of `a` and `a` is reachable from `g`, then `b` is
/// reachable from `g` too.
proof fn lemma_reaches_extend(m: Seq<RuleModel>, g: Seq<char>, a: Seq<char>, b: Seq<char>)
    requires
        reaches(m, g, a),
        has_rule(m, a),
        rule_of(m, a).deps.contains(b),
    ensures
        reaches(m, g, b),
{
    let n = choose|n: nat| dep_path(m, g, a, n);
    let i = choose|i: int| 0 <= i < rule_of(m, a).deps.len() && rule_of(m, a).deps[i] == b;
    assert(dep_path(m, b, b, 0));
    assert(dep_path(m, a, b, 1));
    lemma_dep_path_trans(m, g, a, b, n, 1);
}

/// A found rule is an element of the makefile and names the queried target.
proof fn lemma_first_rule_found(m: Seq<RuleModel>, t: Seq<char>)
    requires
        has_rule(m, t),
    ensures
        rule_of(m, t).target == t,
        m.contains(rule_of(m, t)),
    decreases m.len(),
{
    if m.len() > 0 && m[0].target != t {
        lemma_first_rule_found(m.drop_first(), t);
        assert(m.drop_first().contains(rule_of(m, t)) ==> m.contains(rule_of(m, t)));
    }
}

/// A duplicate-free sequence of target names that all have rules cannot
/// outnumber the rules: each name pins down a distinct rule of the makefile.
proof fn lemma_distinct_resolvable_bound(m: Seq<RuleModel>, ts: Seq<Seq<char>>)
    requires
        ts.no_duplicates(),
        forall|i: int| 0 <= i < ts.len() ==> has_rule(m, #[trigger] ts[i]),
    ensures
        ts.len() <= m.len(),
{
    broadcast use vstd::seq_lib::seq_to_set_is_finite;

    let rs = ts.map_values(|t: Seq<char>| rule_of(m, t));
    assert forall|i: int| 0 <= i < ts.len() implies m.contains(#[trigger] rs[i]) by {
        lemma_first_rule_found(m, ts[i]);
    }
    assert forall|i: int, j: int| 0 <= i < j < ts.len() implies rs[i] != rs[j] by {
        lemma_first_rule_found(m, ts[i]);
        lemma_first_rule_found(m, ts[j]);
    }
    assert(rs.no_duplicates());
    rs.unique_seq_to_set();
    m.lemma_cardinality_of_set();
    assert forall|r: RuleModel| rs.to_set().contains(r) implies m.to_set().contains(r) by {
        assert(rs.contains(r));
        assert(m.contains(r));
    }
    assert(rs.to_set().subset_of(m.to_set()));
    vstd::set_lib::lemma_len_subset(rs.to_set(), m.to_set());
}

/// A resolved pairing of a target with the rule that builds it.
#[derive(Debug, PartialEq)]
pub struct Invocation {
    pub rule: Rule,
    pub target: Target,
}

/// The mathematical shape of an invocation.
#[verifier::ext_equal]
pub ghost struct InvocationModel {
    pub rule: RuleModel,
    pub target: Seq<char>,
}

impl View for Invocation {
    type V = InvocationModel;

    open spec fn view(&self) -> InvocationModel {
        InvocationModel { rule: self.rule@, target: self.target@ }
    }
}

impl Clone for Invocation {
    fn clone(&self) -> (r: Invocation)
        ensures
            r@ == self@,
    {
        Invocation { rule: self.rule.clone(), target: self.target.clone() }
    }
}

/// A batch of invocations that may run in any order relative to each other,
/// but only after every earlier phase has completed.
pub type Phase = Vec<Invocation>;

/// The phase-ordered schedule produced for one goal.
#[derive(Debug, PartialEq)]
pub struct Plan {
    pub makefile: Makefile,
    pub phases: Vec<Phase>,
}

/// The mathematical shape of a plan.
#[verifier::ext_equal]
pub ghost struct PlanModel {
    pub makefile: Seq<RuleModel>,
    pub phases: Seq<Seq<InvocationModel>>,
}

/// The models of a sequence of invocations, in order.
pub open spec fn invocations_of(phase: Seq<Invocation>) -> Seq<InvocationModel> {
    phase.map_values(|iv: Invocation| iv@)
}

/// The models of a sequence of phases, in order.
pub open spec fn phases_of(phases: Seq<Vec<Invocation>>) -> Seq<Seq<InvocationModel>> {
    phases.map_values(|p: Vec<Invocation>| invocations_of(p@))
}

impl View for Plan {
    type V = PlanModel;

    open spec fn view(&self) -> PlanModel {
        PlanModel { makefile: self.makefile@, phases: phases_of(self.phases@) }
    }
}

/// Why planning failed.
#[derive(Debug, PartialEq)]
pub enum PlanError {
    /// The named target — the goal or a transitively required dependency —
    /// has no matching rule.
    UnknownTarget(Target),
    /// The named required target transitively depends on itself, so no
    /// phase order exists for it.
    CyclicDependency(Target),
}

/// Every invocation pairs a target with that target's first-match rule.
pub open spec fn plan_rules_resolved(p: PlanModel) -> bool {
    forall|r: int, i: int|
        0 <= r < p.phases.len() && 0 <= i < p.phases[r].len() ==> first_rule_for(
            p.makefile,
            (#[trigger] p.phases[r][i]).target,
        ) == Some(p.phases[r][i].rule)
}

/// Some phase strictly before `r` invokes target `t`.
pub open spec fn invoked_before(phases: Seq<Seq<InvocationModel>>, r: int, t: Seq<char>) -> bool {
    exists|r2: int, i2: int|
        0 <= r2 < r && 0 <= i2 < phases[r2].len() && (#[trigger] phases[r2][i2]).target == t
}

/// Every dependency of an invocation in phase `r` has its own invocation in
/// some phase strictly before `r`.
pub open spec fn plan_deps_precede(p: PlanModel) -> bool {
    forall|r: int, i: int, d: int|
        0 <= r < p.phases.len() && 0 <= i < p.phases[r].len() && 0 <= d
            < p.phases[r][i].rule.deps.len() ==> invoked_before(
            p.phases,
            r,
            (#[trigger] p.phases[r][i].rule.deps[d]),
        )
}

/// No target is invoked twice.
pub open spec fn plan_targets_unique(p: PlanModel) -> bool {
    forall|r1: int, i1: int, r2: int, i2: int|
        0 <= r1 < p.phases.len() && 0 <= i1 < p.phases[r1].len() && 0 <= r2 < p.phases.len() && 0
            <= i2 < p.phases[r2].len() && (#[trigger] p.phases[r1][i1]).target
            == (#[trigger] p.phases[r2][i2]).target ==> r1 == r2 && i1 == i2
}

/// Every invoked target is the goal or one of its transitive dependencies.
pub open spec fn plan_within_goal(p: PlanModel, goal: Seq<char>) -> bool {
    forall|r: int, i: int|
        0 <= r < p.phases.len() && 0 <= i < p.phases[r].len() ==> reaches(
            p.makefile,
            goal,
            (#[trigger] p.phases[r][i]).target,
        )
}

/// Every target reachable from the goal is invoked somewhere.
pub open spec fn plan_covers_goal(p: PlanModel, goal: Seq<char>) -> bool {
    forall|t: Seq<char>|
        #[trigger] reaches(p.makefile, goal, t) ==> exists|r: int, i: int|
            0 <= r < p.phases.len() && 0 <= i < p.phases[r].len() && p.phases[r][i].target == t
}

/// The goal's invocation sits in the final phase, the highest one.
pub open spec fn plan_goal_last(p: PlanModel, goal: Seq<char>) -> bool {
    p.phases.len() > 0 && exists|i: int|
        0 <= i < p.phases.last().len() && p.phases.last()[i].target == goal
}

/// No phase is empty.
pub open spec fn plan_phases_inhabited(p: PlanModel) -> bool {
    forall|r: int| 0 <= r < p.phases.len() ==> (#[trigger] p.phases[r]).len() > 0
}

/// A target whose rank is final: the length of the longest dependency chain
/// beneath it, which will be its phase index.
struct Ranked {
    target: Target,
    rank: usize,
    rule: Rule,
}

spec fn closed_has(cl: Seq<Ranked>, t: Seq<char>) -> bool {
    exists|j: int| 0 <= j < cl.len() && cl[j].target@ == t
}

/// `t` is closed with a rank strictly below `r`.
spec fn closed_below(cl: Seq<Ranked>, t: Seq<char>, r: int) -> bool {
    exists|j: int| 0 <= j < cl.len() && cl[j].target@ == t && cl[j].rank < r
}

/// The invariant of the closed list: ranks are bounded by position, every
/// entry holds its target's first-match rule, every dependency of an entry
/// is closed strictly below it, ranks above zero are witnessed one below
/// (so no rank level is skipped), and targets are never closed twice.
spec fn closed_wf(m: Seq<RuleModel>, cl: Seq<Ranked>) -> bool {
    &&& forall|i: int| 0 <= i < cl.len() ==> (#[trigger] cl[i]).rank <= i
    &&& forall|i: int|
        0 <= i < cl.len() ==> first_rule_for(m, (#[trigger] cl[i]).target@) == Some(cl[i].rule@)
    &&& forall|i: int, d: int|
        0 <= i < cl.len() && 0 <= d < cl[i].rule@.deps.len() ==> closed_below(
            cl,
            (#[trigger] cl[i].rule@.deps[d]),
            cl[i].rank as int,
        )
    &&& forall|i: int|
        0 <= i < cl.len() && (#[trigger] cl[i]).rank > 0 ==> rank_present(cl, cl[i].rank - 1)
    &&& closed_distinct(cl)
}

/// Some closed entry has exactly rank `rk`.
spec fn rank_present(cl: Seq<Ranked>, rk: int) -> bool {
    exists|j: int| 0 <= j < cl.len() && (#[trigger] cl[j]).rank == rk
}

/// No target is closed twice.
spec fn closed_distinct(cl: Seq<Ranked>) -> bool {
    forall|i: int, j: int| 0 <= i < j < cl.len() ==> cl[i].target@ != cl[j].target@
}

/// Anything a closed target reaches is closed, with a rank no higher: ranks
/// strictly decrease along dependency edges.
proof fn lemma_closed_descent(m: Seq<RuleModel>, cl: Seq<Ranked>, a: int, u: Seq<char>, n: nat)
    requires
        closed_wf(m, cl),
        0 <= a < cl.len(),
        dep_path(m, cl[a].target@, u, n),
    ensures
        exists|j: int| 0 <= j < cl.len() && cl[j].target@ == u && cl[j].rank <= cl[a].rank,
    decreases n,
{
    if n == 0 {
        assert(cl[a].target@ == u && cl[a].rank <= cl[a].rank);
    } else if cl[a].target@ == u {
    } else {
        let t = cl[a].target@;
        let i = choose|i: int|
            0 <= i < rule_of(m, t).deps.len() && dep_path(m, rule_of(m, t).deps[i], u, (n - 1) as nat);
        assert(rule_of(m, t) == cl[a].rule@);
        let d = rule_of(m, t).deps[i];
        assert(closed_below(cl, d, cl[a].rank as int));
        let j = choose|j: int| 0 <= j < cl.len() && cl[j].target@ == d && cl[j].rank < cl[a].rank;
        lemma_closed_descent(m, cl, j, u, (n - 1) as nat);
    }
}

/// Everything reachable from a closed target is itself closed.
proof fn lemma_closed_coverage(m: Seq<RuleModel>, cl: Seq<Ranked>, a: int, u: Seq<char>, n: nat)
    requires
        closed_wf(m, cl),
        0 <= a < cl.len(),
        dep_path(m, cl[a].target@, u, n),
    ensures
        closed_has(cl, u),
{
    lemma_closed_descent(m, cl, a, u, n);
}

/// No closed rank level below an occupied one is empty.
proof fn lemma_rank_dense(m: Seq<RuleModel>, cl: Seq<Ranked>, hi: int, r: int)
    requires
        closed_wf(m, cl),
        0 <= r <= hi,
        rank_present(cl, hi),
    ensures
        rank_present(cl, r),
    decreases hi - r,
{
    if r < hi {
        let j = choose|j: int| 0 <= j < cl.len() && (#[trigger] cl[j]).rank == hi;
        assert(cl[j].rank > 0);
        assert(rank_present(cl, hi - 1));
        lemma_rank_dense(m, cl, hi - 1, r);
    }
}

/// The rank of the dependency `t`, if `t` is closed.
fn closed_rank_of(cl: &Vec<Ranked>, t: &Target) -> (r: Option<usize>)
    ensures
        (match r {
            Some(rk) => exists|j: int|
                0 <= j < cl@.len() && (#[trigger] cl@[j]).target@ == t@ && cl@[j].rank == rk,
            None => !closed_has(cl@, t@),
        }),
{
    let n = cl.len();
    let mut i: usize = 0;
    while i < n
        invariant
            i <= n,
            n == cl@.len(),
            forall|k: int| 0 <= k < i ==> (#[trigger] cl@[k]).target@ != t@,
        decreases n - i,
    {
        if t.eq(&cl[i].target) {
            return Some(cl[i].rank);
        }
        i = i + 1;
    }
    None
}

/// Whether `t` is currently on the depth-first path.
fn on_path(path: &Vec<Frame>, t: &Target) -> (r: bool)
    ensures
        r == exists|i: int| 0 <= i < path@.len() && (#[trigger] path@[i]).target@ == t@,
{
    let n = path.len();
    let mut i: usize = 0;
    while i < n
        invariant
            i <= n,
            n == path@.len(),
            forall|k: int| 0 <= k < i ==> (#[trigger] path@[k]).target@ != t@,
        decreases n - i,
    {
        if t.eq(&path[i].target) {
            return true;
        }
        i = i + 1;
    }
    false
}

/// One suspended step of the depth-first walk: a target, its rule, how many
/// of its dependencies are already accounted for, and the best rank found
/// among them so far.
struct Frame {
    target: Target,
    rule: Rule,
    next_dep: usize,
    rank: usize,
}

fn find_rule_opt(makefile: &Makefile, target: &Target) -> (r: Option<Rule>)
    ensures
        (match r {
            Some(rule) => first_rule_for(makefile@, target@) == Some(rule@),
            None => first_rule_for(makefile@, target@) is None,
        }),
{
    let n = makefile.rules.len();
    let mut i: usize = 0;
    while i < n
        invariant
            i <= n,
            n == makefile.rules@.len(),
            forall|k: int| 0 <= k < i ==> (#[trigger] makefile@[k]).target != target@,
        decreases n - i,
    {
        if target.eq(&makefile.rules[i].target) {
            proof {
                lemma_first_rule_is(makefile@, target@, i as int);
            }
            return Some(makefile.rules[i].clone());
        }
        i = i + 1;
    }
    proof {
        lemma_first_rule_is(makefile@, target@, n as int);
    }
    None
}

/// The goal's rank tops every closed rank: every closed target is reachable
/// from the goal, and ranks never grow along a dependency path.
proof fn lemma_goal_rank_max(m: Seq<RuleModel>, cl: Seq<Ranked>, gj: int, goal: Seq<char>)
    requires
        closed_wf(m, cl),
        0 <= gj < cl.len(),
        cl[gj].target@ == goal,
        forall|i: int| 0 <= i < cl.len() ==> reaches(m, goal, (#[trigger] cl[i]).target@),
    ensures
        forall|k: int| 0 <= k < cl.len() ==> (#[trigger] cl[k]).rank <= cl[gj].rank,
{
    assert forall|k: int| 0 <= k < cl.len() implies (#[trigger] cl[k]).rank <= cl[gj].rank by {
        let nk = choose|nk: nat| dep_path(m, goal, cl[k].target@, nk);
        lemma_closed_descent(m, cl, gj, cl[k].target@, nk);
        let j2 = choose|j2: int|
            0 <= j2 < cl.len() && cl[j2].target@ == cl[k].target@ && cl[j2].rank <= cl[gj].rank;
        assert(j2 == k);
    }
}

/// Invocation `e` is that of one of the first `hi` closed entries, of rank
/// `r`, carrying that entry's rule.
spec fn gathered_from(cl: Seq<Ranked>, r: int, hi: int, e: InvocationModel) -> bool {
    exists|j: int|
        0 <= j < hi && (#[trigger] cl[j]).rank == r && cl[j].target@ == e.target && cl[j].rule@
            == e.rule
}

/// Some invocation of `gph` names target `t`.
spec fn phase_gathers(gph: Seq<InvocationModel>, t: Seq<char>) -> bool {
    exists|x: int| 0 <= x < gph.len() && (#[trigger] gph[x]).target == t
}

/// Every invocation in phase `r` of `pm` comes from a closed target of
/// rank `r`, carrying that target's rule.
spec fn placement_sound(cl: Seq<Ranked>, pm: Seq<Seq<InvocationModel>>) -> bool {
    forall|r2: int, x: int|
        0 <= r2 < pm.len() && 0 <= x < pm[r2].len() ==> gathered_from(
            cl,
            r2,
            cl.len() as int,
            (#[trigger] pm[r2][x]),
        )
}

/// Every closed target whose rank is an existing phase index is placed in
/// the phase of its rank.
spec fn placement_covers(cl: Seq<Ranked>, pm: Seq<Seq<InvocationModel>>) -> bool {
    forall|j: int|
        0 <= j < cl.len() && (#[trigger] cl[j]).rank < pm.len() ==> phase_gathers(
            pm[cl[j].rank as int],
            cl[j].target@,
        )
}

/// No phase of `pm` names a target twice.
spec fn placement_distinct(pm: Seq<Seq<InvocationModel>>) -> bool {
    forall|r2: int, x1: int, x2: int|
        0 <= r2 < pm.len() && 0 <= x1 < x2 < pm[r2].len() ==> (#[trigger] pm[r2][x1]).target
            != (#[trigger] pm[r2][x2]).target
}

/// A ghost phase table built alongside the executable one, element by
/// element, is its view.
proof fn lemma_phases_view(ph: Seq<Vec<Invocation>>, pm: Seq<Seq<InvocationModel>>)
    requires
        pm.len() == ph.len(),
        forall|r2: int| 0 <= r2 < pm.len() ==> (#[trigger] pm[r2]).len() == ph[r2]@.len(),
        forall|r2: int, x: int|
            0 <= r2 < pm.len() && 0 <= x < pm[r2].len() ==> #[trigger] pm[r2][x] == ph[r2]@[x]@,
    ensures
        phases_of(ph) == pm,
{
    assert forall|r2: int| 0 <= r2 < pm.len() implies phases_of(ph)[r2] == pm[r2] by {
        assert(phases_of(ph)[r2] == invocations_of(ph[r2]@));
        assert forall|x: int| 0 <= x < ph[r2]@.len() implies invocations_of(ph[r2]@)[x]
            == pm[r2][x] by {
            assert(invocations_of(ph[r2]@)[x] == ph[r2]@[x]@);
        }
        assert(invocations_of(ph[r2]@) =~= pm[r2]);
    }
    assert(phases_of(ph) =~= pm);
}

/// Each placed invocation holds its target's first-match rule, is reachable
/// from the goal, and no target is placed twice.
#[verifier::rlimit(100)]
proof fn lemma_plan_sound(
    m: Seq<RuleModel>,
    cl: Seq<Ranked>,
    pm: Seq<Seq<InvocationModel>>,
    goal: Seq<char>,
)
    requires
        closed_wf(m, cl),
        placement_sound(cl, pm),
        placement_distinct(pm),
        forall|i: int| 0 <= i < cl.len() ==> reaches(m, goal, (#[trigger] cl[i]).target@),
    ensures
        plan_rules_resolved(PlanModel { makefile: m, phases: pm }),
        plan_within_goal(PlanModel { makefile: m, phases: pm }, goal),
        plan_targets_unique(PlanModel { makefile: m, phases: pm }),
{
    let p = PlanModel { makefile: m, phases: pm };
    assert(plan_rules_resolved(p));
    assert(plan_within_goal(p, goal));
    assert forall|r1: int, x1: int, r2: int, x2: int|
        0 <= r1 < pm.len() && 0 <= x1 < pm[r1].len() && 0 <= r2 < pm.len() && 0 <= x2
            < pm[r2].len() && (#[trigger] pm[r1][x1]).target == (#[trigger] pm[r2][x2]).target
        implies r1 == r2 && x1 == x2 by {
        assert(gathered_from(cl, r1, cl.len() as int, pm[r1][x1]));
        assert(gathered_from(cl, r2, cl.len() as int, pm[r2][x2]));
        let j1 = choose|j: int|
            0 <= j < cl.len() && (#[trigger] cl[j]).rank == r1 && cl[j].target@
                == pm[r1][x1].target && cl[j].rule@ == pm[r1][x1].rule;
        let j2 = choose|j: int|
            0 <= j < cl.len() && (#[trigger] cl[j]).rank == r2 && cl[j].target@
                == pm[r2][x2].target && cl[j].rule@ == pm[r2][x2].rule;
        assert(j1 == j2);
        if x1 < x2 {
            assert(pm[r1][x1].target != pm[r1][x2].target);
        }
        if x2 < x1 {
            assert(pm[r1][x2].target != pm[r1][x1].target);
        }
    }
    assert(plan_targets_unique(p));
}

/// Each dependency of a placed invocation is invoked in a strictly earlier
/// phase: its target closed with a strictly smaller rank.
#[verifier::rlimit(100)]
proof fn lemma_plan_precede(m: Seq<RuleModel>, cl: Seq<Ranked>, pm: Seq<Seq<InvocationModel>>)
    requires
        closed_wf(m, cl),
        placement_sound(cl, pm),
        placement_covers(cl, pm),
    ensures
        plan_deps_precede(PlanModel { makefile: m, phases: pm }),
{
    let p = PlanModel { makefile: m, phases: pm };
    assert forall|r2: int, x: int, d: int|
        0 <= r2 < p.phases.len() && 0 <= x < p.phases[r2].len() && 0 <= d
            < p.phases[r2][x].rule.deps.len() implies invoked_before(
        p.phases,
        r2,
        (#[trigger] p.phases[r2][x].rule.deps[d]),
    ) by {
        assert(gathered_from(cl, r2, cl.len() as int, pm[r2][x]));
        let j = choose|j: int|
            0 <= j < cl.len() && (#[trigger] cl[j]).rank == r2 && cl[j].target@
                == pm[r2][x].target && cl[j].rule@ == pm[r2][x].rule;
        assert(closed_below(cl, cl[j].rule@.deps[d], cl[j].rank as int));
        let j2 = choose|j2: int|
            0 <= j2 < cl.len() && cl[j2].target@ == cl[j].rule@.deps[d] && cl[j2].rank
                < cl[j].rank;
        let r3 = cl[j2].rank as int;
        assert(cl[j2].rank < pm.len());
        assert(phase_gathers(pm[r3], cl[j2].target@));
        let x2 = choose|x2: int|
            0 <= x2 < pm[r3].len() && (#[trigger] pm[r3][x2]).target == cl[j2].target@;
        assert(0 <= r3 < r2 && 0 <= x2 < p.phases[r3].len() && (#[trigger] p.phases[r3][x2]).target
            == p.phases[r2][x].rule.deps[d]);
        assert(invoked_before(p.phases, r2, p.phases[r2][x].rule.deps[d]));
    }
}

/// Everything reachable from the goal is placed, the goal tops the final
/// phase, and no phase is empty.
#[verifier::rlimit(100)]
proof fn lemma_plan_cover(
    m: Seq<RuleModel>,
    cl: Seq<Ranked>,
    pm: Seq<Seq<InvocationModel>>,
    goal: Seq<char>,
    gj: int,
    maxr: int,
)
    requires
        closed_wf(m, cl),
        placement_sound(cl, pm),
        placement_covers(cl, pm),
        0 <= gj < cl.len(),
        cl[gj].target@ == goal,
        cl[gj].rank == maxr,
        forall|k: int| 0 <= k < cl.len() ==> (#[trigger] cl[k]).rank <= maxr,
        pm.len() == maxr + 1,
    ensures
        plan_covers_goal(PlanModel { makefile: m, phases: pm }, goal),
        plan_goal_last(PlanModel { makefile: m, phases: pm }, goal),
        plan_phases_inhabited(PlanModel { makefile: m, phases: pm }),
{
    let p = PlanModel { makefile: m, phases: pm };
    assert forall|t: Seq<char>| #[trigger] reaches(p.makefile, goal, t) implies exists|
        r2: int,
        x: int,
    |
        0 <= r2 < p.phases.len() && 0 <= x < p.phases[r2].len() && p.phases[r2][x].target
            == t by {
        let nt = choose|nt: nat| dep_path(m, goal, t, nt);
        lemma_closed_coverage(m, cl, gj, t, nt);
        let j = choose|j: int| 0 <= j < cl.len() && cl[j].target@ == t;
        let r2 = cl[j].rank as int;
        assert(phase_gathers(pm[r2], cl[j].target@));
        let x = choose|x: int|
            0 <= x < pm[r2].len() && (#[trigger] pm[r2][x]).target == cl[j].target@;
        assert(0 <= r2 < p.phases.len() && 0 <= x < p.phases[r2].len() && p.phases[r2][x].target
            == t);
    }
    assert(plan_covers_goal(p, goal));
    assert(cl[gj].rank < pm.len());
    assert(phase_gathers(pm[maxr], cl[gj].target@));
    let x = choose|x: int| 0 <= x < pm[maxr].len() && (#[trigger] pm[maxr][x]).target == cl[gj].target@;
    assert(p.phases.last() == pm[maxr]);
    assert(0 <= x < p.phases.last().len() && p.phases.last()[x].target == goal);
    assert(plan_goal_last(p, goal));
    assert forall|r2: int| 0 <= r2 < pm.len() implies (#[trigger] pm[r2]).len() > 0 by {
        assert(rank_present(cl, maxr));
        lemma_rank_dense(m, cl, maxr, r2);
        let j = choose|j: int| 0 <= j < cl.len() && (#[trigger] cl[j]).rank == r2;
        assert(phase_gathers(pm[r2], cl[j].target@));
        let x2 = choose|x2: int|
            0 <= x2 < pm[r2].len() && (#[trigger] pm[r2][x2]).target == cl[j].target@;
    }
    assert(plan_phases_inhabited(p));
}

/// One phase under construction, for rank `r`, after scanning the first
/// `hi` closed entries: every invocation gathered so far comes from a
/// scanned entry of rank `r`.
spec fn phase_sound(cl: Seq<Ranked>, r: int, hi: int, gph: Seq<InvocationModel>) -> bool {
    forall|x: int| 0 <= x < gph.len() ==> gathered_from(cl, r, hi, (#[trigger] gph[x]))
}

/// Every scanned closed entry of rank `r` has been gathered.
spec fn phase_covers(cl: Seq<Ranked>, r: int, hi: int, gph: Seq<InvocationModel>) -> bool {
    forall|j: int|
        0 <= j < hi && (#[trigger] cl[j]).rank == r ==> phase_gathers(gph, cl[j].target@)
}

/// The phase under construction names no target twice.
spec fn phase_distinct(gph: Seq<InvocationModel>) -> bool {
    forall|x1: int, x2: int|
        0 <= x1 < x2 < gph.len() ==> (#[trigger] gph[x1]).target != (#[trigger] gph[x2]).target
}

/// Gathering the invocation of the next closed entry, when its rank
/// matches, keeps the phase sound, covering and duplicate-free.
#[verifier::rlimit(100)]
#[verifier::spinoff_prover]
proof fn lemma_phase_push(
    cl: Seq<Ranked>,
    gph0: Seq<InvocationModel>,
    e: InvocationModel,
    r: int,
    i2: int,
)
    requires
        0 <= i2 < cl.len(),
        closed_distinct(cl),
        cl[i2].rank == r,
        e.target == cl[i2].target@,
        e.rule == cl[i2].rule@,
        phase_sound(cl, r, i2, gph0),
        phase_covers(cl, r, i2, gph0),
        phase_distinct(gph0),
    ensures
        phase_sound(cl, r, i2 + 1, gph0.push(e)),
        phase_covers(cl, r, i2 + 1, gph0.push(e)),
        phase_distinct(gph0.push(e)),
{
    let gph = gph0.push(e);
    assert forall|x: int| 0 <= x < gph.len() implies gathered_from(cl, r, i2 + 1, (
    #[trigger] gph[x])) by {
        if x < gph0.len() {
            assert(gph[x] == gph0[x]);
            assert(gathered_from(cl, r, i2, gph0[x]));
            let j = choose|j: int|
                0 <= j < i2 && (#[trigger] cl[j]).rank == r && cl[j].target@ == gph0[x].target
                    && cl[j].rule@ == gph0[x].rule;
            assert(0 <= j < i2 + 1 && cl[j].rank == r && cl[j].target@ == gph[x].target
                && cl[j].rule@ == gph[x].rule);
        } else {
            assert(gph[x] == e);
            assert(0 <= i2 < i2 + 1 && cl[i2].rank == r && cl[i2].target@ == gph[x].target
                && cl[i2].rule@ == gph[x].rule);
        }
    }
    assert(phase_sound(cl, r, i2 + 1, gph));
    assert forall|j: int| 0 <= j < i2 + 1 && (#[trigger] cl[j]).rank == r implies phase_gathers(
        gph,
        cl[j].target@,
    ) by {
        if j < i2 {
            assert(phase_gathers(gph0, cl[j].target@));
            let x = choose|x: int|
                0 <= x < gph0.len() && (#[trigger] gph0[x]).target == cl[j].target@;
            assert(gph[x] == gph0[x]);
            assert(0 <= x < gph.len() && gph[x].target == cl[j].target@);
        } else {
            assert(gph[gph.len() - 1] == e);
            assert(gph[gph.len() - 1].target == cl[j].target@);
        }
    }
    assert(phase_covers(cl, r, i2 + 1, gph));
    assert forall|x1: int, x2: int|
        0 <= x1 < x2 < gph.len() implies (#[trigger] gph[x1]).target != (
        #[trigger] gph[x2]).target by {
        if x2 < gph0.len() {
            assert(gph[x1] == gph0[x1]);
            assert(gph[x2] == gph0[x2]);
        } else {
            assert(gph[x1] == gph0[x1]);
            assert(gph[x2] == e);
            assert(gathered_from(cl, r, i2, gph0[x1]));
            let j = choose|j: int|
                0 <= j < i2 && (#[trigger] cl[j]).rank == r && cl[j].target@ == gph0[x1].target
                    && cl[j].rule@ == gph0[x1].rule;
            assert(cl[j].target@ != cl[i2].target@);
        }
    }
    assert(phase_distinct(gph));
}

/// Skipping a closed entry whose rank does not match keeps the phase facts.
#[verifier::rlimit(100)]
#[verifier::spinoff_prover]
proof fn lemma_phase_skip(cl: Seq<Ranked>, gph: Seq<InvocationModel>, r: int, i2: int)
    requires
        0 <= i2 < cl.len(),
        cl[i2].rank != r,
        phase_sound(cl, r, i2, gph),
        phase_covers(cl, r, i2, gph),
    ensures
        phase_sound(cl, r, i2 + 1, gph),
        phase_covers(cl, r, i2 + 1, gph),
{
    assert forall|x: int| 0 <= x < gph.len() implies gathered_from(cl, r, i2 + 1, (
    #[trigger] gph[x])) by {
        assert(gathered_from(cl, r, i2, gph[x]));
        let j = choose|j: int|
            0 <= j < i2 && (#[trigger] cl[j]).rank == r && cl[j].target@ == gph[x].target
                && cl[j].rule@ == gph[x].rule;
        assert(0 <= j < i2 + 1 && cl[j].rank == r && cl[j].target@ == gph[x].target
            && cl[j].rule@ == gph[x].rule);
    }
    assert(phase_sound(cl, r, i2 + 1, gph));
    assert(phase_covers(cl, r, i2 + 1, gph));
}

/// Appending a finished phase for the next rank keeps the whole placement
/// sound, covering and duplicate-free.
#[verifier::rlimit(100)]
#[verifier::spinoff_prover]
proof fn lemma_phases_push(cl: Seq<Ranked>, gpm0: Seq<Seq<InvocationModel>>, gph: Seq<
    InvocationModel,
>)
    requires
        placement_sound(cl, gpm0),
        placement_covers(cl, gpm0),
        placement_distinct(gpm0),
        phase_sound(cl, gpm0.len() as int, cl.len() as int, gph),
        phase_covers(cl, gpm0.len() as int, cl.len() as int, gph),
        phase_distinct(gph),
    ensures
        placement_sound(cl, gpm0.push(gph)),
        placement_covers(cl, gpm0.push(gph)),
        placement_distinct(gpm0.push(gph)),
{
    let gpm = gpm0.push(gph);
    assert forall|r2: int, x: int|
        0 <= r2 < gpm.len() && 0 <= x < gpm[r2].len() implies gathered_from(
        cl,
        r2,
        cl.len() as int,
        (#[trigger] gpm[r2][x]),
    ) by {
        if r2 < gpm0.len() {
            assert(gpm[r2] == gpm0[r2]);
            assert(gpm[r2][x] == gpm0[r2][x]);
            assert(gathered_from(cl, r2, cl.len() as int, gpm0[r2][x]));
        } else {
            assert(gpm[r2] == gph);
            assert(gpm[r2][x] == gph[x]);
            assert(gathered_from(cl, r2, cl.len() as int, gph[x]));
        }
    }
    assert(placement_sound(cl, gpm));
    assert forall|j: int|
        0 <= j < cl.len() && (#[trigger] cl[j]).rank < gpm.len() implies phase_gathers(
        gpm[cl[j].rank as int],
        cl[j].target@,
    ) by {
        let rk = cl[j].rank as int;
        if rk < gpm0.len() {
            assert(gpm[rk] == gpm0[rk]);
            assert(phase_gathers(gpm0[rk], cl[j].target@));
        } else {
            assert(gpm[rk] == gph);
            assert(phase_gathers(gph, cl[j].target@));
        }
    }
    assert(placement_covers(cl, gpm));
    assert forall|r2: int, x1: int, x2: int|
        0 <= r2 < gpm.len() && 0 <= x1 < x2 < gpm[r2].len() implies (
        #[trigger] gpm[r2][x1]).target != (#[trigger] gpm[r2][x2]).target by {
        if r2 < gpm0.len() {
            assert(gpm[r2][x1] == gpm0[r2][x1]);
            assert(gpm[r2][x2] == gpm0[r2][x2]);
        } else {
            assert(gpm[r2][x1] == gph[x1]);
            assert(gpm[r2][x2] == gph[x2]);
        }
    }
    assert(placement_distinct(gpm));
}

/// Lays the closed, ranked targets out as phases: phase `r` holds exactly
/// the invocations of the targets whose rank is `r`.
#[verifier::rlimit(100)]
#[verifier::spinoff_prover]
fn build_phases(makefile: Makefile, closed: Vec<Ranked>, goal: &Target) -> (p: Plan)
    requires
        closed_wf(makefile@, closed@),
        closed_has(closed@, goal@),
        forall|i: int|
            0 <= i < closed@.len() ==> reaches(makefile@, goal@, (#[trigger] closed@[i]).target@),
    ensures
        p@.makefile == makefile@,
        plan_rules_resolved(p@),
        plan_deps_precede(p@),
        plan_targets_unique(p@),
        plan_within_goal(p@, goal@),
        plan_covers_goal(p@, goal@),
        plan_goal_last(p@, goal@),
        plan_phases_inhabited(p@),
{
    let ghost m = makefile@;
    let ghost cl = closed@;
    let ghost gj = choose|j: int| 0 <= j < cl.len() && cl[j].target@ == goal@;
    let n = closed.len();
    let mut maxr: usize = 0;
    let mut i: usize = 0;
    while i < n
        invariant
            i <= n,
            n == closed@.len(),
            cl == closed@,
            forall|k: int| 0 <= k < i ==> (#[trigger] cl[k]).rank <= maxr,
            i > 0 ==> exists|k: int| 0 <= k < i && (#[trigger] cl[k]).rank == maxr,
            i == 0 ==> maxr == 0,
        decreases n - i,
    {
        if closed[i].rank > maxr {
            maxr = closed[i].rank;
        }
        i = i + 1;
    }
    proof {
        lemma_goal_rank_max(m, cl, gj, goal@);
        assert(maxr == cl[gj].rank);
        assert(maxr < n);
    }
    let mut phases: Vec<Vec<Invocation>> = Vec::new();
    let ghost mut gpm: Seq<Seq<InvocationModel>> = Seq::empty();
    let mut r: usize = 0;
    while r <= maxr
        invariant
            r <= maxr + 1,
            maxr < n,
            n == closed@.len(),
            cl == closed@,
            closed_distinct(cl),
            phases@.len() == r,
            gpm.len() == r,
            forall|r2: int| 0 <= r2 < r ==> (#[trigger] gpm[r2]).len() == phases@[r2]@.len(),
            forall|r2: int, x: int|
                0 <= r2 < r && 0 <= x < gpm[r2].len() ==> #[trigger] gpm[r2][x] == phases@[r2]@[x]@,
            placement_sound(cl, gpm),
            placement_covers(cl, gpm),
            placement_distinct(gpm),
        decreases maxr + 1 - r,
    {
        let mut phase: Vec<Invocation> = Vec::new();
        let ghost mut gph: Seq<InvocationModel> = Seq::empty();
        let mut i2: usize = 0;
        while i2 < n
            invariant
                i2 <= n,
                n == closed@.len(),
                cl == closed@,
                closed_distinct(cl),
                gph.len() == phase@.len(),
                forall|x: int| 0 <= x < gph.len() ==> #[trigger] gph[x] == phase@[x]@,
                phase_sound(cl, r as int, i2 as int, gph),
                phase_covers(cl, r as int, i2 as int, gph),
                phase_distinct(gph),
            decreases n - i2,
        {
            if closed[i2].rank == r {
                let inv = Invocation {
                    rule: closed[i2].rule.clone(),
                    target: closed[i2].target.clone(),
                };
                proof {
                    let gph0 = gph;
                    gph = gph.push(inv@);
                    assert(inv@.target == cl[i2 as int].target@);
                    assert(inv@.rule == cl[i2 as int].rule@);
                    lemma_phase_push(cl, gph0, inv@, r as int, i2 as int);
                }
                phase.push(inv);
            } else {
                proof {
                    lemma_phase_skip(cl, gph, r as int, i2 as int);
                }
            }
            i2 = i2 + 1;
        }
        phases.push(phase);
        proof {
            let gpm0 = gpm;
            gpm = gpm.push(gph);
            lemma_phases_push(cl, gpm0, gph);
        }
        r = r + 1;
    }
    let p = Plan { makefile, phases };
    proof {
        lemma_phases_view(p.phases@, gpm);
        assert(p@ == (PlanModel { makefile: m, phases: gpm }));
        lemma_plan_sound(m, cl, gpm, goal@);
        lemma_plan_precede(m, cl, gpm);
        lemma_plan_cover(m, cl, gpm, goal@, gj, maxr as int);
    }
    p
}

/// Closing a target whose dependencies are all closed strictly below its
/// rank preserves the closed-list invariant.
#[verifier::rlimit(100)]
#[verifier::spinoff_prover]
proof fn lemma_closed_push(m: Seq<RuleModel>, cl: Seq<Ranked>, e: Ranked)
    requires
        closed_wf(m, cl),
        !closed_has(cl, e.target@),
        first_rule_for(m, e.target@) == Some(e.rule@),
        e.rank <= cl.len(),
        forall|d: int|
            0 <= d < e.rule@.deps.len() ==> closed_below(
                cl,
                (#[trigger] e.rule@.deps[d]),
                e.rank as int,
            ),
        e.rank > 0 ==> rank_present(cl, e.rank - 1),
    ensures
        closed_wf(m, cl.push(e)),
{
    let cl2 = cl.push(e);
    assert forall|i: int| 0 <= i < cl2.len() implies (#[trigger] cl2[i]).rank <= i
        && first_rule_for(m, cl2[i].target@) == Some(cl2[i].rule@) by {
        if i < cl.len() {
            assert(cl2[i] == cl[i]);
        } else {
            assert(cl2[i] == e);
        }
    }
    assert forall|i: int, d: int|
        0 <= i < cl2.len() && 0 <= d < cl2[i].rule@.deps.len() implies closed_below(
        cl2,
        (#[trigger] cl2[i].rule@.deps[d]),
        cl2[i].rank as int,
    ) by {
        let dep = cl2[i].rule@.deps[d];
        if i < cl.len() {
            assert(cl2[i] == cl[i]);
            assert(closed_below(cl, cl[i].rule@.deps[d], cl[i].rank as int));
            let j = choose|j: int|
                0 <= j < cl.len() && cl[j].target@ == cl[i].rule@.deps[d] && cl[j].rank
                    < cl[i].rank;
            assert(cl2[j] == cl[j]);
            assert(0 <= j < cl2.len() && cl2[j].target@ == dep && cl2[j].rank < cl2[i].rank);
        } else {
            assert(cl2[i] == e);
            assert(closed_below(cl, e.rule@.deps[d], e.rank as int));
            let j = choose|j: int|
                0 <= j < cl.len() && cl[j].target@ == e.rule@.deps[d] && cl[j].rank < e.rank;
            assert(cl2[j] == cl[j]);
            assert(0 <= j < cl2.len() && cl2[j].target@ == dep && cl2[j].rank < cl2[i].rank);
        }
    }
    assert forall|i: int|
        0 <= i < cl2.len() && (#[trigger] cl2[i]).rank > 0 implies rank_present(
        cl2,
        cl2[i].rank - 1,
    ) by {
        let rk = cl2[i].rank;
        if i < cl.len() {
            assert(cl2[i] == cl[i]);
            assert(rank_present(cl, rk - 1));
        } else {
            assert(cl2[i] == e);
            assert(rank_present(cl, rk - 1));
        }
        let j = choose|j: int| 0 <= j < cl.len() && (#[trigger] cl[j]).rank == rk - 1;
        assert(cl2[j] == cl[j]);
        assert(0 <= j < cl2.len() && cl2[j].rank == rk - 1);
    }
    assert forall|i: int, j: int| 0 <= i < j < cl2.len() implies cl2[i].target@
        != cl2[j].target@ by {
        assert(cl2[i] == cl[i]);
        if j < cl.len() {
            assert(cl2[j] == cl[j]);
        } else {
            assert(cl2[j] == e);
            if cl[i].target@ == e.target@ {
                assert(closed_has(cl, e.target@));
            }
        }
    }
    assert(closed_distinct(cl2));
    assert(closed_wf(m, cl2));
}

/// Distinct closed targets, each with a rule, are no more numerous than
/// the rules.
proof fn lemma_closed_card(m: Seq<RuleModel>, cl: Seq<Ranked>)
    requires
        closed_wf(m, cl),
    ensures
        cl.len() <= m.len(),
{
    let ts = cl.map_values(|e: Ranked| e.target@);
    assert forall|i: int, j: int| 0 <= i < j < ts.len() implies ts[i] != ts[j] by {}
    assert(ts.no_duplicates());
    assert forall|i: int| 0 <= i < ts.len() implies has_rule(m, #[trigger] ts[i]) by {}
    lemma_distinct_resolvable_bound(m, ts);
}

/// Distinct path targets, each with a rule, are no more numerous than the
/// rules.
proof fn lemma_path_card(m: Seq<RuleModel>, pa: Seq<Frame>)
    requires
        forall|i: int|
            0 <= i < pa.len() ==> first_rule_for(m, (#[trigger] pa[i]).target@) == Some(
                pa[i].rule@,
            ),
        forall|i: int, j: int| 0 <= i < j < pa.len() ==> pa[i].target@ != pa[j].target@,
    ensures
        pa.len() <= m.len(),
{
    let ts = pa.map_values(|f: Frame| f.target@);
    assert forall|i: int, j: int| 0 <= i < j < ts.len() implies ts[i] != ts[j] by {}
    assert(ts.no_duplicates());
    assert forall|i: int| 0 <= i < ts.len() implies has_rule(m, #[trigger] ts[i]) by {}
    lemma_distinct_resolvable_bound(m, ts);
}

/// Accounting for one more dependency of the top frame (closed strictly
/// below the frame's possibly raised rank) keeps every accounted dependency
/// of every frame closed below its frame's rank.
#[verifier::rlimit(100)]
#[verifier::spinoff_prover]
proof fn lemma_path_deps_below(cl: Seq<Ranked>, pa0: Seq<Frame>, pa1: Seq<Frame>)
    requires
        pa0.len() > 0,
        pa1.len() == pa0.len(),
        forall|i: int| 0 <= i < pa0.len() - 1 ==> #[trigger] pa1[i] == pa0[i],
        forall|i: int, d: int|
            0 <= i < pa0.len() && 0 <= d < pa0[i].next_dep ==> closed_below(
                cl,
                (#[trigger] pa0[i].rule@.deps[d]),
                pa0[i].rank as int,
            ),
        pa1[pa1.len() - 1].rule == pa0[pa0.len() - 1].rule,
        pa1[pa1.len() - 1].next_dep == pa0[pa0.len() - 1].next_dep + 1,
        pa0[pa0.len() - 1].next_dep < pa0[pa0.len() - 1].rule@.deps.len(),
        pa1[pa1.len() - 1].rank >= pa0[pa0.len() - 1].rank,
        closed_below(
            cl,
            pa0[pa0.len() - 1].rule@.deps[pa0[pa0.len() - 1].next_dep as int],
            pa1[pa1.len() - 1].rank as int,
        ),
    ensures
        forall|i: int, d: int|
            0 <= i < pa1.len() && 0 <= d < pa1[i].next_dep ==> closed_below(
                cl,
                (#[trigger] pa1[i].rule@.deps[d]),
                pa1[i].rank as int,
            ),
{
    assert forall|i: int, d: int|
        0 <= i < pa1.len() && 0 <= d < pa1[i].next_dep implies closed_below(
        cl,
        (#[trigger] pa1[i].rule@.deps[d]),
        pa1[i].rank as int,
    ) by {
        if i < pa1.len() - 1 {
            assert(pa1[i] == pa0[i]);
            assert(closed_below(cl, pa0[i].rule@.deps[d], pa0[i].rank as int));
        } else {
            if d < pa0[i].next_dep {
                assert(closed_below(cl, pa0[i].rule@.deps[d], pa0[i].rank as int));
                let j = choose|j: int|
                    0 <= j < cl.len() && cl[j].target@ == pa0[i].rule@.deps[d] && cl[j].rank
                        < pa0[i].rank;
                assert(0 <= j < cl.len() && cl[j].target@ == pa1[i].rule@.deps[d] && cl[j].rank
                    < pa1[i].rank);
            } else {
                assert(pa1[i].rule@.deps[d] == pa0[i].rule@.deps[pa0[i].next_dep as int]);
                let j = choose|j: int|
                    0 <= j < cl.len() && cl[j].target@ == pa0[i].rule@.deps[pa0[i].next_dep as int]
                        && cl[j].rank < pa1[pa1.len() - 1].rank;
                assert(0 <= j < cl.len() && cl[j].target@ == pa1[i].rule@.deps[d] && cl[j].rank
                    < pa1[i].rank);
            }
        }
    }
}

/// Closing a target that is on none of the remaining frames keeps every
/// remaining frame unclosed, and keeps each frame's accounted dependencies
/// closed below its rank and its positive rank witnessed one level down.
#[verifier::rlimit(100)]
#[verifier::spinoff_prover]
proof fn lemma_path_not_closed_push(cl: Seq<Ranked>, e: Ranked, pa: Seq<Frame>)
    requires
        forall|i: int| 0 <= i < pa.len() ==> !closed_has(cl, (#[trigger] pa[i]).target@),
        forall|i: int| 0 <= i < pa.len() ==> (#[trigger] pa[i]).target@ != e.target@,
        forall|i: int, d: int|
            0 <= i < pa.len() && 0 <= d < pa[i].next_dep ==> closed_below(
                cl,
                (#[trigger] pa[i].rule@.deps[d]),
                pa[i].rank as int,
            ),
        forall|i: int|
            0 <= i < pa.len() && (#[trigger] pa[i]).rank > 0 ==> rank_present(
                cl,
                pa[i].rank - 1,
            ),
    ensures
        forall|i: int| 0 <= i < pa.len() ==> !closed_has(cl.push(e), (#[trigger] pa[i]).target@),
        forall|i: int, d: int|
            0 <= i < pa.len() && 0 <= d < pa[i].next_dep ==> closed_below(
                cl.push(e),
                (#[trigger] pa[i].rule@.deps[d]),
                pa[i].rank as int,
            ),
        forall|i: int|
            0 <= i < pa.len() && (#[trigger] pa[i]).rank > 0 ==> rank_present(
                cl.push(e),
                pa[i].rank - 1,
            ),
{
    let cl2 = cl.push(e);
    assert forall|i: int| 0 <= i < pa.len() implies !closed_has(cl2, (
    #[trigger] pa[i]).target@) by {
        if closed_has(cl2, pa[i].target@) {
            let j = choose|j: int| 0 <= j < cl2.len() && cl2[j].target@ == pa[i].target@;
            if j < cl.len() {
                assert(cl2[j] == cl[j]);
                assert(closed_has(cl, pa[i].target@));
                assert(false);
            } else {
                assert(cl2[j] == e);
                assert(false);
            }
        }
    }
    assert forall|i: int, d: int|
        0 <= i < pa.len() && 0 <= d < pa[i].next_dep implies closed_below(
        cl2,
        (#[trigger] pa[i].rule@.deps[d]),
        pa[i].rank as int,
    ) by {
        assert(closed_below(cl, pa[i].rule@.deps[d], pa[i].rank as int));
        let j = choose|j: int|
            0 <= j < cl.len() && cl[j].target@ == pa[i].rule@.deps[d] && cl[j].rank
                < pa[i].rank;
        assert(cl2[j] == cl[j]);
        assert(0 <= j < cl2.len() && cl2[j].target@ == pa[i].rule@.deps[d] && cl2[j].rank
            < pa[i].rank);
    }
    assert forall|i: int|
        0 <= i < pa.len() && (#[trigger] pa[i]).rank > 0 implies rank_present(
        cl2,
        pa[i].rank - 1,
    ) by {
        assert(rank_present(cl, pa[i].rank - 1));
        let j = choose|j: int| 0 <= j < cl.len() && (#[trigger] cl[j]).rank == pa[i].rank - 1;
        assert(cl2[j] == cl[j]);
        assert(0 <= j < cl2.len() && cl2[j].rank == pa[i].rank - 1);
    }
}

/// Consecutive frames of the depth-first path are linked by dependency
/// edges, so any lower frame reaches any higher one in as many steps.
proof fn lemma_path_chain(m: Seq<RuleModel>, pa: Seq<Frame>, i: int, j: int)
    requires
        forall|k: int|
            0 <= k < pa.len() ==> first_rule_for(m, (#[trigger] pa[k]).target@) == Some(
                pa[k].rule@,
            ),
        forall|k: int|
            0 <= k < pa.len() - 1 ==> (#[trigger] pa[k]).next_dep < pa[k].rule@.deps.len()
                && pa[k + 1].target@ == pa[k].rule@.deps[pa[k].next_dep as int],
        0 <= i <= j < pa.len(),
    ensures
        dep_path(m, pa[i].target@, pa[j].target@, (j - i) as nat),
    decreases j - i,
{
    if i < j {
        lemma_path_chain(m, pa, i, j - 1);
        assert(rule_of(m, pa[j - 1].target@) == pa[j - 1].rule@);
        assert(dep_path(m, pa[j].target@, pa[j].target@, 0));
        assert(dep_path(m, pa[j - 1].rule@.deps[pa[j - 1].next_dep as int], pa[j].target@, 0));
        assert(dep_path(m, pa[j - 1].target@, pa[j].target@, 1));
        lemma_dep_path_trans(
            m,
            pa[i].target@,
            pa[j - 1].target@,
            pa[j].target@,
            (j - 1 - i) as nat,
            1,
        );
    }
}

/// Plans the execution of a makefile to build a target: resolves the
/// transitive dependencies of the goal depth first, assigns every required
/// target the length of the longest dependency chain beneath it as its
/// rank, and lays the ranks out as phases, dependencies always strictly
/// before their dependents and the goal alone at the top. Fails with
/// `UnknownTarget` when the goal or a transitively required dependency has
/// no rule, and with `CyclicDependency` when a required target is found to
/// depend on itself while it is still being resolved.
#[verifier::rlimit(100)]
#[verifier::spinoff_prover]
pub fn plan_execution(makefile: Makefile, target: &Target) -> (r: Result<Plan, PlanError>)
    ensures
        r is Ok ==> ({
            let p = r->Ok_0;
            p@.makefile == makefile@ && plan_rules_resolved(p@) && plan_deps_precede(p@)
                && plan_targets_unique(p@) && plan_within_goal(p@, target@) && plan_covers_goal(
                p@,
                target@,
            ) && plan_goal_last(p@, target@) && plan_phases_inhabited(p@)
        }),
        forall|t: Target|
            r == Err::<Plan, PlanError>(PlanError::UnknownTarget(t)) ==> reaches(
                makefile@,
                target@,
                t@,
            ) && !has_rule(makefile@, t@),
        forall|t: Target|
            r == Err::<Plan, PlanError>(PlanError::CyclicDependency(t)) ==> reaches(
                makefile@,
                target@,
                t@,
            ) && (exists|n: nat| n >= 1 && dep_path(makefile@, t@, t@, n)),
        targets_resolvable(makefile@, target@) && cycle_free(makefile@, target@) ==> r is Ok,
{
    let ghost m = makefile@;
    let ghost g = target@;
    proof {
        assert(dep_path(m, g, g, 0));
        assert(reaches(m, g, g));
    }
    let rule0 = match find_rule_opt(&makefile, target) {
        Some(rule) => rule,
        None => {
            proof {
                assert(!has_rule(makefile@, target@));
                assert(!targets_resolvable(makefile@, target@));
            }
            return Err(PlanError::UnknownTarget(target.clone()));
        },
    };
    let mut closed: Vec<Ranked> = Vec::new();
    let mut path: Vec<Frame> = Vec::new();
    path.push(Frame { target: target.clone(), rule: rule0, next_dep: 0, rank: 0 });
    while path.len() > 0
        invariant
            m == makefile@,
            g == target@,
            closed_wf(m, closed@),
            forall|i: int|
                0 <= i < path@.len() ==> first_rule_for(m, (#[trigger] path@[i]).target@)
                    == Some(path@[i].rule@),
            forall|i: int|
                0 <= i < path@.len() ==> (#[trigger] path@[i]).next_dep
                    <= path@[i].rule@.deps.len(),
            forall|i: int|
                0 <= i < path@.len() - 1 ==> (#[trigger] path@[i]).next_dep
                    < path@[i].rule@.deps.len() && path@[i + 1].target@
                    == path@[i].rule@.deps[path@[i].next_dep as int],
            forall|i: int, j: int|
                0 <= i < j < path@.len() ==> path@[i].target@ != path@[j].target@,
            forall|i: int| 0 <= i < path@.len() ==> !closed_has(closed@, (#[trigger] path@[i]).target@),
            forall|i: int, d: int|
                0 <= i < path@.len() && 0 <= d < path@[i].next_dep ==> closed_below(
                    closed@,
                    (#[trigger] path@[i].rule@.deps[d]),
                    path@[i].rank as int,
                ),
            forall|i: int|
                0 <= i < path@.len() && (#[trigger] path@[i]).rank > 0 ==> rank_present(
                    closed@,
                    path@[i].rank - 1,
                ),
            forall|i: int| 0 <= i < path@.len() ==> (#[trigger] path@[i]).rank <= closed@.len(),
            forall|i: int|
                0 <= i < closed@.len() ==> reaches(m, g, (#[trigger] closed@[i]).target@),
            forall|i: int| 0 <= i < path@.len() ==> reaches(m, g, (#[trigger] path@[i]).target@),
            path@.len() > 0 ==> path@[0].target@ == g,
            path@.len() == 0 ==> closed_has(closed@, g),
            closed@.len() <= m.len(),
            path@.len() <= m.len(),
        decreases
                m.len() + 1 - closed@.len(),
                m.len() + 1 - path@.len(),
                (if path@.len() > 0 {
                    path@.last().rule@.deps.len() - path@.last().next_dep
                } else {
                    0int
                }),
    {
        let ghost pa0 = path@;
        let mut f = match path.pop() {
            Some(fr) => fr,
            None => {
                proof {
                    assert(false);
                }
                vstd::pervasive::unreached()
            },
        };
        proof {
            assert(pa0[pa0.len() - 1] == f);
            assert(path@ == pa0.drop_last());
            assert forall|i: int| 0 <= i < path@.len() implies #[trigger] path@[i]
                == pa0[i] by {}
        }
        if f.next_dep < f.rule.dependencies.len() {
            let dep = f.rule.dependencies[f.next_dep].clone();
            proof {
                assert(dep@ == f.rule@.deps[f.next_dep as int]);
                assert(rule_of(m, f.target@) == f.rule@);
                assert(rule_of(m, f.target@).deps.contains(dep@));
                lemma_reaches_extend(m, g, f.target@, dep@);
            }
            match closed_rank_of(&closed, &dep) {
                Some(rk) => {
                    let ncl = closed.len();
                    proof {
                        let j = choose|j: int|
                            0 <= j < closed@.len() && (#[trigger] closed@[j]).target@ == dep@
                                && closed@[j].rank == rk;
                        assert(closed@[j].rank <= j);
                        assert(rk < ncl);
                    }
                    if rk + 1 > f.rank {
                        f.rank = rk + 1;
                        proof {
                            assert(rank_present(closed@, rk as int));
                        }
                    }
                    f.next_dep = f.next_dep + 1;
                    path.push(f);
                    proof {
                        assert forall|i: int| 0 <= i < pa0.len() - 1 implies #[trigger] path@[i]
                            == pa0[i] by {}
                        assert(path@[path@.len() - 1] == f);
                        assert(closed_below(closed@, dep@, f.rank as int));
                        lemma_path_deps_below(closed@, pa0, path@);
                    }
                },
                None => {
                    let self_loop = dep.eq(&f.target);
                    if self_loop || on_path(&path, &dep) {
                        proof {
                            assert(dep_path(m, dep@, dep@, 0));
                            assert(dep_path(m, f.target@, dep@, 1));
                            if dep@ == f.target@ {
                                assert(1nat >= 1 && dep_path(m, dep@, dep@, 1nat));
                            } else {
                                let i = choose|i: int|
                                    0 <= i < path@.len() && (#[trigger] path@[i]).target@ == dep@;
                                assert(path@[i] == pa0[i]);
                                lemma_path_chain(m, pa0, i, pa0.len() - 1);
                                lemma_dep_path_trans(
                                    m,
                                    dep@,
                                    f.target@,
                                    dep@,
                                    (pa0.len() - 1 - i) as nat,
                                    1,
                                );
                                let w = ((pa0.len() - 1 - i) + 1) as nat;
                                assert(w >= 1 && dep_path(m, dep@, dep@, w));
                            }
                            assert(reaches(makefile@, target@, dep@));
                            assert(exists|n: nat| n >= 1 && dep_path(makefile@, dep@, dep@, n));
                            assert(!cycle_free(makefile@, target@));
                        }
                        return Err(PlanError::CyclicDependency(dep));
                    }
                    match find_rule_opt(&makefile, &dep) {
                        None => {
                            proof {
                                assert(reaches(makefile@, target@, dep@));
                                assert(!has_rule(makefile@, dep@));
                                assert(!targets_resolvable(makefile@, target@));
                            }
                            return Err(PlanError::UnknownTarget(dep));
                        },
                        Some(rule) => {
                            path.push(f);
                            path.push(Frame { target: dep, rule, next_dep: 0, rank: 0 });
                            proof {
                                assert forall|i: int| 0 <= i < path@.len() - 2 implies
                                    #[trigger] path@[i] == pa0[i] by {}
                                assert(path@[path@.len() - 2] == f);
                                lemma_path_card(m, path@);
                            }
                        },
                    }
                },
            }
        } else {
            proof {
                let e = Ranked { target: f.target, rank: f.rank, rule: f.rule };
                lemma_closed_push(m, closed@, e);
            }
            let ghost cl0 = closed@;
            closed.push(Ranked { target: f.target, rank: f.rank, rule: f.rule });
            proof {
                let e = Ranked { target: f.target, rank: f.rank, rule: f.rule };
                assert(closed@ == cl0.push(e));
                assert forall|i: int| 0 <= i < path@.len() implies (#[trigger] path@[i]).target@
                    != e.target@ by {
                    assert(path@[i] == pa0[i]);
                    assert(pa0[i].target@ != pa0[pa0.len() - 1].target@);
                }
                lemma_path_not_closed_push(cl0, e, path@);
                lemma_closed_card(m, closed@);
                if path@.len() == 0 {
                    assert(pa0.len() == 1);
                    assert(e.target@ == g);
                    assert(closed@[closed@.len() - 1].target@ == g);
                    assert(closed_has(closed@, g));
                }
            }
        }
    }
    proof {
        assert(closed_has(closed@, g));
    }
    Ok(build_phases(makefile, closed, target))
}

/// Finds the rule matching a target: the first rule of the makefile whose
/// target equals the query. The target must have a rule.
pub fn find_rule(makefile: &Makefile, target: &Target) -> (r: Rule)
    requires
        has_rule(makefile@, target@),
    ensures
        Some(r@) == first_rule_for(makefile@, target@),
{
    match find_rule_opt(makefile, target) {
        Some(rule) => rule,
        None => {
            proof {
                assert(false);
            }
            vstd::pervasive::unreached()
        },
    }
}

/// `s` with every occurrence of the two-character token `p0 p1` replaced by
/// `r`, scanning left to right without overlap.
pub open spec fn replaced2(s: Seq<char>, p0: char, p1: char, r: Seq<char>) -> Seq<char>
    decreases s.len(),
{
    if s.len() < 2 {
        s
    } else if s[0] == p0 && s[1] == p1 {
        r + replaced2(s.skip(2), p0, p1, r)
    } else {
        seq![s[0]] + replaced2(s.skip(1), p0, p1, r)
    }
}

/// Dependency names joined with single spaces, in declaration order.
pub open spec fn joined(deps: Seq<Seq<char>>) -> Seq<char>
    decreases deps.len(),
{
    if deps.len() == 0 {
        Seq::empty()
    } else if deps.len() == 1 {
        deps[0]
    } else {
        joined(deps.drop_last()) + seq![' '] + deps.last()
    }
}

/// A command's text as the executor runs it: `$@` replaced by the target
/// name, then `$<` by the space-joined dependency names.
pub open spec fn substituted(cmd: Seq<char>, target: Seq<char>, deps: Seq<Seq<char>>) -> Seq<
    char,
> {
    replaced2(replaced2(cmd, '$', '@', target), '$', '<', joined(deps))
}

/// `s` with every `p0 p1` pair replaced by `r`, left to right.
#[verifier::loop_isolation(false)]
fn replace_pair(s: &str, p0: char, p1: char, r: &str) -> (out: String)
    ensures
        out@ == replaced2(s@, p0, p1, r@),
{
    let n = s.unicode_len();
    let mut out = String::new();
    let mut i: usize = 0;
    proof {
        assert(s@.skip(0) =~= s@);
        assert(out@ + replaced2(s@, p0, p1, r@) =~= replaced2(s@, p0, p1, r@));
    }
    while i < n
        invariant
            i <= n,
            out@ + replaced2(s@.skip(i as int), p0, p1, r@) == replaced2(s@, p0, p1, r@),
        decreases n - i,
    {
        let ghost rest = s@.skip(i as int);
        if i + 1 < n && s.get_char(i) == p0 && s.get_char(i + 1) == p1 {
            out.append(r);
            proof {
                assert(rest[0] == s@[i as int]);
                assert(rest[1] == s@[i + 1]);
                assert(rest.skip(2) =~= s@.skip(i + 2));
                assert(replaced2(rest, p0, p1, r@) == r@ + replaced2(
                    s@.skip(i + 2),
                    p0,
                    p1,
                    r@,
                ));
                assert(out@ + replaced2(s@.skip(i + 2), p0, p1, r@) =~= replaced2(
                    s@,
                    p0,
                    p1,
                    r@,
                ));
            }
            i = i + 2;
        } else {
            let piece = s.substring_char(i, i + 1);
            out.append(piece);
            proof {
                assert(rest[0] == s@[i as int]);
                assert(rest.skip(1) =~= s@.skip(i + 1));
                if rest.len() >= 2 {
                    assert(rest[1] == s@[i + 1]);
                    assert(replaced2(rest, p0, p1, r@) == seq![rest[0]] + replaced2(
                        rest.skip(1),
                        p0,
                        p1,
                        r@,
                    ));
                } else {
                    assert(replaced2(rest, p0, p1, r@) == rest);
                    assert(replaced2(rest.skip(1), p0, p1, r@) =~= Seq::<char>::empty());
                    assert(rest =~= seq![rest[0]] + rest.skip(1));
                }
                assert(piece@ =~= seq![rest[0]]);
                assert(out@ + replaced2(s@.skip(i + 1), p0, p1, r@) =~= replaced2(
                    s@,
                    p0,
                    p1,
                    r@,
                ));
            }
            i = i + 1;
        }
    }
    proof {
        assert(s@.skip(n as int) =~= Seq::<char>::empty());
        assert(out@ =~= out@ + replaced2(s@.skip(n as int), p0, p1, r@));
    }
    out
}

/// The dependency names joined with single spaces.
#[verifier::loop_isolation(false)]
fn join_names(deps: &Vec<Target>) -> (out: String)
    ensures
        out@ == joined(names_of(deps@)),
{
    let ghost ds = names_of(deps@);
    let mut out = String::new();
    let mut i: usize = 0;
    while i < deps.len()
        invariant
            i <= deps@.len(),
            out@ == joined(ds.take(i as int)),
        decreases deps@.len() - i,
    {
        if i > 0 {
            out.append(" ");
        }
        out.append(deps[i].name().as_str());
        proof {
            reveal_strlit(" ");
            assert(ds.take(i + 1).drop_last() =~= ds.take(i as int));
            assert(ds.take(i + 1).last() == ds[i as int]);
            assert(ds[i as int] == deps@[i as int]@);
            if i == 0 {
                assert(ds.take(1).len() == 1);
                assert(joined(ds.take(1)) == ds.take(1)[0]);
                assert(out@ =~= joined(ds.take(1)));
            } else {
                assert(joined(ds.take(i + 1)) == joined(ds.take(i as int)) + seq![' ']
                    + ds[i as int]);
                assert(out@ =~= joined(ds.take(i + 1)));
            }
        }
        i = i + 1;
    }
    proof {
        assert(ds.take(deps@.len() as int) =~= ds);
    }
    out
}

/// The shell command the executor runs for one command of an invocation:
/// its text with `$@` replaced by the target's name and `$<` by the
/// space-joined dependency names of the rule, duplicates included.
pub fn substitute_command(cmd: &Command, target: &Target, deps: &Vec<Target>) -> (r: String)
    ensures
        r@ == substituted(cmd@, target@, names_of(deps@)),
{
    let pass1 = replace_pair(cmd.text().as_str(), '$', '@', target.name().as_str());
    let joined_deps = join_names(deps);
    replace_pair(pass1.as_str(), '$', '<', joined_deps.as_str())
}

} // verus!} // verus!
