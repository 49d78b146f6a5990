//! Constrained assignment maximization.
//!
//! `ScoreOptimizer` assigns one arbiter and one team to each of
//! `num_teams / 2` match slots so that the summed preference score is as
//! large as possible, while no arbiter or team serves twice and no team is
//! paired with an arbiter it refuses. The search is exhaustive backtracking
//! over the match slots in fixed arbiter-then-team order.

use core::marker::PhantomData;

use vstd::prelude::*;

use super::{Pendent, Ready, Report};
use crate::decimal::{dec_digits, isize_to_string};

verus! {

/// The reserved preference value that marks "this team refuses this
/// arbiter": the most negative representable integer.
pub open spec fn refusal() -> int {
    isize::MIN as int
}

/// Every preference entry that is not a refusal lies within `[-k, k]`.
/// Refusal sentinels never enter a score, so no bound is asked of them.
pub open spec fn bounded_by(prefs: Seq<Vec<isize>>, k: int) -> bool {
    forall|t: int, a: int|
        0 <= t < prefs.len() && 0 <= a < prefs[t]@.len() && #[trigger] prefs[t]@[a] != refusal()
            ==> -k <= prefs[t]@[a] <= k
}

/// Slot `i` of the flat assignment `s` names a real arbiter and a real team
/// that does not refuse it. Even positions hold arbiters, odd positions
/// teams.
pub open spec fn slot_ok(prefs: Seq<Vec<isize>>, teams: int, arbiters: int, s: Seq<usize>, i: int) -> bool {
    s[2 * i] < arbiters && s[2 * i + 1] < teams && prefs[s[2 * i + 1] as int]@[s[2 * i] as int]
        != refusal()
}

/// Two distinct slots share neither their arbiter nor their team.
pub open spec fn no_reuse(s: Seq<usize>, i: int, j: int) -> bool {
    s[2 * i] != s[2 * j] && s[2 * i + 1] != s[2 * j + 1]
}

/// The first `m` slots of `s` form a valid partial assignment.
pub open spec fn valid_prefix(
    prefs: Seq<Vec<isize>>,
    teams: int,
    arbiters: int,
    s: Seq<usize>,
    m: int,
) -> bool {
    (forall|i: int| 0 <= i < m ==> #[trigger] slot_ok(prefs, teams, arbiters, s, i)) && (forall|
        i: int,
        j: int,
    |
        0 <= i < j < m ==> #[trigger] no_reuse(s, i, j))
}

/// The summed preference score of the first `m` slots of `s`.
pub open spec fn prefix_score(prefs: Seq<Vec<isize>>, s: Seq<usize>, m: int) -> int
    decreases m,
{
    if m <= 0 {
        0
    } else {
        prefix_score(prefs, s, m - 1) + prefs[s[2 * (m - 1) + 1] as int]@[s[2 * (m - 1)] as int]
    }
}

/// A bounded preference table keeps every partial score within `m * k`.
proof fn lemma_prefix_score_bound(
    prefs: Seq<Vec<isize>>,
    teams: int,
    arbiters: int,
    s: Seq<usize>,
    m: int,
    k: int,
)
    requires
        0 <= m,
        0 <= k,
        prefs.len() == teams,
        forall|t: int| 0 <= t < prefs.len() ==> (#[trigger] prefs[t])@.len() == arbiters,
        bounded_by(prefs, k),
        valid_prefix(prefs, teams, arbiters, s, m),
    ensures
        -(m * k) <= prefix_score(prefs, s, m) <= m * k,
    decreases m,
{
    if m > 0 {
        assert(forall|i: int| 0 <= i < m - 1 ==> #[trigger] slot_ok(prefs, teams, arbiters, s, i));
        lemma_prefix_score_bound(prefs, teams, arbiters, s, m - 1, k);
        assert(slot_ok(prefs, teams, arbiters, s, m - 1));
        let e = prefs[s[2 * (m - 1) + 1] as int]@[s[2 * (m - 1)] as int];
        assert(-k <= e <= k);
        assert((m - 1) * k + k == m * k) by (nonlinear_arith);
        assert(-(m * k) == -((m - 1) * k) - k) by (nonlinear_arith);
    }
}

/// The well-formedness of a recorded search result: the score still at its
/// sentinel means nothing was recorded and the assignment is still
/// zero-filled; otherwise the assignment is a valid complete one attaining
/// exactly the recorded score.
pub open spec fn score_wf(
    assigned: Seq<usize>,
    score: int,
    prefs: Seq<Vec<isize>>,
    teams: int,
    arbiters: int,
) -> bool {
    if score == isize::MIN {
        forall|i: int| 0 <= i < assigned.len() ==> assigned[i] == 0
    } else {
        assigned.len() == teams && valid_prefix(prefs, teams, arbiters, assigned, teams / 2)
            && prefix_score(prefs, assigned, teams / 2) == score
    }
}

/// The arbiter-to-match assignment optimizer, in phase `State`.
///
/// A `Pendent` optimizer is produced only by [`ScoreOptimizer::build`],
/// which validates the preference table; the `Ready` phase is produced only
/// by [`ScoreOptimizer::find_optimal_assigment`].
#[derive(Debug)]
pub struct ScoreOptimizer<State = Pendent> {
    max_assigned: Vec<usize>,
    max_score: isize,
    num_teams: usize,
    num_arbiters: usize,
    preferences: Vec<Vec<isize>>,
    _marker: PhantomData<State>,
}

impl<State> ScoreOptimizer<State> {
    /// The preference table.
    pub closed spec fn spec_preferences(&self) -> Seq<Vec<isize>> {
        self.preferences@
    }

    /// The number of teams.
    pub closed spec fn spec_num_teams(&self) -> usize {
        self.num_teams
    }

    /// The number of arbiters.
    pub closed spec fn spec_num_arbiters(&self) -> usize {
        self.num_arbiters
    }

    /// The recorded best assignment.
    pub closed spec fn spec_max_assigned(&self) -> Seq<usize> {
        self.max_assigned@
    }

    /// The recorded best score, `isize::MIN` while none was found.
    pub closed spec fn spec_max_score(&self) -> isize {
        self.max_score
    }

    /// The configuration invariant `build` establishes: an even, positive
    /// team count, a rectangular table, and an arbiter for every match.
    pub open spec fn config_wf(&self) -> bool {
        &&& self.spec_num_teams() == self.spec_preferences().len()
        &&& self.spec_num_teams() % 2 == 0
        &&& self.spec_num_teams() >= 1
        &&& forall|t: int|
            0 <= t < self.spec_preferences().len() ==> (#[trigger] self.spec_preferences()[t])@.len()
                == self.spec_num_arbiters()
        &&& self.spec_num_teams() / 2 <= self.spec_num_arbiters()
    }
}

impl ScoreOptimizer<Ready> {
    /// The best total score the search recorded, `isize::MIN` when no valid
    /// assignment exists.
    pub fn max_score(&self) -> (r: isize)
        ensures
            r == self.spec_max_score(),
    {
        self.max_score
    }

    /// The best assignment the search recorded, zero-filled when no valid
    /// assignment exists.
    pub fn max_assigned(&self) -> (r: &Vec<usize>)
        ensures
            r@ == self.spec_max_assigned(),
    {
        &self.max_assigned
    }
}

/// Copies a working assignment so a snapshot of it can be recorded.
fn clone_assignment(v: &Vec<usize>) -> (r: Vec<usize>)
    ensures
        r@ == v@,
{
    let mut r: Vec<usize> = Vec::new();
    let mut i: usize = 0;
    while i < v.len()
        invariant
            i <= v@.len(),
            r@ == v@.take(i as int),
        decreases v@.len() - i,
    {
        r.push(v[i]);
        proof {
            assert(r@ =~= v@.take(i + 1));
        }
        i += 1;
    }
    proof {
        assert(v@.take(v@.len() as int) =~= v@);
    }
    r
}

impl ScoreOptimizer {
    /// Validates a preference table and creates a pendent optimizer.
    ///
    /// Fails exactly when the team count is odd, when the rows are not all
    /// the same length, or when fewer arbiters exist than match slots, in
    /// that order of precedence.
    pub fn build(preferences: Vec<Vec<isize>>) -> (r: Result<Self, &'static str>)
        requires
            preferences@.len() >= 1,
        ensures
            match r {
                Result::Err(msg) => {
                    ||| (preferences@.len() % 2 != 0 && msg@ == "The number of teams must be even."@)
                    ||| (preferences@.len() % 2 == 0 && (exists|t: int|
                        0 <= t < preferences@.len() && (#[trigger] preferences@[t])@.len()
                            != preferences@[0]@.len()) && msg@
                        == "The number of arbiters must be the same."@)
                    ||| (preferences@.len() % 2 == 0 && (forall|t: int|
                        0 <= t < preferences@.len() ==> (#[trigger] preferences@[t])@.len()
                            == preferences@[0]@.len()) && preferences@.len() / 2
                        > preferences@[0]@.len() && msg@
                        == "The number of arbiters must be greater than the number of matches."@)
                },
                Result::Ok(so) => {
                    &&& preferences@.len() % 2 == 0
                    &&& forall|t: int|
                        0 <= t < preferences@.len() ==> (#[trigger] preferences@[t])@.len()
                            == preferences@[0]@.len()
                    &&& preferences@.len() / 2 <= preferences@[0]@.len()
                    &&& so.config_wf()
                    &&& so.spec_preferences() == preferences@
                    &&& so.spec_num_teams() == preferences@.len()
                    &&& so.spec_num_arbiters() == preferences@[0]@.len()
                    &&& so.spec_max_score() == isize::MIN
                    &&& so.spec_max_assigned().len() == preferences@.len()
                    &&& forall|i: int|
                        0 <= i < so.spec_max_assigned().len() ==> so.spec_max_assigned()[i] == 0
                },
            },
    {
        let num_teams = preferences.len();
        let num_arbiters = preferences[0].len();
        if num_teams % 2 != 0 {
            return Err("The number of teams must be even.");
        }
        let mut t: usize = 0;
        while t < num_teams
            invariant
                t <= num_teams,
                num_teams == preferences@.len(),
                num_teams % 2 == 0,
                num_arbiters == preferences@[0]@.len(),
                forall|i: int|
                    0 <= i < t ==> (#[trigger] preferences@[i])@.len() == num_arbiters,
            decreases num_teams - t,
        {
            if preferences[t].len() != num_arbiters {
                proof {
                    assert((#[trigger] preferences@[t as int])@.len() != preferences@[0]@.len());
                }
                return Err("The number of arbiters must be the same.");
            }
            t += 1;
        }
        if num_teams / 2 > num_arbiters {
            return Err("The number of arbiters must be greater than the number of matches.");
        }
        let mut max_assigned: Vec<usize> = Vec::new();
        let mut i: usize = 0;
        while i < num_teams
            invariant
                i <= num_teams,
                max_assigned@.len() == i,
                forall|j: int| 0 <= j < i ==> max_assigned@[j] == 0,
            decreases num_teams - i,
        {
            max_assigned.push(0);
            i += 1;
        }
        Ok(
            Self {
                max_assigned,
                max_score: isize::MIN,
                num_teams,
                num_arbiters,
                preferences,
                _marker: PhantomData,
            },
        )
    }

    /// Runs the exhaustive assignment search and returns the finished
    /// optimizer.
    ///
    /// The result is optimal: a recorded score above the sentinel is
    /// attained by the recorded valid assignment and by no valid assignment
    /// is it beaten; the sentinel itself means no valid assignment exists at
    /// all.
    pub fn find_optimal_assigment(self) -> (r: ScoreOptimizer<Ready>)
        requires
            self.config_wf(),
            self.spec_max_score() == isize::MIN,
            self.spec_max_assigned().len() == self.spec_num_teams(),
            forall|i: int|
                0 <= i < self.spec_max_assigned().len() ==> self.spec_max_assigned()[i] == 0,
            exists|k: int|
                0 <= k && #[trigger] bounded_by(self.spec_preferences(), k) && (
                self.spec_num_teams() as int / 2) * k <= isize::MAX,
        ensures
            r.spec_preferences() == self.spec_preferences(),
            r.spec_num_teams() == self.spec_num_teams(),
            r.spec_num_arbiters() == self.spec_num_arbiters(),
            r.config_wf(),
            score_wf(
                r.spec_max_assigned(),
                r.spec_max_score() as int,
                self.spec_preferences(),
                self.spec_num_teams() as int,
                self.spec_num_arbiters() as int,
            ),
            forall|s: Seq<usize>|
                #![trigger prefix_score(self.spec_preferences(), s, self.spec_num_teams() as int / 2)]
                s.len() == self.spec_num_teams() && valid_prefix(
                    self.spec_preferences(),
                    self.spec_num_teams() as int,
                    self.spec_num_arbiters() as int,
                    s,
                    self.spec_num_teams() as int / 2,
                ) ==> prefix_score(self.spec_preferences(), s, self.spec_num_teams() as int / 2)
                    <= r.spec_max_score(),
            r.spec_max_score() == isize::MIN ==> forall|s: Seq<usize>|
                s.len() == self.spec_num_teams() ==> !#[trigger] valid_prefix(
                    self.spec_preferences(),
                    self.spec_num_teams() as int,
                    self.spec_num_arbiters() as int,
                    s,
                    self.spec_num_teams() as int / 2,
                ),
    {
        let ghost prefs = self.spec_preferences();
        let ghost teams = self.spec_num_teams() as int;
        let ghost arbiters = self.spec_num_arbiters() as int;
        let mut this = self;
        let mut curr_assigned: Vec<usize> = Vec::new();
        let n = this.num_teams;
        let mut i: usize = 0;
        while i < n
            invariant
                i <= n,
                curr_assigned@.len() == i,
                forall|j: int| 0 <= j < i ==> curr_assigned@[j] == 0,
            decreases n - i,
        {
            curr_assigned.push(0);
            i += 1;
        }
        proof {
            assert(curr_assigned@.take(0) =~= this.max_assigned@.take(0));
        }
        this.backtrack(&mut curr_assigned, 0, 0);
        proof {
            let k = choose|k: int|
                0 <= k && #[trigger] bounded_by(prefs, k) && (teams / 2) * k <= isize::MAX;
            if this.max_score == isize::MIN {
                assert forall|s: Seq<usize>|
                    s.len() == teams implies !#[trigger] valid_prefix(
                    prefs,
                    teams,
                    arbiters,
                    s,
                    teams / 2,
                ) by {
                    if valid_prefix(prefs, teams, arbiters, s, teams / 2) {
                        assert(s.take(0) =~= curr_assigned@.take(0));
                        assert(prefix_score(prefs, s, teams / 2) <= this.max_score);
                        lemma_prefix_score_bound(prefs, teams, arbiters, s, teams / 2, k);
                        assert((teams / 2) * k >= 0) by (nonlinear_arith)
                            requires 0 <= k && 0 <= teams / 2;
                        assert(false);
                    }
                }
            }
            assert forall|s: Seq<usize>|
                s.len() == teams && valid_prefix(prefs, teams, arbiters, s, teams / 2) implies #[trigger] prefix_score(
                prefs,
                s,
                teams / 2,
            ) <= this.max_score by {
                assert(s.take(0) =~= curr_assigned@.take(0));
            }
        }
        ScoreOptimizer::<Ready> {
            max_assigned: this.max_assigned,
            max_score: this.max_score,
            num_teams: this.num_teams,
            num_arbiters: this.num_arbiters,
            preferences: this.preferences,
            _marker: PhantomData,
        }
    }

    /// Whether one of the first `curr_match` slots already uses `arbiter`.
    fn arbiter_used(curr_assigned: &Vec<usize>, curr_match: usize, arbiter: usize) -> (r: bool)
        requires
            2 * (curr_match as int) <= curr_assigned@.len(),
        ensures
            r == exists|i: int| 0 <= i < curr_match && #[trigger] curr_assigned@[2 * i] == arbiter,
    {
        let n = curr_assigned.len();
        let mut i: usize = 0;
        while i < curr_match
            invariant
                i <= curr_match,
                n == curr_assigned@.len(),
                2 * (curr_match as int) <= curr_assigned@.len(),
                forall|j: int| 0 <= j < i ==> #[trigger] curr_assigned@[2 * j] != arbiter,
            decreases curr_match - i,
        {
            if curr_assigned[2 * i] == arbiter {
                return true;
            }
            i += 1;
        }
        false
    }

    /// Whether one of the first `curr_match` slots already uses `team`.
    fn team_used(curr_assigned: &Vec<usize>, curr_match: usize, team: usize) -> (r: bool)
        requires
            2 * (curr_match as int) <= curr_assigned@.len(),
        ensures
            r == exists|i: int| 0 <= i < curr_match && #[trigger] curr_assigned@[2 * i + 1] == team,
    {
        let n = curr_assigned.len();
        let mut i: usize = 0;
        while i < curr_match
            invariant
                i <= curr_match,
                n == curr_assigned@.len(),
                2 * (curr_match as int) <= curr_assigned@.len(),
                forall|j: int| 0 <= j < i ==> #[trigger] curr_assigned@[2 * j + 1] != team,
            decreases curr_match - i,
        {
            if curr_assigned[2 * i + 1] == team {
                return true;
            }
            i += 1;
        }
        false
    }

    /// One node of the assignment search: records a completed assignment
    /// when it beats the best so far, and otherwise tries every arbiter and
    /// every team for the current match slot under the exclusivity and
    /// refusal constraints.
    #[verifier::rlimit(100)]
    #[verifier::loop_isolation(false)]
    pub fn backtrack(&mut self, curr_assigned: &mut Vec<usize>, curr_score: isize, curr_match: usize)
        requires
            old(self).config_wf(),
            curr_match <= old(self).spec_num_teams() / 2,
            old(curr_assigned)@.len() == old(self).spec_num_teams(),
            valid_prefix(
                old(self).spec_preferences(),
                old(self).spec_num_teams() as int,
                old(self).spec_num_arbiters() as int,
                old(curr_assigned)@,
                curr_match as int,
            ),
            forall|i: int|
                2 * (curr_match as int) <= i < old(curr_assigned)@.len() ==> old(
                    curr_assigned,
                )@[i] == 0,
            curr_score == prefix_score(
                old(self).spec_preferences(),
                old(curr_assigned)@,
                curr_match as int,
            ),
            exists|k: int|
                0 <= k && #[trigger] bounded_by(old(self).spec_preferences(), k) && (old(
                    self,
                ).spec_num_teams() as int / 2) * k <= isize::MAX,
            score_wf(
                old(self).spec_max_assigned(),
                old(self).spec_max_score() as int,
                old(self).spec_preferences(),
                old(self).spec_num_teams() as int,
                old(self).spec_num_arbiters() as int,
            ),
        ensures
            final(self).spec_preferences() == old(self).spec_preferences(),
            final(self).spec_num_teams() == old(self).spec_num_teams(),
            final(self).spec_num_arbiters() == old(self).spec_num_arbiters(),
            final(self).spec_max_score() >= old(self).spec_max_score(),
            final(curr_assigned)@ == old(curr_assigned)@,
            score_wf(
                final(self).spec_max_assigned(),
                final(self).spec_max_score() as int,
                old(self).spec_preferences(),
                old(self).spec_num_teams() as int,
                old(self).spec_num_arbiters() as int,
            ),
            forall|s: Seq<usize>|
                #![trigger prefix_score(old(self).spec_preferences(), s, old(self).spec_num_teams() as int / 2)]
                s.len() == old(self).spec_num_teams() && s.take(2 * (curr_match as int)) == old(
                    curr_assigned,
                )@.take(2 * (curr_match as int)) && valid_prefix(
                    old(self).spec_preferences(),
                    old(self).spec_num_teams() as int,
                    old(self).spec_num_arbiters() as int,
                    s,
                    old(self).spec_num_teams() as int / 2,
                ) ==> prefix_score(old(self).spec_preferences(), s, old(self).spec_num_teams() as int / 2)
                    <= final(self).spec_max_score(),
        decreases old(self).spec_num_teams() / 2 - curr_match,
    {
        let ghost prefs = self.spec_preferences();
        let ghost teams = self.spec_num_teams() as int;
        let ghost arbiters = self.spec_num_arbiters() as int;
        let ghost matches = teams / 2;
        let ghost k_bound = choose|k: int|
            0 <= k && #[trigger] bounded_by(prefs, k) && matches * k <= isize::MAX;
        let num_matches = self.num_teams / 2;
        if curr_match == num_matches {
            if curr_score > self.max_score {
                let recorded = clone_assignment(curr_assigned);
                self.max_score = curr_score;
                self.max_assigned = recorded;
                proof {
                    lemma_prefix_score_bound(
                        prefs,
                        teams,
                        arbiters,
                        curr_assigned@,
                        matches,
                        k_bound,
                    );
                    assert(matches * k_bound >= 0) by (nonlinear_arith)
                        requires 0 <= k_bound && 0 <= matches;
                    assert(self.max_score as int != isize::MIN);
                }
            }
            proof {
                assert forall|s: Seq<usize>|
                    s.len() == teams && s.take(2 * (curr_match as int)) == curr_assigned@.take(
                        2 * (curr_match as int),
                    ) && valid_prefix(prefs, teams, arbiters, s, matches) implies #[trigger] prefix_score(
                    prefs,
                    s,
                    matches,
                ) <= self.spec_max_score() by {
                    assert(2 * (curr_match as int) == teams);
                    assert(s.take(2 * (curr_match as int)) =~= s);
                    assert(curr_assigned@.take(2 * (curr_match as int)) =~= curr_assigned@);
                    assert(s =~= curr_assigned@);
                }
            }
            return ;
        }
        let ghost a0 = curr_assigned@;
        let ghost m0 = self.max_score;
        let arbiter_count = self.num_arbiters;
        let team_count = self.num_teams;
        let mut arbiter: usize = 0;
        while arbiter < arbiter_count
            invariant
                arbiter <= arbiter_count,
                self.config_wf(),
                prefs == self.spec_preferences(),
                teams == self.spec_num_teams() as int,
                arbiters == self.spec_num_arbiters() as int,
                arbiter_count == self.num_arbiters,
                team_count == self.num_teams,
                curr_match < matches,
                curr_assigned@.len() == teams,
                curr_assigned@.take(2 * (curr_match as int)) == a0.take(2 * (curr_match as int)),
                forall|i: int|
                    2 * (curr_match as int) + 2 <= i < curr_assigned@.len() ==> curr_assigned@[i]
                        == 0,
                valid_prefix(prefs, teams, arbiters, curr_assigned@, curr_match as int),
                curr_score == prefix_score(prefs, curr_assigned@, curr_match as int),
                self.spec_max_score() >= m0,
                score_wf(
                    self.spec_max_assigned(),
                    self.spec_max_score() as int,
                    prefs,
                    teams,
                    arbiters,
                ),
                forall|s: Seq<usize>|
                    #![trigger prefix_score(prefs, s, matches)]
                    s.len() == teams && s.take(2 * (curr_match as int)) == a0.take(
                        2 * (curr_match as int),
                    ) && valid_prefix(prefs, teams, arbiters, s, matches) && s[2 * (
                    curr_match as int)] < arbiter ==> prefix_score(prefs, s, matches)
                        <= self.spec_max_score(),
            decreases arbiter_count - arbiter,
        {
            if !Self::arbiter_used(curr_assigned, curr_match, arbiter) {
                let mut team: usize = 0;
                while team < team_count
                    invariant
                        team <= team_count,
                        arbiter < arbiter_count,
                        self.config_wf(),
                        prefs == self.spec_preferences(),
                        teams == self.spec_num_teams() as int,
                        arbiters == self.spec_num_arbiters() as int,
                        arbiter_count == self.num_arbiters,
                        team_count == self.num_teams,
                        curr_match < matches,
                        curr_assigned@.len() == teams,
                        curr_assigned@.take(2 * (curr_match as int)) == a0.take(
                            2 * (curr_match as int),
                        ),
                        forall|i: int|
                            2 * (curr_match as int) + 2 <= i < curr_assigned@.len()
                                ==> curr_assigned@[i] == 0,
                        valid_prefix(prefs, teams, arbiters, curr_assigned@, curr_match as int),
                        curr_score == prefix_score(prefs, curr_assigned@, curr_match as int),
                        !(exists|i: int|
                            0 <= i < curr_match && #[trigger] curr_assigned@[2 * i] == arbiter),
                        self.spec_max_score() >= m0,
                        score_wf(
                            self.spec_max_assigned(),
                            self.spec_max_score() as int,
                            prefs,
                            teams,
                            arbiters,
                        ),
                        forall|s: Seq<usize>|
                            #![trigger prefix_score(prefs, s, matches)]
                            s.len() == teams && s.take(2 * (curr_match as int)) == a0.take(
                                2 * (curr_match as int),
                            ) && valid_prefix(prefs, teams, arbiters, s, matches) && (s[2 * (
                            curr_match as int)] < arbiter || (s[2 * (curr_match as int)] == arbiter
                                && s[2 * (curr_match as int) + 1] < team)) ==> prefix_score(
                                prefs,
                                s,
                                matches,
                            ) <= self.spec_max_score(),
                    decreases team_count - team,
                {
                    let allowed = !Self::team_used(curr_assigned, curr_match, team)
                        && self.pref_of(team, arbiter) != isize::MIN;
                    if allowed {
                        let ghost a_before = curr_assigned@;
                        curr_assigned.set(2 * curr_match, arbiter);
                        curr_assigned.set(2 * curr_match + 1, team);
                        proof {
                            let a2 = curr_assigned@;
                            assert(a2.take(2 * (curr_match as int)) =~= a_before.take(
                                2 * (curr_match as int),
                            ));
                            assert forall|i: int|
                                0 <= i < curr_match + 1 implies #[trigger] slot_ok(
                                prefs,
                                teams,
                                arbiters,
                                a2,
                                i,
                            ) by {
                                if i < curr_match {
                                    assert(slot_ok(prefs, teams, arbiters, a_before, i));
                                    assert(a2[2 * i] == a_before[2 * i]);
                                    assert(a2[2 * i + 1] == a_before[2 * i + 1]);
                                }
                            }
                            assert forall|i: int, j: int|
                                0 <= i < j < curr_match + 1 implies #[trigger] no_reuse(
                                a2,
                                i,
                                j,
                            ) by {
                                if j < curr_match {
                                    assert(no_reuse(a_before, i, j));
                                    assert(a2[2 * i] == a_before[2 * i]);
                                    assert(a2[2 * i + 1] == a_before[2 * i + 1]);
                                    assert(a2[2 * j] == a_before[2 * j]);
                                    assert(a2[2 * j + 1] == a_before[2 * j + 1]);
                                } else {
                                    assert(a2[2 * i] == a_before[2 * i]);
                                    assert(a2[2 * i + 1] == a_before[2 * i + 1]);
                                }
                            }
                            assert(valid_prefix(prefs, teams, arbiters, a2, curr_match + 1));
                            assert(prefix_score(prefs, a2, curr_match as int) == prefix_score(
                                prefs,
                                a_before,
                                curr_match as int,
                            )) by {
                                lemma_prefix_score_congruence(
                                    prefs,
                                    a_before,
                                    a2,
                                    curr_match as int,
                                );
                            }
                            assert(prefix_score(prefs, a2, curr_match + 1) == curr_score
                                + prefs[team as int]@[arbiter as int]);
                            lemma_prefix_score_bound(prefs, teams, arbiters, a2, curr_match + 1, k_bound);
                            assert((curr_match + 1) * k_bound <= matches * k_bound) by (nonlinear_arith)
                                requires 0 <= k_bound && curr_match + 1 <= matches;
                            assert(-(matches * k_bound) <= -((curr_match + 1) * k_bound)) by (nonlinear_arith)
                                requires 0 <= k_bound && curr_match + 1 <= matches;
                        }
                        let step = self.pref_of(team, arbiter);
                        self.backtrack(curr_assigned, curr_score + step, curr_match + 1);
                        proof {
                            assert forall|s: Seq<usize>|
                                s.len() == teams && s.take(2 * (curr_match as int)) == a0.take(
                                    2 * (curr_match as int),
                                ) && valid_prefix(prefs, teams, arbiters, s, matches) && (s[2 * (
                                curr_match as int)] < arbiter || (s[2 * (curr_match as int)]
                                    == arbiter && s[2 * (curr_match as int) + 1] < team + 1))
                                    implies #[trigger] prefix_score(prefs, s, matches)
                                    <= self.spec_max_score() by {
                                if s[2 * (curr_match as int)] == arbiter && s[2 * (
                                curr_match as int) + 1] == team {
                                    assert(s.take(2 * (curr_match + 1)) =~= curr_assigned@.take(
                                        2 * (curr_match + 1),
                                    ));
                                }
                            }
                        }
                    } else {
                        proof {
                            assert forall|s: Seq<usize>|
                                s.len() == teams && s.take(2 * (curr_match as int)) == a0.take(
                                    2 * (curr_match as int),
                                ) && valid_prefix(prefs, teams, arbiters, s, matches) && (s[2 * (
                                curr_match as int)] < arbiter || (s[2 * (curr_match as int)]
                                    == arbiter && s[2 * (curr_match as int) + 1] < team + 1))
                                    implies #[trigger] prefix_score(prefs, s, matches)
                                    <= self.spec_max_score() by {
                                if s[2 * (curr_match as int)] == arbiter && s[2 * (
                                curr_match as int) + 1] == team {
                                    if exists|i: int|
                                        0 <= i < curr_match && #[trigger] curr_assigned@[2 * i + 1]
                                            == team {
                                        let i = choose|i: int|
                                            0 <= i < curr_match && #[trigger] curr_assigned@[2 * i
                                                + 1] == team;
                                        assert(0 <= 2 * i + 1 < 2 * (curr_match as int));
                                        assert(s[2 * i + 1] == s.take(2 * (curr_match as int))[2 * i
                                            + 1]);
                                        assert(curr_assigned@[2 * i + 1] == curr_assigned@.take(
                                            2 * (curr_match as int),
                                        )[2 * i + 1]);
                                        assert(a0.take(2 * (curr_match as int))[2 * i + 1]
                                            == curr_assigned@[2 * i + 1]);
                                        assert(no_reuse(s, i, curr_match as int));
                                        assert(false);
                                    } else {
                                        assert(slot_ok(prefs, teams, arbiters, s, curr_match as int));
                                        assert(prefs[team as int]@[arbiter as int] == refusal());
                                        assert(false);
                                    }
                                }
                            }
                        }
                    }
                    team += 1;
                }
            } else {
                proof {
                    assert forall|s: Seq<usize>|
                        s.len() == teams && s.take(2 * (curr_match as int)) == a0.take(
                            2 * (curr_match as int),
                        ) && valid_prefix(prefs, teams, arbiters, s, matches) && s[2 * (
                        curr_match as int)] == arbiter implies #[trigger] prefix_score(
                        prefs,
                        s,
                        matches,
                    ) <= self.spec_max_score() by {
                        let i = choose|i: int|
                            0 <= i < curr_match && #[trigger] curr_assigned@[2 * i] == arbiter;
                        assert(0 <= 2 * i < 2 * (curr_match as int));
                        assert(s[2 * i] == s.take(2 * (curr_match as int))[2 * i]);
                        assert(curr_assigned@[2 * i] == curr_assigned@.take(
                            2 * (curr_match as int),
                        )[2 * i]);
                        assert(a0.take(2 * (curr_match as int))[2 * i] == curr_assigned@[2 * i]);
                        assert(no_reuse(s, i, curr_match as int));
                        assert(false);
                    }
                }
            }
            proof {
                assert forall|s: Seq<usize>|
                    s.len() == teams && s.take(2 * (curr_match as int)) == a0.take(
                        2 * (curr_match as int),
                    ) && valid_prefix(prefs, teams, arbiters, s, matches) && s[2 * (
                    curr_match as int)] < arbiter + 1 implies #[trigger] prefix_score(
                    prefs,
                    s,
                    matches,
                ) <= self.spec_max_score() by {
                    if s[2 * (curr_match as int)] == arbiter {
                        assert(slot_ok(prefs, teams, arbiters, s, curr_match as int));
                        assert(s[2 * (curr_match as int) + 1] < teams);
                    }
                }
            }
            arbiter += 1;
        }
        curr_assigned.set(2 * curr_match, 0);
        curr_assigned.set(2 * curr_match + 1, 0);
        proof {
            assert forall|i: int| 0 <= i < a0.len() implies curr_assigned@[i] == a0[i] by {
                if i < 2 * (curr_match as int) {
                    assert(curr_assigned@.take(2 * (curr_match as int))[i] == a0.take(
                        2 * (curr_match as int),
                    )[i]);
                } else if i >= 2 * (curr_match as int) + 2 {
                    assert(curr_assigned@[i] == 0);
                    assert(a0[i] == 0);
                } else {
                    assert(a0[i] == 0);
                }
            }
            assert(curr_assigned@ =~= a0);
            assert forall|s: Seq<usize>|
                s.len() == teams && s.take(2 * (curr_match as int)) == a0.take(
                    2 * (curr_match as int),
                ) && valid_prefix(prefs, teams, arbiters, s, matches) implies #[trigger] prefix_score(
                prefs,
                s,
                matches,
            ) <= self.spec_max_score() by {
                assert(slot_ok(prefs, teams, arbiters, s, curr_match as int));
                assert(s[2 * (curr_match as int)] < arbiters);
            }
        }
    }

    /// Reads one preference entry.
    fn pref_of(&self, team: usize, arbiter: usize) -> (r: isize)
        requires
            self.config_wf(),
            team < self.spec_num_teams(),
            arbiter < self.spec_num_arbiters(),
        ensures
            r == self.spec_preferences()[team as int]@[arbiter as int],
    {
        self.preferences[team][arbiter]
    }
}

/// Two assignments that agree on their first `2 * m` positions score the
/// same over `m` slots.
proof fn lemma_prefix_score_congruence(prefs: Seq<Vec<isize>>, s1: Seq<usize>, s2: Seq<usize>, m: int)
    requires
        0 <= m,
        2 * m <= s1.len(),
        2 * m <= s2.len(),
        forall|i: int| 0 <= i < 2 * m ==> s1[i] == s2[i],
    ensures
        prefix_score(prefs, s1, m) == prefix_score(prefs, s2, m),
    decreases m,
{
    if m > 0 {
        lemma_prefix_score_congruence(prefs, s1, s2, m - 1);
    }
}

impl Report for ScoreOptimizer<Ready> {
    open spec fn spec_report(&self) -> Seq<char> {
        if self.spec_max_score() == isize::MIN {
            "None of the arbiters was assigned to any match."@
        } else {
            "> Score information:\n# Maximum score: "@ + crate::decimal::dec_int(
                self.spec_max_score() as int,
            ) + "\n- Assigned arbiters: [ "@ + assigned_list(self.spec_max_assigned()) + " ]"@
        }
    }

    fn report(&self) -> (text: String) {
        if self.max_score == isize::MIN {
            String::from_str("None of the arbiters was assigned to any match.")
        } else {
            let mut text = String::from_str("> Score information:\n# Maximum score: ");
            text.append(isize_to_string(self.max_score).as_str());
            text.append("\n- Assigned arbiters: [ ");
            let ghost assigned = self.max_assigned@;
            let mut i: usize = 0;
            let ghost head = text@;
            while i < self.max_assigned.len()
                invariant
                    i <= assigned.len(),
                    assigned == self.max_assigned@,
                    text@ == head + assigned_list(assigned.take(i as int)),
                decreases assigned.len() - i,
            {
                if i > 0 {
                    text.append(", ");
                }
                text.append(crate::decimal::usize_to_string(self.max_assigned[i]).as_str());
                proof {
                    assert(assigned.take(i + 1).drop_last() =~= assigned.take(i as int));
                    assert(assigned.take(i + 1).last() == assigned[i as int]);
                    assert(text@ =~= head + assigned_list(assigned.take(i + 1)));
                }
                i += 1;
            }
            text.append(" ]");
            proof {
                assert(assigned.take(assigned.len() as int) =~= assigned);
            }
            text
        }
    }
}

/// The report's rendering of an assignment: its entries in decimal,
/// separated by commas.
pub open spec fn assigned_list(s: Seq<usize>) -> Seq<char>
    decreases s.len(),
{
    if s.len() == 0 {
        Seq::empty()
    } else if s.len() == 1 {
        dec_digits(s[0] as nat)
    } else {
        assigned_list(s.drop_last()) + ", "@ + dec_digits(s.last() as nat)
    }
}

} // verus!
