//! The rule library: one predicate per achievement, each judged on a
//! snapshot of what is known about the user at the start of a run.

use vstd::prelude::*;
use crate::loops::{check_for_loops, has_loop};
use crate::models::{Character, Submission};
use crate::skills::{
    all_positive, balance_met, balanced, count_maxed_skills, every_skill_positive,
    half_everywhere, half_of_max_everywhere, level_floor, lookup, maxed_count, points_to_level,
    SkillTable, TOTAL,
};

verus! {

/// The grader's verdict for a correct submission.
pub const SUCCESS: &'static str = "SUCCESS";

/// The grader's verdict for a submission that did not compile.
pub const COMPILE_ERROR: &'static str = "COMPILE_ERROR";

/// The task whose loop-free solution earns an achievement.
pub const LOOP_FREE_TASK: i64 = 63;

/// The task that, among the first few solved, earns an achievement.
pub const TROLL_TASK: i64 = 48;

/// The achievement for having unlocked every other one.
pub const META_ACHIEVEMENT: i64 = 16;

/// The highest achievement id that has a rule.
pub const LAST_ACHIEVEMENT: i64 = 19;

/// What is known about a user at the start of a run. Every rule reads it and
/// none changes it.
pub struct AchievementTrigger {
    pub username: String,
    /// Ids of the achievements the user has already unlocked.
    pub completed: Vec<i64>,
    /// Ids of the tasks the user has solved.
    pub solved_tasks: Vec<i64>,
    pub submissions: Vec<Submission>,
    /// The user's skill points, "total" included.
    pub points: SkillTable,
    /// The most points each skill can have, "total" included.
    pub max_points: SkillTable,
    /// How many tasks the course has.
    pub task_count: usize,
    pub character: Character,
    /// How often the user changed the character.
    pub char_changes: i64,
}

pub open spec fn is_success(s: Submission) -> bool {
    s.result_type@ == SUCCESS@
}

pub open spec fn is_compile_error(s: Submission) -> bool {
    s.result_type@ == COMPILE_ERROR@
}

/// How many of the submissions did not compile.
pub open spec fn compile_errors(subs: Seq<Submission>) -> nat
    decreases subs.len(),
{
    if subs.len() == 0 {
        0
    } else {
        compile_errors(subs.drop_last()) + if is_compile_error(subs.last()) {
            1nat
        } else {
            0nat
        }
    }
}

/// Two incorrect submissions of the same source text for the same task.
pub open spec fn same_wrong(a: Submission, b: Submission) -> bool {
    !is_success(a) && !is_success(b) && a.task_id == b.task_id && a.source_code@ == b.source_code@
}

/// Two correct submissions for the same task.
pub open spec fn same_solved(a: Submission, b: Submission) -> bool {
    is_success(a) && is_success(b) && a.task_id == b.task_id
}

pub open spec fn wrong_resubmitted(subs: Seq<Submission>) -> bool {
    exists|i: int, j: int| 0 <= i < j < subs.len() && #[trigger] same_wrong(subs[i], subs[j])
}

pub open spec fn solved_twice(subs: Seq<Submission>) -> bool {
    exists|i: int, j: int| 0 <= i < j < subs.len() && #[trigger] same_solved(subs[i], subs[j])
}

/// A correct submission for the loop-free task that uses no loop.
pub open spec fn loop_free_solution(subs: Seq<Submission>) -> bool {
    exists|i: int|
        0 <= i < subs.len() && (#[trigger] subs[i]).task_id == LOOP_FREE_TASK && is_success(subs[i])
            && !has_loop(subs[i].source_code@)
}

/// Whether every customizable slot of the character is chosen (the face
/// does not count).
pub open spec fn fully_dressed(c: Character) -> bool {
    c.body_color is Some && c.hat_id is Some && c.shirt_id is Some && c.pants_id is Some
}

impl AchievementTrigger {
    /// Whether the achievement `id` is earned according to this snapshot.
    pub open spec fn qualifies(&self, id: i64) -> bool {
        let solved = self.solved_tasks@.len();
        if id == 1 {
            solved >= 1
        } else if id == 2 {
            solved >= 16
        } else if id == 3 {
            solved >= 42
        } else if id == 4 {
            solved == self.task_count
        } else if id == 5 {
            true
        } else if id == 6 {
            fully_dressed(self.character)
        } else if id == 7 {
            solved >= 3 && self.solved_tasks@.contains(TROLL_TASK)
        } else if id == 8 {
            compile_errors(self.submissions@) >= 3
        } else if id == 9 {
            wrong_resubmitted(self.submissions@)
        } else if id == 10 {
            solved_twice(self.submissions@)
        } else if id == 11 {
            half_everywhere(self.points@, self.max_points@)
        } else if id == 12 {
            maxed_count(self.points@, self.max_points@) >= 3
        } else if id == 13 {
            self.char_changes >= 7
        } else if id == 14 {
            all_positive(self.points@)
        } else if id == 15 {
            true
        } else if id == 17 {
            loop_free_solution(self.submissions@)
        } else if id == 18 {
            match lookup(self.points@, TOTAL@) {
                Some(p) => p >= level_floor(5),
                None => false,
            }
        } else if id == 19 {
            balanced(self.points@, self.max_points@)
        } else {
            // The meta achievement is decided by the run itself, and ids
            // without a rule are refused when the catalog is loaded.
            false
        }
    }

    /// The skill tables are well formed.
    pub open spec fn wf(&self) -> bool {
        self.points.wf() && self.max_points.wf()
    }

    /// Judges the achievement `id`. The meta achievement, which the run
    /// decides, is never earned here.
    pub fn check(&self, id: i64) -> (r: bool)
        requires
            self.wf(),
            1 <= id <= LAST_ACHIEVEMENT,
        ensures
            r == self.qualifies(id),
    {
        if id == 1 {
            self.check_1()
        } else if id == 2 {
            self.check_2()
        } else if id == 3 {
            self.check_3()
        } else if id == 4 {
            self.check_4()
        } else if id == 5 {
            self.check_5()
        } else if id == 6 {
            self.check_6()
        } else if id == 7 {
            self.check_7()
        } else if id == 8 {
            self.check_8()
        } else if id == 9 {
            self.check_9()
        } else if id == 10 {
            self.check_10()
        } else if id == 11 {
            self.check_11()
        } else if id == 12 {
            self.check_12()
        } else if id == 13 {
            self.check_13()
        } else if id == 14 {
            self.check_14()
        } else if id == 15 {
            self.check_15()
        } else if id == 16 {
            self.check_16()
        } else if id == 17 {
            self.check_17()
        } else if id == 18 {
            self.check_18()
        } else {
            self.check_19()
        }
    }

    /// A first step: at least one task solved.
    pub fn check_1(&self) -> (r: bool)
        ensures
            r == self.qualifies(1),
    {
        self.solved_tasks.len() >= 1
    }

    /// At least sixteen tasks solved.
    pub fn check_2(&self) -> (r: bool)
        ensures
            r == self.qualifies(2),
    {
        self.solved_tasks.len() >= 16
    }

    /// At least forty-two tasks solved.
    pub fn check_3(&self) -> (r: bool)
        ensures
            r == self.qualifies(3),
    {
        self.solved_tasks.len() >= 42
    }

    /// Every task of the course solved.
    pub fn check_4(&self) -> (r: bool)
        ensures
            r == self.qualifies(4),
    {
        self.solved_tasks.len() == self.task_count
    }

    /// Earned the first time its trigger (a changed nickname) occurs.
    pub fn check_5(&self) -> (r: bool)
        ensures
            r == self.qualifies(5),
    {
        true
    }

    /// Every customizable slot of the character chosen.
    pub fn check_6(&self) -> (r: bool)
        ensures
            r == self.qualifies(6),
    {
        self.character.body_color.is_some() && self.character.hat_id.is_some()
            && self.character.shirt_id.is_some() && self.character.pants_id.is_some()
    }

    /// At least three tasks solved, one of them the troll task.
    pub fn check_7(&self) -> (r: bool)
        ensures
            r == self.qualifies(7),
    {
        if self.solved_tasks.len() < 3 {
            return false;
        }
        let mut i: usize = 0;
        while i < self.solved_tasks.len()
            invariant
                i <= self.solved_tasks@.len(),
                self.solved_tasks@.len() >= 3,
                forall|k: int| 0 <= k < i ==> self.solved_tasks@[k] != TROLL_TASK,
            decreases self.solved_tasks@.len() - i,
        {
            if self.solved_tasks[i] == TROLL_TASK {
                return true;
            }
            i = i + 1;
        }
        false
    }

    /// At least three submissions that did not compile.
    pub fn check_8(&self) -> (r: bool)
        ensures
            r == self.qualifies(8),
    {
        let ce: String = COMPILE_ERROR.to_owned();
        let subs = &self.submissions;
        let mut count: usize = 0;
        let mut i: usize = 0;
        while i < subs.len()
            invariant
                ce@ == COMPILE_ERROR@,
                i <= subs@.len(),
                count <= i,
                count == compile_errors(subs@.take(i as int)),
            decreases subs@.len() - i,
        {
            assert(subs@.take(i + 1).drop_last() =~= subs@.take(i as int));
            if subs[i].result_type == ce {
                count = count + 1;
            }
            i = i + 1;
        }
        assert(subs@.take(i as int) =~= subs@);
        count >= 3
    }

    /// The same incorrect source text submitted twice for the same task.
    pub fn check_9(&self) -> (r: bool)
        ensures
            r == self.qualifies(9),
    {
        let ok: String = SUCCESS.to_owned();
        let subs = &self.submissions;
        let n = subs.len();
        let mut i: usize = 0;
        while i < n
            invariant
                ok@ == SUCCESS@,
                subs@ == self.submissions@,
                n == subs@.len(),
                i <= n,
                forall|a: int, b: int| 0 <= a < i && a < b < n ==> !same_wrong(subs@[a], subs@[b]),
            decreases n - i,
        {
            let first_wrong = !(subs[i].result_type == ok);
            let mut j: usize = i + 1;
            while j < n
                invariant
                    ok@ == SUCCESS@,
                    subs@ == self.submissions@,
                    n == subs@.len(),
                    i < n,
                    i + 1 <= j <= n,
                    first_wrong == !is_success(subs@[i as int]),
                    forall|b: int| i < b < j ==> !same_wrong(subs@[i as int], subs@[b]),
                decreases n - j,
            {
                if first_wrong && !(subs[j].result_type == ok) && subs[j].task_id == subs[i].task_id
                    && subs[j].source_code == subs[i].source_code {
                    assert(same_wrong(subs@[i as int], subs@[j as int]));
                    assert(wrong_resubmitted(self.submissions@));
                    return true;
                }
                j = j + 1;
            }
            i = i + 1;
        }
        false
    }

    /// Two correct submissions for the same task.
    pub fn check_10(&self) -> (r: bool)
        ensures
            r == self.qualifies(10),
    {
        let ok: String = SUCCESS.to_owned();
        let subs = &self.submissions;
        let n = subs.len();
        let mut i: usize = 0;
        while i < n
            invariant
                ok@ == SUCCESS@,
                subs@ == self.submissions@,
                n == subs@.len(),
                i <= n,
                forall|a: int, b: int| 0 <= a < i && a < b < n ==> !same_solved(subs@[a], subs@[b]),
            decreases n - i,
        {
            let first_ok = subs[i].result_type == ok;
            let mut j: usize = i + 1;
            while j < n
                invariant
                    ok@ == SUCCESS@,
                    subs@ == self.submissions@,
                    n == subs@.len(),
                    i < n,
                    i + 1 <= j <= n,
                    first_ok == is_success(subs@[i as int]),
                    forall|b: int| i < b < j ==> !same_solved(subs@[i as int], subs@[b]),
                decreases n - j,
            {
                if first_ok && subs[j].result_type == ok && subs[j].task_id == subs[i].task_id {
                    assert(same_solved(subs@[i as int], subs@[j as int]));
                    assert(solved_twice(self.submissions@));
                    return true;
                }
                j = j + 1;
            }
            i = i + 1;
        }
        false
    }

    /// Every skill ("total" among them) at least at half of its maximum.
    pub fn check_11(&self) -> (r: bool)
        requires
            self.wf(),
        ensures
            r == self.qualifies(11),
    {
        half_of_max_everywhere(&self.points, &self.max_points)
    }

    /// At least three skills ("total" among them) at their maximum.
    pub fn check_12(&self) -> (r: bool)
        requires
            self.wf(),
        ensures
            r == self.qualifies(12),
    {
        count_maxed_skills(&self.points, &self.max_points) >= 3
    }

    /// The character changed at least seven times.
    pub fn check_13(&self) -> (r: bool)
        ensures
            r == self.qualifies(13),
    {
        self.char_changes >= 7
    }

    /// Points in every skill, "total" among them.
    pub fn check_14(&self) -> (r: bool)
        ensures
            r == self.qualifies(14),
    {
        every_skill_positive(&self.points)
    }

    /// Earned the first time its trigger (a missing page) occurs.
    pub fn check_15(&self) -> (r: bool)
        ensures
            r == self.qualifies(15),
    {
        true
    }

    /// The meta achievement is never earned by a rule; the run decides it.
    pub fn check_16(&self) -> (r: bool)
        ensures
            r == self.qualifies(16),
    {
        false
    }

    /// A correct solution of the loop-free task that uses no loop.
    pub fn check_17(&self) -> (r: bool)
        ensures
            r == self.qualifies(17),
    {
        let ok: String = SUCCESS.to_owned();
        let subs = &self.submissions;
        let mut i: usize = 0;
        while i < subs.len()
            invariant
                ok@ == SUCCESS@,
                subs@ == self.submissions@,
                i <= subs@.len(),
                forall|k: int|
                    0 <= k < i ==> !((#[trigger] subs@[k]).task_id == LOOP_FREE_TASK && is_success(subs@[k])
                        && !has_loop(subs@[k].source_code@)),
            decreases subs@.len() - i,
        {
            if subs[i].task_id == LOOP_FREE_TASK && subs[i].result_type == ok {
                if !check_for_loops(subs[i].source_code.as_str()) {
                    assert(subs@[i as int].task_id == LOOP_FREE_TASK);
                    assert(loop_free_solution(self.submissions@));
                    return true;
                }
            }
            i = i + 1;
        }
        false
    }

    /// Level five reached by total points.
    pub fn check_18(&self) -> (r: bool)
        requires
            self.wf(),
        ensures
            r == self.qualifies(18),
    {
        let total: String = TOTAL.to_owned();
        match self.points.get(&total) {
            Some(p) => points_to_level(p) >= 5,
            None => false,
        }
    }

    /// The geometric balance of the skills reaches half of the maximum.
    pub fn check_19(&self) -> (r: bool)
        requires
            self.wf(),
        ensures
            r == self.qualifies(19),
    {
        balance_met(&self.points, &self.max_points)
    }
}

/// Thresholds on solved tasks form a chain: a user who has solved forty-two
/// tasks also meets the thresholds of sixteen and of one.
pub proof fn lemma_threshold_chain(snapshot: AchievementTrigger)
    requires
        snapshot.qualifies(3),
    ensures
        snapshot.qualifies(2),
        snapshot.qualifies(1),
{
}

} // verus!
