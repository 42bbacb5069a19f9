//! The achievement catalog and the decisions of one evaluation run.

use vstd::prelude::*;
use crate::gate::names;
use crate::rules::{AchievementTrigger, LAST_ACHIEVEMENT, META_ACHIEVEMENT};

verus! {

/// The trigger that makes every achievement eligible.
pub const ALL_TRIGGER: &'static str = "all";

/// One achievement of the catalog.
pub struct AchievementDefinition {
    pub id: i64,
    pub name: String,
    /// Shown while the achievement is locked.
    pub open_description: String,
    /// Shown once it is unlocked.
    pub completed_description: String,
    /// Hidden achievements are listed only once unlocked.
    pub hidden: bool,
    /// The triggers that make it eligible for evaluation.
    pub triggers: Vec<String>,
}

/// Why a catalog cannot be used.
pub enum CatalogError {
    /// The entry at `position` has the id `id` where the next rule's id
    /// belongs.
    MisplacedId { position: usize, id: i64 },
    /// The catalog ends before every rule has an entry; it has `count`.
    MissingEntries { count: usize },
    /// The catalog has entries beyond the last rule.
    ExtraEntries { count: usize },
}

/// Every rule has exactly one entry and every entry a rule: the ids are
/// 1, 2, ..., up to the last rule, in this order.
pub open spec fn valid_catalog(c: Seq<AchievementDefinition>) -> bool {
    c.len() == LAST_ACHIEVEMENT && forall|i: int| 0 <= i < c.len() ==> (#[trigger] c[i]).id == i + 1
}

/// Checks the catalog at startup.
pub fn validate_catalog(catalog: &Vec<AchievementDefinition>) -> (r: Result<(), CatalogError>)
    ensures
        r is Ok <==> valid_catalog(catalog@),
        r matches Err(CatalogError::MisplacedId { position, id }) ==> {
            &&& position < catalog@.len()
            &&& position < LAST_ACHIEVEMENT
            &&& catalog@[position as int].id == id
            &&& id != position + 1
            &&& forall|k: int| 0 <= k < position ==> (#[trigger] catalog@[k]).id == k + 1
        },
        r matches Err(CatalogError::MissingEntries { count }) ==> count == catalog@.len() && count
            < LAST_ACHIEVEMENT,
        r matches Err(CatalogError::ExtraEntries { count }) ==> count == catalog@.len() && count
            > LAST_ACHIEVEMENT,
{
    let n = catalog.len();
    let mut i: usize = 0;
    while i < n && i < LAST_ACHIEVEMENT as usize
        invariant
            n == catalog@.len(),
            i <= n,
            i <= LAST_ACHIEVEMENT,
            forall|k: int| 0 <= k < i ==> (#[trigger] catalog@[k]).id == k + 1,
        decreases n - i,
    {
        if catalog[i].id != i as i64 + 1 {
            return Err(CatalogError::MisplacedId { position: i, id: catalog[i].id });
        }
        i = i + 1;
    }
    if n < LAST_ACHIEVEMENT as usize {
        Err(CatalogError::MissingEntries { count: n })
    } else if n > LAST_ACHIEVEMENT as usize {
        Err(CatalogError::ExtraEntries { count: n })
    } else {
        Ok(())
    }
}

/// Whether `trigger` makes the achievement eligible.
pub open spec fn listens(d: AchievementDefinition, trigger: Seq<char>) -> bool {
    trigger == ALL_TRIGGER@ || names(d.triggers@).contains(trigger)
}

/// The ids, in catalog order, of the achievements that the user has not
/// unlocked yet and that `trigger` makes eligible.
pub open spec fn candidates(
    catalog: Seq<AchievementDefinition>,
    completed: Seq<i64>,
    trigger: Seq<char>,
) -> Seq<i64>
    decreases catalog.len(),
{
    if catalog.len() == 0 {
        Seq::empty()
    } else {
        let rest = candidates(catalog.drop_last(), completed, trigger);
        let d = catalog.last();
        if !completed.contains(d.id) && listens(d, trigger) {
            rest.push(d.id)
        } else {
            rest
        }
    }
}

/// The ids among `ids` whose rule the snapshot meets, in the same order.
pub open spec fn passing(snapshot: AchievementTrigger, ids: Seq<i64>) -> Seq<i64>
    decreases ids.len(),
{
    if ids.len() == 0 {
        Seq::empty()
    } else {
        let rest = passing(snapshot, ids.drop_last());
        if snapshot.qualifies(ids.last()) {
            rest.push(ids.last())
        } else {
            rest
        }
    }
}

/// With the unlocks of this run, the user holds every achievement of the
/// catalog other than the meta achievement.
pub open spec fn others_held(
    catalog: Seq<AchievementDefinition>,
    completed: Seq<i64>,
    unlocked: Seq<i64>,
) -> bool {
    forall|i: int|
        0 <= i < catalog.len() && (#[trigger] catalog[i]).id != META_ACHIEVEMENT ==> completed.contains(
            catalog[i].id,
        ) || unlocked.contains(catalog[i].id)
}

/// The meta achievement is due when it was a candidate and, with the unlocks
/// of this run, the user holds every other achievement of the catalog.
pub open spec fn meta_due(
    catalog: Seq<AchievementDefinition>,
    cands: Seq<i64>,
    completed: Seq<i64>,
    unlocked: Seq<i64>,
) -> bool {
    cands.contains(META_ACHIEVEMENT) && others_held(catalog, completed, unlocked)
}

/// The achievements that one run for `trigger` unlocks, in order: the
/// candidates whose rule holds, then the meta achievement where it is due.
pub open spec fn planned(
    snapshot: AchievementTrigger,
    catalog: Seq<AchievementDefinition>,
    trigger: Seq<char>,
) -> Seq<i64> {
    let c = candidates(catalog, snapshot.completed@, trigger);
    let u = passing(snapshot, c);
    if meta_due(catalog, c, snapshot.completed@, u) {
        u.push(META_ACHIEVEMENT)
    } else {
        u
    }
}

/// Whether `v` holds `x`.
pub fn contains_id(v: &Vec<i64>, x: i64) -> (r: bool)
    ensures
        r == v@.contains(x),
{
    let mut i: usize = 0;
    while i < v.len()
        invariant
            i <= v@.len(),
            forall|k: int| 0 <= k < i ==> v@[k] != x,
        decreases v@.len() - i,
    {
        if v[i] == x {
            return true;
        }
        i = i + 1;
    }
    false
}

/// Whether `trigger` makes the achievement eligible.
pub fn listens_to(d: &AchievementDefinition, trigger: &String) -> (r: bool)
    ensures
        r == listens(*d, trigger@),
{
    let all: String = ALL_TRIGGER.to_owned();
    if *trigger == all {
        return true;
    }
    let mut i: usize = 0;
    while i < d.triggers.len()
        invariant
            i <= d.triggers@.len(),
            trigger@ != ALL_TRIGGER@,
            forall|k: int| 0 <= k < i ==> d.triggers@[k]@ != trigger@,
        decreases d.triggers@.len() - i,
    {
        if d.triggers[i] == *trigger {
            assert(names(d.triggers@)[i as int] == trigger@);
            return true;
        }
        i = i + 1;
    }
    assert(!names(d.triggers@).contains(trigger@));
    false
}

/// The candidates of a run: the ids, in catalog order, of the achievements
/// not yet unlocked that `trigger` makes eligible.
pub fn candidates_of(
    catalog: &Vec<AchievementDefinition>,
    completed: &Vec<i64>,
    trigger: &str,
) -> (r: Vec<i64>)
    ensures
        r@ == candidates(catalog@, completed@, trigger@),
{
    let t: String = trigger.to_owned();
    let mut r: Vec<i64> = Vec::new();
    let mut i: usize = 0;
    while i < catalog.len()
        invariant
            t@ == trigger@,
            i <= catalog@.len(),
            r@ == candidates(catalog@.take(i as int), completed@, trigger@),
        decreases catalog@.len() - i,
    {
        assert(catalog@.take(i + 1).drop_last() =~= catalog@.take(i as int));
        assert(catalog@.take(i + 1).last() == catalog@[i as int]);
        let d = &catalog[i];
        if !contains_id(completed, d.id) && listens_to(d, &t) {
            r.push(d.id);
        }
        i = i + 1;
    }
    assert(catalog@.take(i as int) =~= catalog@);
    r
}

/// Whether, with `unlocked`, the user holds every achievement of the catalog
/// other than the meta achievement.
pub fn holds_all_others(
    catalog: &Vec<AchievementDefinition>,
    completed: &Vec<i64>,
    unlocked: &Vec<i64>,
) -> (r: bool)
    ensures
        r == others_held(catalog@, completed@, unlocked@),
{
    let mut i: usize = 0;
    while i < catalog.len()
        invariant
            i <= catalog@.len(),
            forall|k: int|
                0 <= k < i && (#[trigger] catalog@[k]).id != META_ACHIEVEMENT ==> completed@.contains(
                    catalog@[k].id,
                ) || unlocked@.contains(catalog@[k].id),
        decreases catalog@.len() - i,
    {
        let id = catalog[i].id;
        if id != META_ACHIEVEMENT && !contains_id(completed, id) && !contains_id(unlocked, id) {
            return false;
        }
        i = i + 1;
    }
    true
}

proof fn lemma_candidates_in_catalog(
    catalog: Seq<AchievementDefinition>,
    completed: Seq<i64>,
    trigger: Seq<char>,
)
    ensures
        forall|x: i64|
            candidates(catalog, completed, trigger).contains(x) ==> exists|j: int|
                0 <= j < catalog.len() && (#[trigger] catalog[j]).id == x,
    decreases catalog.len(),
{
    if catalog.len() > 0 {
        let rest = candidates(catalog.drop_last(), completed, trigger);
        lemma_candidates_in_catalog(catalog.drop_last(), completed, trigger);
        assert forall|x: i64| candidates(catalog, completed, trigger).contains(x) implies exists|j: int|
            0 <= j < catalog.len() && (#[trigger] catalog[j]).id == x by {
            if rest.contains(x) {
                let j = choose|j: int| 0 <= j < catalog.drop_last().len() && (#[trigger] catalog.drop_last()[j]).id == x;
                assert(catalog[j] == catalog.drop_last()[j]);
            } else {
                let c = candidates(catalog, completed, trigger);
                let k = choose|k: int| 0 <= k < c.len() && c[k] == x;
                if c != rest {
                    assert(c == rest.push(catalog.last().id));
                    if k < rest.len() {
                        assert(rest[k] == x);
                    }
                    assert(catalog[catalog.len() - 1].id == x);
                }
            }
        }
    }
}

impl AchievementTrigger {
    /// Decides one run for `trigger`: the achievements to unlock, in order.
    /// Each candidate is judged in ascending id order; the meta achievement
    /// comes last, once the unlocks of this run are counted.
    pub fn run_trigger(&self, catalog: &Vec<AchievementDefinition>, trigger: &str) -> (r: Vec<i64>)
        requires
            self.wf(),
            valid_catalog(catalog@),
        ensures
            r@ == planned(*self, catalog@, trigger@),
    {
        let cands = candidates_of(catalog, &self.completed, trigger);
        proof {
            lemma_candidates_in_catalog(catalog@, self.completed@, trigger@);
        }
        let mut unlocked: Vec<i64> = Vec::new();
        let mut i: usize = 0;
        while i < cands.len()
            invariant
                self.wf(),
                valid_catalog(catalog@),
                cands@ == candidates(catalog@, self.completed@, trigger@),
                forall|x: i64|
                    cands@.contains(x) ==> exists|j: int|
                        0 <= j < catalog@.len() && (#[trigger] catalog@[j]).id == x,
                i <= cands@.len(),
                unlocked@ == passing(*self, cands@.take(i as int)),
                unlocked@.len() <= i,
            decreases cands@.len() - i,
        {
            assert(cands@.take(i + 1).drop_last() =~= cands@.take(i as int));
            assert(cands@.take(i + 1).last() == cands@[i as int]);
            assert(cands@.contains(cands@[i as int]));
            if self.check(cands[i]) {
                unlocked.push(cands[i]);
            }
            i = i + 1;
        }
        assert(cands@.take(i as int) =~= cands@);
        if contains_id(&cands, META_ACHIEVEMENT) && holds_all_others(catalog, &self.completed, &unlocked) {
            unlocked.push(META_ACHIEVEMENT);
        }
        unlocked
    }
}

proof fn lemma_passing_qualifies(snapshot: AchievementTrigger, ids: Seq<i64>)
    ensures
        forall|x: i64| passing(snapshot, ids).contains(x) ==> snapshot.qualifies(x),
    decreases ids.len(),
{
    if ids.len() > 0 {
        lemma_passing_qualifies(snapshot, ids.drop_last());
        let rest = passing(snapshot, ids.drop_last());
        assert forall|x: i64| passing(snapshot, ids).contains(x) implies snapshot.qualifies(x) by {
            if snapshot.qualifies(ids.last()) {
                let p = rest.push(ids.last());
                let k = choose|k: int| 0 <= k < p.len() && p[k] == x;
                if k < rest.len() {
                    assert(rest[k] == x);
                }
            }
        }
    }
}

/// The meta achievement waits for all others. When it is a candidate of a
/// run, the run unlocks it, once and after the other unlocks, exactly when
/// the user then holds every other achievement of the catalog; while one of
/// them is still locked, the run does not unlock it.
pub proof fn lemma_meta_after_all_others(
    snapshot: AchievementTrigger,
    catalog: Seq<AchievementDefinition>,
    trigger: Seq<char>,
)
    requires
        candidates(catalog, snapshot.completed@, trigger).contains(META_ACHIEVEMENT),
    ensures
        ({
            let u = passing(snapshot, candidates(catalog, snapshot.completed@, trigger));
            &&& !u.contains(META_ACHIEVEMENT)
            &&& !others_held(catalog, snapshot.completed@, u) ==> !planned(
                snapshot,
                catalog,
                trigger,
            ).contains(META_ACHIEVEMENT)
            &&& others_held(catalog, snapshot.completed@, u) ==> planned(snapshot, catalog, trigger)
                == u.push(META_ACHIEVEMENT)
        }),
{
    let c = candidates(catalog, snapshot.completed@, trigger);
    lemma_passing_qualifies(snapshot, c);
    assert(!snapshot.qualifies(META_ACHIEVEMENT));
}

/// A user holds the meta achievement only together with every other one: if
/// that is so before a run, it is so of what the user holds after it.
pub proof fn lemma_meta_only_after_others(
    snapshot: AchievementTrigger,
    catalog: Seq<AchievementDefinition>,
    trigger: Seq<char>,
)
    requires
        snapshot.completed@.contains(META_ACHIEVEMENT) ==> others_held(
            catalog,
            snapshot.completed@,
            Seq::empty(),
        ),
    ensures
        ({
            let after = snapshot.completed@ + planned(snapshot, catalog, trigger);
            after.contains(META_ACHIEVEMENT) ==> others_held(catalog, after, Seq::empty())
        }),
{
    let c = candidates(catalog, snapshot.completed@, trigger);
    let u = passing(snapshot, c);
    let p = planned(snapshot, catalog, trigger);
    let done = snapshot.completed@;
    let after = done + p;
    lemma_passing_qualifies(snapshot, c);
    assert(!snapshot.qualifies(META_ACHIEVEMENT));
    assert(!u.contains(META_ACHIEVEMENT));
    if after.contains(META_ACHIEVEMENT) {
        assert forall|i: int|
            0 <= i < catalog.len() && (#[trigger] catalog[i]).id != META_ACHIEVEMENT implies after.contains(
                catalog[i].id,
            ) || Seq::<i64>::empty().contains(catalog[i].id) by {
            let x = catalog[i].id;
            if done.contains(META_ACHIEVEMENT) {
                assert(done.contains(x) || Seq::<i64>::empty().contains(x));
                let k = choose|k: int| 0 <= k < done.len() && done[k] == x;
                assert(after[k] == x);
            } else {
                let k = choose|k: int| 0 <= k < after.len() && after[k] == META_ACHIEVEMENT;
                assert(p[k - done.len()] == META_ACHIEVEMENT);
                if !meta_due(catalog, c, done, u) {
                    assert(p == u);
                    assert(u.contains(META_ACHIEVEMENT));
                }
                assert(done.contains(x) || u.contains(x));
                if done.contains(x) {
                    let m = choose|m: int| 0 <= m < done.len() && done[m] == x;
                    assert(after[m] == x);
                } else {
                    let m = choose|m: int| 0 <= m < u.len() && u[m] == x;
                    assert(p[m] == x);
                    assert(after[done.len() + m] == x);
                }
            }
        }
    }
}

} // verus!
