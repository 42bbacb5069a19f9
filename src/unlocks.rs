//! The unlock store: append-only facts "user unlocked achievement at time",
//! at most one per user and achievement, and what is read from it.

use vstd::prelude::*;
use crate::catalog::AchievementDefinition;

verus! {

pub struct AchievementUnlock {
    pub username: String,
    pub achievement_id: i64,
    pub completion_time: i64,
}

/// A row as (user, achievement id, completion time).
pub type Row = (Seq<char>, i64, i64);

pub open spec fn rows_of(v: Seq<AchievementUnlock>) -> Seq<Row> {
    v.map_values(|u: AchievementUnlock| (u.username@, u.achievement_id, u.completion_time))
}

/// Whether a row for `user` and `id` is stored.
pub open spec fn has_row(rows: Seq<Row>, user: Seq<char>, id: i64) -> bool {
    exists|k: int| 0 <= k < rows.len() && (#[trigger] rows[k]).0 == user && rows[k].1 == id
}

/// No two rows share user and achievement.
pub open spec fn unique_rows(rows: Seq<Row>) -> bool {
    forall|a: int, b: int|
        0 <= a < b < rows.len() ==> !((#[trigger] rows[a]).0 == (#[trigger] rows[b]).0 && rows[a].1
            == rows[b].1)
}

/// The rows after recording an unlock: unchanged when the user holds the
/// achievement already, else with the new row appended.
pub open spec fn after_record(rows: Seq<Row>, user: Seq<char>, id: i64, time: i64) -> Seq<Row> {
    if has_row(rows, user, id) {
        rows
    } else {
        rows.push((user, id, time))
    }
}

/// How many rows are for achievement `id`.
pub open spec fn unlock_count(rows: Seq<Row>, id: i64) -> nat
    decreases rows.len(),
{
    if rows.len() == 0 {
        0
    } else {
        unlock_count(rows.drop_last(), id) + if rows.last().1 == id {
            1nat
        } else {
            0nat
        }
    }
}

/// The completion time of `user`'s unlock of `id`, if any.
pub open spec fn completion_of(rows: Seq<Row>, user: Seq<char>, id: i64) -> Option<i64>
    decreases rows.len(),
{
    if rows.len() == 0 {
        None
    } else if rows.last().0 == user && rows.last().1 == id {
        Some(rows.last().2)
    } else {
        completion_of(rows.drop_last(), user, id)
    }
}

/// The ids that `user` unlocked, in the order of the rows.
pub open spec fn unlocked_by(rows: Seq<Row>, user: Seq<char>) -> Seq<i64>
    decreases rows.len(),
{
    if rows.len() == 0 {
        Seq::empty()
    } else if rows.last().0 == user {
        unlocked_by(rows.drop_last(), user).push(rows.last().1)
    } else {
        unlocked_by(rows.drop_last(), user)
    }
}

/// What recording an unlock came to.
pub enum RecordOutcome {
    Recorded,
    /// The user held the achievement already; nothing changed.
    AlreadyExists,
}

/// The store of unlocks.
pub struct UnlockLog {
    rows: Vec<AchievementUnlock>,
}

impl View for UnlockLog {
    type V = Seq<Row>;

    closed spec fn view(&self) -> Seq<Row> {
        rows_of(self.rows@)
    }
}

impl UnlockLog {
    pub open spec fn wf(&self) -> bool {
        unique_rows(self@)
    }

    pub fn new() -> (r: UnlockLog)
        ensures
            r.wf(),
            r@ == Seq::<Row>::empty(),
    {
        let r = UnlockLog { rows: Vec::new() };
        assert(r@ =~= Seq::<Row>::empty());
        r
    }

    /// Whether `user` holds achievement `id`.
    pub fn holds(&self, user: &String, id: i64) -> (r: bool)
        ensures
            r == has_row(self@, user@, id),
    {
        let mut k: usize = 0;
        while k < self.rows.len()
            invariant
                k <= self@.len(),
                self@.len() == self.rows@.len(),
                forall|j: int| 0 <= j < k ==> !((#[trigger] self@[j]).0 == user@ && self@[j].1 == id),
            decreases self@.len() - k,
        {
            assert(self@[k as int] == (self.rows@[k as int].username@, self.rows@[k as int].achievement_id, self.rows@[k as int].completion_time));
            if self.rows[k].achievement_id == id && self.rows[k].username == *user {
                return true;
            }
            k = k + 1;
        }
        false
    }

    /// Records that `user` unlocked `id` at `time`. Recording an unlock that
    /// is stored already is no error and changes nothing.
    pub fn record_unlock(&mut self, user: &str, id: i64, time: i64) -> (r: RecordOutcome)
        requires
            old(self).wf(),
        ensures
            final(self).wf(),
            final(self)@ == after_record(old(self)@, user@, id, time),
            r is AlreadyExists <==> has_row(old(self)@, user@, id),
    {
        let name: String = user.to_owned();
        if self.holds(&name, id) {
            return RecordOutcome::AlreadyExists;
        }
        let ghost before = self@;
        self.rows.push(AchievementUnlock { username: name, achievement_id: id, completion_time: time });
        assert(self@ =~= before.push((user@, id, time)));
        assert forall|a: int, b: int| 0 <= a < b < self@.len() implies
            !((#[trigger] self@[a]).0 == (#[trigger] self@[b]).0 && self@[a].1 == self@[b].1) by {
            if b == before.len() {
                assert(self@[a] == before[a]);
            } else {
                assert(self@[a] == before[a] && self@[b] == before[b]);
            }
        }
        RecordOutcome::Recorded
    }

    /// How many users unlocked achievement `id`.
    pub fn count_unlocks(&self, id: i64) -> (r: usize)
        ensures
            r == unlock_count(self@, id),
    {
        let mut count: usize = 0;
        let mut k: usize = 0;
        while k < self.rows.len()
            invariant
                k <= self@.len(),
                self@.len() == self.rows@.len(),
                count <= k,
                count == unlock_count(self@.take(k as int), id),
            decreases self@.len() - k,
        {
            assert(self@.take(k + 1).drop_last() =~= self@.take(k as int));
            assert(self@[k as int].1 == self.rows@[k as int].achievement_id);
            if self.rows[k].achievement_id == id {
                count = count + 1;
            }
            k = k + 1;
        }
        assert(self@.take(k as int) =~= self@);
        count
    }

    /// When `user` unlocked `id`, if they did.
    pub fn completion_time(&self, user: &String, id: i64) -> (r: Option<i64>)
        ensures
            r == completion_of(self@, user@, id),
    {
        let mut k: usize = self.rows.len();
        assert(self@.take(k as int) =~= self@);
        while k > 0
            invariant
                k <= self@.len(),
                self@.len() == self.rows@.len(),
                completion_of(self@, user@, id) == completion_of(self@.take(k as int), user@, id),
            decreases k,
        {
            let ghost pre = self@.take(k as int);
            assert(pre.drop_last() =~= self@.take(k - 1));
            assert(pre.last() == (self.rows@[k - 1].username@, self.rows@[k - 1].achievement_id, self.rows@[k - 1].completion_time));
            if self.rows[k - 1].achievement_id == id && self.rows[k - 1].username == *user {
                return Some(self.rows[k - 1].completion_time);
            }
            k = k - 1;
        }
        None
    }

    /// The ids of the achievements that `user` unlocked.
    pub fn completed_achievements(&self, user: &str) -> (r: Vec<i64>)
        ensures
            r@ == unlocked_by(self@, user@),
    {
        let name: String = user.to_owned();
        let mut r: Vec<i64> = Vec::new();
        let mut k: usize = 0;
        while k < self.rows.len()
            invariant
                name@ == user@,
                k <= self@.len(),
                self@.len() == self.rows@.len(),
                r@ == unlocked_by(self@.take(k as int), user@),
            decreases self@.len() - k,
        {
            assert(self@.take(k + 1).drop_last() =~= self@.take(k as int));
            assert(self@.take(k + 1).last() == (self.rows@[k as int].username@, self.rows@[k as int].achievement_id, self.rows@[k as int].completion_time));
            if self.rows[k].username == name {
                r.push(self.rows[k].achievement_id);
            }
            k = k + 1;
        }
        assert(self@.take(k as int) =~= self@);
        r
    }
}

/// Recording the same unlock twice leaves one row: the second recording
/// changes nothing, and the store holds exactly one row for that user and
/// achievement.
pub proof fn lemma_idempotent_unlock(rows: Seq<Row>, user: Seq<char>, id: i64, first: i64, second: i64)
    requires
        unique_rows(rows),
    ensures
        after_record(after_record(rows, user, id, first), user, id, second) == after_record(
            rows,
            user,
            id,
            first,
        ),
        has_row(after_record(rows, user, id, first), user, id),
        unique_rows(after_record(rows, user, id, first)),
{
    let once = after_record(rows, user, id, first);
    if !has_row(rows, user, id) {
        assert(once[rows.len() as int] == (user, id, first));
        assert forall|a: int, b: int| 0 <= a < b < once.len() implies
            !((#[trigger] once[a]).0 == (#[trigger] once[b]).0 && once[a].1 == once[b].1) by {
            if b == rows.len() {
                assert(once[a] == rows[a]);
            } else {
                assert(once[a] == rows[a] && once[b] == rows[b]);
            }
        }
    }
}

/// What a user sees of an achievement.
pub struct PublicAchievement {
    pub id: i64,
    pub name: String,
    /// The locked or the unlocked description, by the user's state.
    pub description: String,
    /// When the user unlocked it, if they did.
    pub completed: Option<i64>,
    /// How many users unlocked it.
    pub unlocks: usize,
}

/// A public view as (id, name, description, completion time, unlocks).
pub type PublicRow = (i64, Seq<char>, Seq<char>, Option<i64>, nat);

pub open spec fn public_row(p: PublicAchievement) -> PublicRow {
    (p.id, p.name@, p.description@, p.completed, p.unlocks as nat)
}

/// What `user` sees of the achievement `d`.
pub open spec fn view_for(d: AchievementDefinition, rows: Seq<Row>, user: Seq<char>) -> PublicRow {
    let done = completion_of(rows, user, d.id);
    (
        d.id,
        d.name@,
        if done is Some {
            d.completed_description@
        } else {
            d.open_description@
        },
        done,
        unlock_count(rows, d.id),
    )
}

/// Whether `user` gets to see `d`: hidden achievements only once unlocked.
pub open spec fn visible(d: AchievementDefinition, rows: Seq<Row>, user: Seq<char>) -> bool {
    !d.hidden || completion_of(rows, user, d.id) is Some
}

/// The achievements that `user` sees, in catalog order.
pub open spec fn listing(catalog: Seq<AchievementDefinition>, rows: Seq<Row>, user: Seq<char>) -> Seq<
    PublicRow,
>
    decreases catalog.len(),
{
    if catalog.len() == 0 {
        Seq::empty()
    } else {
        let rest = listing(catalog.drop_last(), rows, user);
        if visible(catalog.last(), rows, user) {
            rest.push(view_for(catalog.last(), rows, user))
        } else {
            rest
        }
    }
}

/// What `user` sees of the achievement `d`.
pub fn public_view(d: &AchievementDefinition, log: &UnlockLog, user: &String) -> (r: PublicAchievement)
    ensures
        public_row(r) == view_for(*d, log@, user@),
{
    let done = log.completion_time(user, d.id);
    let description = if done.is_some() {
        d.completed_description.clone()
    } else {
        d.open_description.clone()
    };
    PublicAchievement {
        id: d.id,
        name: d.name.clone(),
        description: description,
        completed: done,
        unlocks: log.count_unlocks(d.id),
    }
}

/// The achievements that `user` sees, in catalog order, each with the
/// description for the user's state and its unlock count.
pub fn achievements(catalog: &Vec<AchievementDefinition>, log: &UnlockLog, user: &str) -> (r: Vec<
    PublicAchievement,
>)
    ensures
        r@.map_values(|p: PublicAchievement| public_row(p)) == listing(catalog@, log@, user@),
{
    let name: String = user.to_owned();
    let mut r: Vec<PublicAchievement> = Vec::new();
    let mut i: usize = 0;
    while i < catalog.len()
        invariant
            name@ == user@,
            i <= catalog@.len(),
            r@.map_values(|p: PublicAchievement| public_row(p)) == listing(catalog@.take(i as int), log@, user@),
        decreases catalog@.len() - i,
    {
        assert(catalog@.take(i + 1).drop_last() =~= catalog@.take(i as int));
        assert(catalog@.take(i + 1).last() == catalog@[i as int]);
        let d = &catalog[i];
        let v = public_view(d, log, &name);
        if !d.hidden || v.completed.is_some() {
            let ghost before = r@.map_values(|p: PublicAchievement| public_row(p));
            r.push(v);
            assert(r@.map_values(|p: PublicAchievement| public_row(p)) =~= before.push(public_row(v)));
        }
        i = i + 1;
    }
    assert(catalog@.take(i as int) =~= catalog@);
    r
}

/// The first entry of the catalog with id `id`.
pub open spec fn entry_index(catalog: Seq<AchievementDefinition>, id: i64) -> int
    decreases catalog.len(),
{
    if catalog.len() == 0 {
        -1
    } else if catalog[0].id == id {
        0
    } else if entry_index(catalog.drop_first(), id) < 0 {
        -1
    } else {
        entry_index(catalog.drop_first(), id) + 1
    }
}

proof fn lemma_entry_index(catalog: Seq<AchievementDefinition>, id: i64)
    ensures
        -1 <= entry_index(catalog, id) < catalog.len(),
        entry_index(catalog, id) >= 0 ==> catalog[entry_index(catalog, id)].id == id,
        entry_index(catalog, id) < 0 ==> forall|k: int| 0 <= k < catalog.len() ==> (#[trigger] catalog[k]).id != id,
    decreases catalog.len(),
{
    if catalog.len() > 0 {
        lemma_entry_index(catalog.drop_first(), id);
        assert forall|k: int| 0 < k < catalog.len() implies (#[trigger] catalog[k]) == catalog.drop_first()[k - 1] by {}
    }
}

/// Records that `user` unlocked `id` at `time` and returns what the user is
/// to be told: the achievement's public view after the unlock. An id that
/// the catalog lacks is refused: nothing is recorded and nothing told, since
/// every unlock refers to an achievement of the catalog.
pub fn set_achievement_completed(
    log: &mut UnlockLog,
    catalog: &Vec<AchievementDefinition>,
    user: &str,
    id: i64,
    time: i64,
) -> (r: Option<PublicAchievement>)
    requires
        old(log).wf(),
    ensures
        final(log).wf(),
        entry_index(catalog@, id) < 0 ==> r is None && final(log)@ == old(log)@,
        entry_index(catalog@, id) >= 0 ==> final(log)@ == after_record(old(log)@, user@, id, time),
        entry_index(catalog@, id) >= 0 ==> (r matches Some(p) && public_row(p) == view_for(
            catalog@[entry_index(catalog@, id)],
            final(log)@,
            user@,
        )),
{
    let name: String = user.to_owned();
    proof {
        lemma_entry_index(catalog@, id);
    }
    let mut i: usize = 0;
    while i < catalog.len()
        invariant
            i <= catalog@.len(),
            name@ == user@,
            log.wf(),
            log@ == old(log)@,
            forall|k: int| 0 <= k < i ==> (#[trigger] catalog@[k]).id != id,
        decreases catalog@.len() - i,
    {
        if catalog[i].id == id {
            proof {
                lemma_first_entry(catalog@, id, i as int);
            }
            let _ = log.record_unlock(user, id, time);
            return Some(public_view(&catalog[i], log, &name));
        }
        i = i + 1;
    }
    proof {
        if entry_index(catalog@, id) >= 0 {
            assert(catalog@[entry_index(catalog@, id)].id == id);
        }
    }
    None
}

proof fn lemma_first_entry(catalog: Seq<AchievementDefinition>, id: i64, i: int)
    requires
        0 <= i < catalog.len(),
        catalog[i].id == id,
        forall|k: int| 0 <= k < i ==> (#[trigger] catalog[k]).id != id,
    ensures
        entry_index(catalog, id) == i,
    decreases i,
{
    if i > 0 {
        assert forall|k: int| 0 <= k < i - 1 implies (#[trigger] catalog.drop_first()[k]).id != id by {
            assert(catalog.drop_first()[k] == catalog[k + 1]);
        }
        lemma_first_entry(catalog.drop_first(), id, i - 1);
    }
}

} // verus!
