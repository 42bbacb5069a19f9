//! Per-user admission of evaluation runs.
//!
//! A user is either idle or busy. While busy, further triggers for that user
//! are parked in a waiting set, one entry per distinct trigger name. Releasing
//! the user hands back one parked trigger, which then gets its own run.

use vstd::prelude::*;

verus! {

/// What admission knows of one user: whether a run is in flight, and the
/// triggers that arrived meanwhile.
pub type UserModel = (bool, Set<Seq<char>>);

/// The characters of each string of a list.
pub open spec fn names(v: Seq<String>) -> Seq<Seq<char>> {
    v.map_values(|s: String| s@)
}

/// The characters of an optional string.
pub open spec fn opt_chars(r: Option<String>) -> Option<Seq<char>> {
    match r {
        Some(s) => Some(s@),
        None => None,
    }
}

/// Whether `try_admit` lets a run for `user` start now.
pub open spec fn admits(before: Map<Seq<char>, UserModel>, user: Seq<char>) -> bool {
    !(before.contains_key(user) && before[user].0)
}

/// The admission state after `try_admit(user, trigger)`.
pub open spec fn after_admit(
    before: Map<Seq<char>, UserModel>,
    user: Seq<char>,
    trigger: Seq<char>,
) -> Map<Seq<char>, UserModel> {
    if !before.contains_key(user) {
        before.insert(user, (true, Set::empty()))
    } else if !before[user].0 {
        before.insert(user, (true, before[user].1))
    } else {
        before.insert(user, (true, before[user].1.insert(trigger)))
    }
}

/// One release of a user's waiting set: `out` is what `release` handed back.
pub open spec fn release_step(
    before: Set<Seq<char>>,
    out: Option<Seq<char>>,
    after: Set<Seq<char>>,
) -> bool {
    match out {
        None => before.is_empty() && after == before,
        Some(t) => before.contains(t) && after == before.remove(t),
    }
}

/// The triggers that a series of releases handed back, in order.
pub open spec fn released(outs: Seq<Option<Seq<char>>>) -> Seq<Seq<char>>
    decreases outs.len(),
{
    if outs.len() == 0 {
        Seq::empty()
    } else {
        let rest = released(outs.drop_last());
        match outs.last() {
            Some(t) => rest.push(t),
            None => rest,
        }
    }
}

/// Of an idle user, two admissions in a row let exactly one run start: the
/// first is admitted and the second is not, its trigger being parked.
pub proof fn lemma_one_run_per_user(
    before: Map<Seq<char>, UserModel>,
    user: Seq<char>,
    first: Seq<char>,
    second: Seq<char>,
)
    requires
        admits(before, user),
    ensures
        !admits(after_admit(before, user, first), user),
        after_admit(after_admit(before, user, first), user, second)[user].1.contains(second),
{
}

proof fn lemma_releases_so_far(ws: Seq<Set<Seq<char>>>, outs: Seq<Option<Seq<char>>>, n: int)
    requires
        ws.len() == outs.len() + 1,
        forall|k: int| 0 <= k < outs.len() ==> release_step(ws[k], #[trigger] outs[k], ws[k + 1]),
        0 <= n <= outs.len(),
    ensures
        released(outs.take(n)).no_duplicates(),
        released(outs.take(n)).to_set().disjoint(ws[n]),
        released(outs.take(n)).to_set() + ws[n] == ws[0],
    decreases n,
{
    if n == 0 {
        assert(released(outs.take(0)) =~= Seq::<Seq<char>>::empty());
        assert(released(outs.take(0)).to_set() =~= Set::<Seq<char>>::empty());
        assert(Set::<Seq<char>>::empty() + ws[0] =~= ws[0]);
    } else {
        lemma_releases_so_far(ws, outs, n - 1);
        let prev = released(outs.take(n - 1));
        assert(outs.take(n).drop_last() =~= outs.take(n - 1));
        assert(release_step(ws[n - 1], outs[n - 1], ws[n]));
        match outs[n - 1] {
            Some(t) => {
                assert(released(outs.take(n)) == prev.push(t));
                assert(!prev.contains(t)) by {
                    if prev.contains(t) {
                        assert(prev.to_set().contains(t));
                    }
                }
                prev.lemma_push_to_set_commute(t);
                assert forall|a: int, b: int| 0 <= a < b < prev.len() + 1 implies
                    prev.push(t)[a] != prev.push(t)[b] by {
                    if b == prev.len() {
                        assert(prev.contains(prev[a]));
                    }
                }
                assert(prev.to_set().insert(t) + ws[n] =~= ws[0]);
            },
            None => {
                assert(released(outs.take(n)) == prev);
            },
        }
    }
}

/// No parked trigger is lost: once a series of releases (with no new
/// arrivals in between) ends in a release that hands back nothing, every
/// trigger that was waiting has been handed back, and none twice.
pub proof fn lemma_no_lost_triggers(ws: Seq<Set<Seq<char>>>, outs: Seq<Option<Seq<char>>>)
    requires
        ws.len() == outs.len() + 1,
        forall|k: int| 0 <= k < outs.len() ==> release_step(ws[k], #[trigger] outs[k], ws[k + 1]),
        outs.len() > 0,
        outs.last() is None,
    ensures
        released(outs).no_duplicates(),
        released(outs).to_set() == ws[0],
{
    let n = outs.len() as int;
    lemma_releases_so_far(ws, outs, n);
    assert(outs.take(n) =~= outs);
    assert(release_step(ws[n - 1], outs[n - 1], ws[n]));
    assert(ws[n].is_empty());
    assert(released(outs).to_set() + ws[n] =~= released(outs).to_set());
}

/// One event of a busy user's waiting set: `(true, out)` is a release that
/// handed back `out`; `(false, Some(t))` is the arrival of `t`, parked.
pub open spec fn wait_step(
    before: Set<Seq<char>>,
    event: (bool, Option<Seq<char>>),
    after: Set<Seq<char>>,
) -> bool {
    if event.0 {
        release_step(before, event.1, after)
    } else {
        event.1 is Some && after == before.insert(event.1->0)
    }
}

/// The triggers parked by a series of events.
pub open spec fn parked(events: Seq<(bool, Option<Seq<char>>)>) -> Set<Seq<char>>
    decreases events.len(),
{
    if events.len() == 0 {
        Set::empty()
    } else {
        let e = events.last();
        if !e.0 && e.1 is Some {
            parked(events.drop_last()).insert(e.1->0)
        } else {
            parked(events.drop_last())
        }
    }
}

/// The triggers that the releases of a series of events handed back.
pub open spec fn handed_back(events: Seq<(bool, Option<Seq<char>>)>) -> Set<Seq<char>>
    decreases events.len(),
{
    if events.len() == 0 {
        Set::empty()
    } else {
        let e = events.last();
        if e.0 && e.1 is Some {
            handed_back(events.drop_last()).insert(e.1->0)
        } else {
            handed_back(events.drop_last())
        }
    }
}

proof fn lemma_events_so_far(ws: Seq<Set<Seq<char>>>, events: Seq<(bool, Option<Seq<char>>)>, n: int)
    requires
        ws.len() == events.len() + 1,
        forall|k: int| 0 <= k < events.len() ==> wait_step(ws[k], #[trigger] events[k], ws[k + 1]),
        0 <= n <= events.len(),
    ensures
        ws[0] + parked(events.take(n)) == handed_back(events.take(n)) + ws[n],
    decreases n,
{
    if n == 0 {
        assert(ws[0] + Set::<Seq<char>>::empty() =~= Set::<Seq<char>>::empty() + ws[0]);
        assert(events.take(0) =~= Seq::<(bool, Option<Seq<char>>)>::empty());
    } else {
        lemma_events_so_far(ws, events, n - 1);
        assert(events.take(n).drop_last() =~= events.take(n - 1));
        assert(events.take(n).last() == events[n - 1]);
        assert(wait_step(ws[n - 1], events[n - 1], ws[n]));
        let e = events[n - 1];
        let pre = events.take(n - 1);
        let lhs = ws[0] + parked(pre);
        let rhs = handed_back(pre) + ws[n - 1];
        assert(lhs == rhs);
        assert forall|x: Seq<char>| lhs.contains(x) == rhs.contains(x) by {}
        if e.0 {
            assert(parked(events.take(n)) == parked(pre));
            match e.1 {
                Some(t) => {
                    assert(handed_back(events.take(n)) == handed_back(pre).insert(t));
                    assert(ws[n - 1].contains(t));
                    assert(ws[n] == ws[n - 1].remove(t));
                    assert(ws[0] + parked(events.take(n)) =~= handed_back(events.take(n)) + ws[n]);
                },
                None => {
                    assert(handed_back(events.take(n)) == handed_back(pre));
                    assert(ws[n] == ws[n - 1]);
                    assert(ws[0] + parked(events.take(n)) =~= handed_back(events.take(n)) + ws[n]);
                },
            }
        } else {
            let t = e.1->0;
            assert(parked(events.take(n)) == parked(pre).insert(t));
            assert(handed_back(events.take(n)) == handed_back(pre));
            assert(ws[n] == ws[n - 1].insert(t));
            assert(lhs.insert(t) =~= ws[0] + parked(events.take(n)));
            assert(rhs.insert(t) =~= handed_back(events.take(n)) + ws[n]);
            assert(ws[0] + parked(events.take(n)) =~= handed_back(events.take(n)) + ws[n]);
        }
    }
}

/// No queued trigger is lost, also when triggers keep arriving: over any
/// series of arrivals and releases of a busy user that ends in a release
/// handing back nothing, the triggers handed back are exactly those that
/// were waiting at the start or arrived meanwhile; each release hands back a
/// trigger that was waiting and takes it out of the waiting set.
pub proof fn lemma_queued_triggers_handed_back(
    ws: Seq<Set<Seq<char>>>,
    events: Seq<(bool, Option<Seq<char>>)>,
)
    requires
        ws.len() == events.len() + 1,
        forall|k: int| 0 <= k < events.len() ==> wait_step(ws[k], #[trigger] events[k], ws[k + 1]),
        events.len() > 0,
        events.last() == (true, Option::<Seq<char>>::None),
    ensures
        handed_back(events) == ws[0] + parked(events),
{
    let n = events.len() as int;
    lemma_events_so_far(ws, events, n);
    assert(events.take(n) =~= events);
    assert(wait_step(ws[n - 1], events[n - 1], ws[n]));
    assert(ws[n].is_empty());
    assert(handed_back(events) + ws[n] =~= handed_back(events));
}

pub struct GateEntry {
    user: String,
    busy: bool,
    waiting: Vec<String>,
}

/// The admission gate: one entry per user that ever sent a trigger.
pub struct TriggerGate {
    entries: Vec<GateEntry>,
    model: Ghost<Map<Seq<char>, UserModel>>,
}

impl View for TriggerGate {
    type V = Map<Seq<char>, UserModel>;

    closed spec fn view(&self) -> Map<Seq<char>, UserModel> {
        self.model@
    }
}

impl TriggerGate {
    /// The admission state is consistent: users are listed once, waiting
    /// lists hold each trigger name once, and the model describes the lists.
    pub closed spec fn wf(&self) -> bool {
        &&& forall|i: int, j: int|
            0 <= i < j < self.entries@.len() ==> self.entries@[i].user@ != self.entries@[j].user@
        &&& forall|i: int|
            0 <= i < self.entries@.len() ==> (#[trigger] self.entries@[i]).waiting_ok()
        &&& forall|u: Seq<char>|
            self.model@.contains_key(u) <==> exists|i: int|
                0 <= i < self.entries@.len() && (#[trigger] self.entries@[i]).user@ == u
        &&& forall|i: int|
            0 <= i < self.entries@.len() ==> self.model@[(#[trigger] self.entries@[i]).user@]
                == self.entries@[i].model()
    }

    /// The names in the stored waiting list of `user`, in storage order.
    pub closed spec fn waiting_list(&self, user: Seq<char>) -> Seq<Seq<char>> {
        let i = choose|i: int| 0 <= i < self.entries@.len() && self.entries@[i].user@ == user;
        names(self.entries@[i].waiting@)
    }

    /// A trigger that arrives twice while its user is busy is parked once:
    /// the second arrival changes nothing, and the stored waiting list holds
    /// exactly one entry of that name.
    pub proof fn lemma_coalescing(&self, user: Seq<char>, trigger: Seq<char>)
        requires
            self.wf(),
            self@.contains_key(user),
            self@[user].0,
            self@[user].1.contains(trigger),
        ensures
            !admits(self@, user),
            after_admit(self@, user, trigger) == self@,
            self.waiting_list(user).to_multiset().count(trigger) == 1,
    {
        let m = self@;
        assert(m[user].1.insert(trigger) =~= m[user].1);
        assert(m.insert(user, (true, m[user].1)) =~= m);
        let i = choose|i: int| 0 <= i < self.entries@.len() && (#[trigger] self.entries@[i]).user@ == user;
        self.lemma_waiting_list(i);
        let w = names(self.entries@[i].waiting@);
        assert(w.to_set().contains(trigger));
        assert(w.contains(trigger));
        w.lemma_multiset_has_no_duplicates();
        vstd::seq_lib::to_multiset_contains(w, trigger);
    }

    /// Every waiting set is finite.
    pub proof fn lemma_waiting_finite(&self)
        requires
            self.wf(),
        ensures
            forall|u: Seq<char>| #[trigger] self@.contains_key(u) ==> self@[u].1.finite(),
    {
        assert forall|u: Seq<char>| #[trigger] self@.contains_key(u) implies self@[u].1.finite() by {
            let i = choose|i: int| 0 <= i < self.entries@.len() && (#[trigger] self.entries@[i]).user@ == u;
            vstd::seq_lib::seq_to_set_is_finite(names(self.entries@[i].waiting@));
        }
    }

    pub fn new() -> (g: TriggerGate)
        ensures
            g.wf(),
            g@ == Map::<Seq<char>, UserModel>::empty(),
    {
        TriggerGate { entries: Vec::new(), model: Ghost(Map::empty()) }
    }

    fn find(&self, user: &String) -> (r: Option<usize>)
        requires
            self.wf(),
        ensures
            match r {
                Some(i) => i < self.entries@.len() && self.entries@[i as int].user@ == user@,
                None => !self@.contains_key(user@),
            },
    {
        let mut i: usize = 0;
        while i < self.entries.len()
            invariant
                self.wf(),
                i <= self.entries@.len(),
                forall|k: int| 0 <= k < i ==> self.entries@[k].user@ != user@,
            decreases self.entries@.len() - i,
        {
            if self.entries[i].user == *user {
                return Some(i);
            }
            i = i + 1;
        }
        None
    }

    proof fn lemma_waiting_list(&self, i: int)
        requires
            self.wf(),
            0 <= i < self.entries@.len(),
        ensures
            self.waiting_list(self.entries@[i].user@) == names(self.entries@[i].waiting@),
            names(self.entries@[i].waiting@).no_duplicates(),
    {
        let u = self.entries@[i].user@;
        let j = choose|j: int| 0 <= j < self.entries@.len() && self.entries@[j].user@ == u;
        assert(j == i) by {
            if j < i {
                assert(self.entries@[j].user@ != self.entries@[i].user@);
            } else if i < j {
                assert(self.entries@[i].user@ != self.entries@[j].user@);
            }
        }
        assert(self.entries@[i].waiting_ok());
    }

    /// Asks to start a run for `user` because of `trigger`. Returns true when
    /// the run may start now; otherwise the user is busy and `trigger` is
    /// parked in the user's waiting set (once, however often it arrives).
    pub fn try_admit(&mut self, user: &str, trigger: &str) -> (r: bool)
        requires
            old(self).wf(),
        ensures
            final(self).wf(),
            r == admits(old(self)@, user@),
            final(self)@ == after_admit(old(self)@, user@, trigger@),
    {
        let user: String = user.to_owned();
        let trigger: String = trigger.to_owned();
        match self.find(&user) {
            None => {
                let ghost before = self.entries@;
                self.entries.push(GateEntry { user: user, busy: true, waiting: Vec::new() });
                self.model = Ghost(self.model@.insert(user@, (true, Set::empty())));
                proof {
                    let n = before.len() as int;
                    assert(names(Seq::<String>::empty()) =~= Seq::<Seq<char>>::empty());
                    assert(self.entries@[n].model() == (true, Set::<Seq<char>>::empty()));
                    assert(self.entries@[n].waiting_ok());
                    assert forall|u: Seq<char>| self.model@.contains_key(u) <==> exists|i: int|
                        0 <= i < self.entries@.len() && (#[trigger] self.entries@[i]).user@ == u by {
                        if self.model@.contains_key(u) && u != user@ {
                            let i = choose|i: int| 0 <= i < before.len() && (#[trigger] before[i]).user@ == u;
                            assert(self.entries@[i] == before[i]);
                        }
                        if exists|i: int| 0 <= i < self.entries@.len() && (#[trigger] self.entries@[i]).user@ == u {
                            let i = choose|i: int| 0 <= i < self.entries@.len() && (#[trigger] self.entries@[i]).user@ == u;
                            if i < n {
                                assert(before[i] == self.entries@[i]);
                            }
                        }
                    }
                    assert forall|i: int| 0 <= i < self.entries@.len() implies
                        self.model@[(#[trigger] self.entries@[i]).user@] == self.entries@[i].model() by {
                        if i < n {
                            assert(before[i] == self.entries@[i]);
                        }
                    }
                }
                true
            },
            Some(i) => {
                proof {
                    self.lemma_waiting_list(i as int);
                }
                let ghost before = self.entries@;
                let mut entry = self.entries.remove(i);
                let admitted = !entry.busy;
                if entry.busy {
                    entry.park(trigger);
                } else {
                    entry.busy = true;
                }
                let ghost m = entry.model();
                self.entries.insert(i, entry);
                self.model = Ghost(self.model@.insert(user@, m));
                proof {
                    assert forall|k: int| 0 <= k < self.entries@.len() && k != i implies
                        #[trigger] self.entries@[k] == before[k] by {}
                    assert forall|u: Seq<char>| self.model@.contains_key(u) <==> exists|k: int|
                        0 <= k < self.entries@.len() && (#[trigger] self.entries@[k]).user@ == u by {
                        if self.model@.contains_key(u) && u != user@ {
                            let k = choose|k: int| 0 <= k < before.len() && (#[trigger] before[k]).user@ == u;
                            assert(self.entries@[k] == before[k]);
                        }
                        if u == user@ {
                            assert(self.entries@[i as int].user@ == u);
                        }
                    }
                    assert forall|k: int| 0 <= k < self.entries@.len() implies
                        self.model@[(#[trigger] self.entries@[k]).user@] == self.entries@[k].model() by {
                        if k != i {
                            assert(before[k].user@ != before[i as int].user@);
                        }
                    }
                    assert forall|a: int, b: int| 0 <= a < b < self.entries@.len() implies
                        self.entries@[a].user@ != self.entries@[b].user@ by {
                        assert(before[a].user@ != before[b].user@);
                    }
                }
                admitted
            },
        }
    }

    /// Ends the run of `user`: the user becomes idle and, if triggers were
    /// parked meanwhile, one of them is taken out of the waiting set and
    /// returned so that it gets a run of its own. An unknown user is left
    /// as it is and yields nothing.
    pub fn release(&mut self, user: &str) -> (r: Option<String>)
        requires
            old(self).wf(),
        ensures
            final(self).wf(),
            !old(self)@.contains_key(user@) ==> r.is_none() && final(self)@ == old(self)@,
            old(self)@.contains_key(user@) ==> {
                &&& final(self)@.contains_key(user@)
                &&& final(self)@ == old(self)@.insert(user@, (false, final(self)@[user@].1))
                &&& release_step(old(self)@[user@].1, opt_chars(r), final(self)@[user@].1)
            },
    {
        let user: String = user.to_owned();
        match self.find(&user) {
            None => None,
            Some(i) => {
                proof {
                    self.lemma_waiting_list(i as int);
                }
                let ghost before = self.entries@;
                let mut entry = self.entries.remove(i);
                entry.busy = false;
                let next = entry.take_one();
                let ghost m = entry.model();
                self.entries.insert(i, entry);
                self.model = Ghost(self.model@.insert(user@, m));
                proof {
                    assert forall|k: int| 0 <= k < self.entries@.len() && k != i implies
                        #[trigger] self.entries@[k] == before[k] by {}
                    assert forall|u: Seq<char>| self.model@.contains_key(u) <==> exists|k: int|
                        0 <= k < self.entries@.len() && (#[trigger] self.entries@[k]).user@ == u by {
                        if self.model@.contains_key(u) && u != user@ {
                            let k = choose|k: int| 0 <= k < before.len() && (#[trigger] before[k]).user@ == u;
                            assert(self.entries@[k] == before[k]);
                        }
                        if u == user@ {
                            assert(self.entries@[i as int].user@ == u);
                        }
                    }
                    assert forall|k: int| 0 <= k < self.entries@.len() implies
                        self.model@[(#[trigger] self.entries@[k]).user@] == self.entries@[k].model() by {
                        if k != i {
                            assert(before[k].user@ != before[i as int].user@);
                        }
                    }
                    assert forall|a: int, b: int| 0 <= a < b < self.entries@.len() implies
                        self.entries@[a].user@ != self.entries@[b].user@ by {
                        assert(before[a].user@ != before[b].user@);
                    }
                }
                next
            },
        }
    }
}

impl GateEntry {
    pub closed spec fn waiting_ok(&self) -> bool {
        names(self.waiting@).no_duplicates()
    }

    pub closed spec fn model(&self) -> UserModel {
        (self.busy, names(self.waiting@).to_set())
    }

    /// Takes one trigger out of the waiting list, if there is one.
    fn take_one(&mut self) -> (r: Option<String>)
        requires
            old(self).waiting_ok(),
        ensures
            final(self).waiting_ok(),
            final(self).user == old(self).user,
            final(self).busy == old(self).busy,
            release_step(old(self).model().1, opt_chars(r), final(self).model().1),
    {
        let ghost before = names(self.waiting@);
        match self.waiting.pop() {
            None => {
                proof {
                    assert(before =~= Seq::<Seq<char>>::empty());
                    assert(before.to_set() =~= Set::<Seq<char>>::empty());
                }
                None
            },
            Some(t) => {
                proof {
                    let rest = names(self.waiting@);
                    assert(before =~= rest.push(t@));
                    assert(!rest.contains(t@)) by {
                        if rest.contains(t@) {
                            let j = choose|j: int| 0 <= j < rest.len() && rest[j] == t@;
                            assert(before[j] == before[before.len() - 1]);
                        }
                    }
                    rest.lemma_push_to_set_commute(t@);
                    assert(rest.to_set() =~= rest.to_set().insert(t@).remove(t@));
                    assert(rest.no_duplicates()) by {
                        assert forall|a: int, b: int| 0 <= a < rest.len() && 0 <= b < rest.len() && a != b
                            implies rest[a] != rest[b] by {
                            assert(before[a] != before[b]);
                        }
                    }
                }
                Some(t)
            },
        }
    }

    /// Adds `trigger` to the waiting list unless it is there already.
    fn park(&mut self, trigger: String)
        requires
            old(self).waiting_ok(),
        ensures
            final(self).waiting_ok(),
            final(self).user == old(self).user,
            final(self).busy == old(self).busy,
            final(self).model().1 == old(self).model().1.insert(trigger@),
    {
        let mut k: usize = 0;
        while k < self.waiting.len()
            invariant
                k <= self.waiting@.len(),
                self.waiting_ok(),
                forall|j: int| 0 <= j < k ==> self.waiting@[j]@ != trigger@,
            decreases self.waiting@.len() - k,
        {
            if self.waiting[k] == trigger {
                proof {
                    assert(names(self.waiting@)[k as int] == trigger@);
                    assert(names(self.waiting@).to_set().insert(trigger@) =~= names(self.waiting@).to_set());
                }
                return;
            }
            k = k + 1;
        }
        let ghost before = names(self.waiting@);
        self.waiting.push(trigger);
        proof {
            assert(names(self.waiting@) =~= before.push(trigger@));
            assert(!before.contains(trigger@));
            before.lemma_push_to_set_commute(trigger@);
            assert(before.push(trigger@).no_duplicates());
        }
    }
}

} // verus!
