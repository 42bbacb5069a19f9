//! Skill points: a table from skill name to points, kept in ascending
//! lexicographic order of the names, and the level scale over total points.

use vstd::prelude::*;

verus! {

/// Lexicographic order of texts, character by character (the order of
/// Rust's `str`, whose byte order agrees with the order of code points).
pub open spec fn text_lt(a: Seq<char>, b: Seq<char>) -> bool
    decreases a.len(),
{
    if a.len() == 0 {
        b.len() > 0
    } else if b.len() == 0 {
        false
    } else if a[0] != b[0] {
        (a[0] as int) < (b[0] as int)
    } else {
        text_lt(a.drop_first(), b.drop_first())
    }
}

pub proof fn lemma_text_lt_transitive(a: Seq<char>, b: Seq<char>, c: Seq<char>)
    requires
        text_lt(a, b),
        text_lt(b, c),
    ensures
        text_lt(a, c),
    decreases a.len(),
{
    if a.len() > 0 && b.len() > 0 && c.len() > 0 && a[0] == b[0] && b[0] == c[0] {
        lemma_text_lt_transitive(a.drop_first(), b.drop_first(), c.drop_first());
    }
}

pub proof fn lemma_text_lt_irreflexive(a: Seq<char>)
    ensures
        !text_lt(a, a),
    decreases a.len(),
{
    if a.len() > 0 {
        lemma_text_lt_irreflexive(a.drop_first());
    }
}

pub proof fn lemma_text_lt_total(a: Seq<char>, b: Seq<char>)
    ensures
        a == b || text_lt(a, b) || text_lt(b, a),
        !(text_lt(a, b) && text_lt(b, a)),
        !text_lt(a, a),
    decreases a.len(),
{
    lemma_text_lt_irreflexive(a);
    if a.len() > 0 && b.len() > 0 && a[0] == b[0] {
        lemma_text_lt_total(a.drop_first(), b.drop_first());
        if a.drop_first() == b.drop_first() {
            assert(a =~= seq![a[0]] + a.drop_first());
            assert(b =~= seq![b[0]] + b.drop_first());
        }
    }
    if a.len() == 0 && b.len() == 0 {
        assert(a =~= b);
    }
}

/// Whether `a` comes strictly before `b`.
pub fn text_less(a: &String, b: &String) -> (r: bool)
    ensures
        r == text_lt(a@, b@),
{
    let sa = a.as_str();
    let sb = b.as_str();
    let na = sa.unicode_len();
    let nb = sb.unicode_len();
    let mut i: usize = 0;
    assert(a@.skip(0) =~= a@);
    assert(b@.skip(0) =~= b@);
    while i < na && i < nb
        invariant
            na == a@.len(),
            nb == b@.len(),
            sa@ == a@,
            sb@ == b@,
            i <= na,
            i <= nb,
            text_lt(a@, b@) == text_lt(a@.skip(i as int), b@.skip(i as int)),
        decreases na - i,
    {
        let ca = sa.get_char(i);
        let cb = sb.get_char(i);
        let ghost x = a@.skip(i as int);
        let ghost y = b@.skip(i as int);
        assert(x[0] == ca && y[0] == cb);
        if ca != cb {
            return (ca as u32) < (cb as u32);
        }
        assert(x.drop_first() =~= a@.skip(i + 1));
        assert(y.drop_first() =~= b@.skip(i + 1));
        i = i + 1;
    }
    i == na && i < nb
}

pub struct SkillEntry {
    pub skill: String,
    pub points: u64,
}

/// The entries of a table as (name, points) pairs.
pub open spec fn pairs(v: Seq<SkillEntry>) -> Seq<(Seq<char>, u64)> {
    v.map_values(|e: SkillEntry| (e.skill@, e.points))
}

/// The points stored under `skill`, if any.
pub open spec fn lookup(t: Seq<(Seq<char>, u64)>, skill: Seq<char>) -> Option<u64>
    decreases t.len(),
{
    if t.len() == 0 {
        None
    } else if t[0].0 == skill {
        Some(t[0].1)
    } else {
        lookup(t.drop_first(), skill)
    }
}

/// Names in strictly ascending order (so each name once).
pub open spec fn ascending(t: Seq<(Seq<char>, u64)>) -> bool {
    forall|i: int, j: int| 0 <= i < j < t.len() ==> text_lt(t[i].0, t[j].0)
}

/// A table from skill name to points. The pseudo-skill "total" is an
/// ordinary entry of it.
pub struct SkillTable {
    entries: Vec<SkillEntry>,
}

impl View for SkillTable {
    type V = Seq<(Seq<char>, u64)>;

    closed spec fn view(&self) -> Seq<(Seq<char>, u64)> {
        pairs(self.entries@)
    }
}

pub proof fn lemma_lookup_index(t: Seq<(Seq<char>, u64)>, skill: Seq<char>)
    requires
        ascending(t),
    ensures
        lookup(t, skill) is None <==> forall|i: int| 0 <= i < t.len() ==> t[i].0 != skill,
        forall|i: int| 0 <= i < t.len() && (#[trigger] t[i]).0 == skill ==> lookup(t, skill) == Some(t[i].1),
    decreases t.len(),
{
    if t.len() > 0 {
        let r = t.drop_first();
        assert(ascending(r)) by {
            assert forall|i: int, j: int| 0 <= i < j < r.len() implies text_lt(r[i].0, r[j].0) by {
                assert(r[i] == t[i + 1] && r[j] == t[j + 1]);
            }
        }
        lemma_lookup_index(r, skill);
        assert forall|i: int| 0 <= i < t.len() && t[i].0 == skill implies lookup(t, skill) == Some(t[i].1) by {
            if i > 0 {
                assert(r[i - 1] == t[i]);
                if t[0].0 == skill {
                    assert(text_lt(t[0].0, t[i].0));
                    lemma_text_lt_total(skill, skill);
                }
            }
        }
        if lookup(t, skill) is None {
            assert forall|i: int| 0 <= i < t.len() implies t[i].0 != skill by {
                if i > 0 {
                    assert(r[i - 1] == t[i]);
                }
            }
        }
        if forall|i: int| 0 <= i < t.len() ==> t[i].0 != skill {
            assert forall|i: int| 0 <= i < r.len() implies r[i].0 != skill by {
                assert(r[i] == t[i + 1]);
            }
        }
    }
}

impl SkillTable {
    /// Names in strictly ascending order, so each name once.
    pub open spec fn wf(&self) -> bool {
        ascending(self@)
    }

    pub fn new() -> (t: SkillTable)
        ensures
            t.wf(),
            t@ == Seq::<(Seq<char>, u64)>::empty(),
    {
        let t = SkillTable { entries: Vec::new() };
        assert(t@ =~= Seq::<(Seq<char>, u64)>::empty());
        t
    }

    pub fn len(&self) -> (n: usize)
        ensures
            n == self@.len(),
    {
        self.entries.len()
    }

    /// The name and points of the `i`-th skill in ascending name order.
    pub fn entry(&self, i: usize) -> (r: (&String, u64))
        requires
            i < self@.len(),
        ensures
            r.0@ == self@[i as int].0,
            r.1 == self@[i as int].1,
    {
        (&self.entries[i].skill, self.entries[i].points)
    }

    /// The points stored under `skill`, if any.
    pub fn get(&self, skill: &String) -> (r: Option<u64>)
        requires
            self.wf(),
        ensures
            r == lookup(self@, skill@),
    {
        proof {
            lemma_lookup_index(self@, skill@);
        }
        let mut i: usize = 0;
        while i < self.entries.len()
            invariant
                self.wf(),
                i <= self@.len(),
                self@.len() == self.entries@.len(),
                forall|k: int| 0 <= k < i ==> self@[k].0 != skill@,
            decreases self@.len() - i,
        {
            assert(self@[i as int] == (self.entries@[i as int].skill@, self.entries@[i as int].points));
            if self.entries[i].skill == *skill {
                proof {
                    lemma_lookup_index(self@, skill@);
                }
                assert(self@[i as int].0 == skill@);
                return Some(self.entries[i].points);
            }
            i = i + 1;
        }
        proof {
            lemma_lookup_index(self@, skill@);
        }
        None
    }

    /// Adds `points` to the skill `name`, creating the entry with zero points
    /// first if it is missing. The sum saturates at `u64::MAX`.
    pub fn add_points(&mut self, name: &str, points: u64)
        requires
            old(self).wf(),
        ensures
            final(self).wf(),
            forall|k: Seq<char>| k != name@ ==> lookup(final(self)@, k) == lookup(old(self)@, k),
            lookup(final(self)@, name@) == Some(
                match lookup(old(self)@, name@) {
                    Some(p) => sat_add(p as int, points as int),
                    None => points,
                },
            ),
    {
        let skill: String = name.to_owned();
        proof {
            lemma_lookup_index(self@, skill@);
        }
        let ghost before = self@;
        let mut i: usize = 0;
        let mut stop = false;
        while i < self.entries.len() && !stop
            invariant
                self@ == before,
                before == old(self)@,
                skill@ == name@,
                ascending(before),
                i <= before.len(),
                self.entries@.len() == before.len(),
                forall|k: int| 0 <= k < i ==> text_lt(#[trigger] before[k].0, skill@),
                stop ==> i < before.len() && text_lt(skill@, before[i as int].0),
            decreases before.len() - i + (if stop { 0int } else { 1int }),
        {
            assert(before[i as int] == (self.entries@[i as int].skill@, self.entries@[i as int].points));
            if self.entries[i].skill == skill {
                let p = self.entries[i].points;
                let sum = p.saturating_add(points);
                self.entries.set(i, SkillEntry { skill: skill, points: sum });
                proof {
                    assert(self@ =~= before.update(i as int, (skill@, sum)));
                    assert forall|a: int, b: int| 0 <= a < b < self@.len() implies text_lt(self@[a].0, self@[b].0) by {
                        assert(self@[a].0 == before[a].0 && self@[b].0 == before[b].0);
                    }
                    lemma_lookup_index(self@, skill@);
                    lemma_lookup_index(before, skill@);
                    assert(self@[i as int] == (skill@, sum));
                    assert(before[i as int] == (skill@, p));
                    assert forall|k: Seq<char>| k != skill@ implies lookup(self@, k) == lookup(before, k) by {
                        lemma_lookup_index(self@, k);
                        lemma_lookup_index(before, k);
                        if lookup(before, k) is Some {
                            let j = choose|j: int| 0 <= j < before.len() && before[j].0 == k;
                            assert(self@[j] == before[j]);
                        }
                        if lookup(self@, k) is Some {
                            let j = choose|j: int| 0 <= j < self@.len() && self@[j].0 == k;
                            assert(self@[j] == before[j]);
                        }
                    }
                }
                return;
            }
            if text_less(&skill, &self.entries[i].skill) {
                stop = true;
            } else {
                proof {
                    lemma_text_lt_total(skill@, before[i as int].0);
                }
                i = i + 1;
            }
        }
        proof {
            assert forall|k: int| 0 <= k < before.len() implies before[k].0 != skill@ by {
                lemma_text_lt_total(skill@, skill@);
                if k >= i {
                    if k > i {
                        lemma_text_lt_transitive(skill@, before[i as int].0, before[k].0);
                    }
                }
            }
        }
        self.entries.insert(i, SkillEntry { skill: skill, points: points });
        proof {
            assert(self@ =~= before.insert(i as int, (skill@, points)));
            assert forall|a: int, b: int| 0 <= a < b < self@.len() implies text_lt(self@[a].0, self@[b].0) by {
                if b < i {
                } else if a < i && b == i {
                } else if a < i && b > i {
                    assert(self@[b] == before[b - 1]);
                    assert(text_lt(before[a].0, skill@));
                    assert(text_lt(skill@, before[i as int].0));
                    if b - 1 > i {
                        lemma_text_lt_transitive(skill@, before[i as int].0, before[b - 1].0);
                    }
                    lemma_text_lt_transitive(before[a].0, skill@, before[b - 1].0);
                } else if a == i {
                    assert(self@[b] == before[b - 1]);
                    if b - 1 > i {
                        lemma_text_lt_transitive(skill@, before[i as int].0, before[b - 1].0);
                    }
                } else {
                    assert(self@[a] == before[a - 1] && self@[b] == before[b - 1]);
                }
            }
            lemma_lookup_index(self@, skill@);
            assert(self@[i as int] == (skill@, points));
            assert forall|k: Seq<char>| k != skill@ implies lookup(self@, k) == lookup(before, k) by {
                lemma_lookup_index(self@, k);
                lemma_lookup_index(before, k);
                if lookup(before, k) is Some {
                    let j = choose|j: int| 0 <= j < before.len() && before[j].0 == k;
                    if j < i {
                        assert(self@[j] == before[j]);
                    } else {
                        assert(self@[j + 1] == before[j]);
                    }
                }
                if lookup(self@, k) is Some {
                    let j = choose|j: int| 0 <= j < self@.len() && self@[j].0 == k;
                    if j < i {
                        assert(self@[j] == before[j]);
                    } else if j > i {
                        assert(self@[j] == before[j - 1]);
                    }
                }
            }
        }
    }
}

/// `a + b`, or `u64::MAX` where the sum does not fit.
pub open spec fn sat_add(a: int, b: int) -> u64 {
    if a + b > u64::MAX {
        u64::MAX
    } else {
        (a + b) as u64
    }
}

/// The name of the pseudo-skill that holds the sum over all tasks.
pub const TOTAL: &'static str = "total";

/// The points that reaching level `lvl` takes; beyond the last level the
/// last value holds. Level 0 stands for no level and is never reached.
pub open spec fn level_floor(lvl: int) -> int {
    if lvl <= 0 {
        100000000
    } else if lvl == 1 {
        0
    } else if lvl == 2 {
        15
    } else if lvl == 3 {
        50
    } else if lvl == 4 {
        100
    } else if lvl == 5 {
        170
    } else if lvl == 6 {
        250
    } else if lvl == 7 {
        340
    } else if lvl == 8 {
        450
    } else if lvl == 9 {
        570
    } else if lvl == 10 {
        700
    } else if lvl == 11 {
        840
    } else if lvl == 12 {
        1080
    } else {
        1400
    }
}

/// The highest level.
pub const MAX_LEVEL: u64 = 13;

/// The points that reaching level `lvl` takes.
pub fn level_to_points(lvl: u64) -> (r: u64)
    ensures
        r == level_floor(lvl as int),
{
    if lvl == 0 {
        100000000
    } else if lvl == 1 {
        0
    } else if lvl == 2 {
        15
    } else if lvl == 3 {
        50
    } else if lvl == 4 {
        100
    } else if lvl == 5 {
        170
    } else if lvl == 6 {
        250
    } else if lvl == 7 {
        340
    } else if lvl == 8 {
        450
    } else if lvl == 9 {
        570
    } else if lvl == 10 {
        700
    } else if lvl == 11 {
        840
    } else if lvl == 12 {
        1080
    } else {
        1400
    }
}

/// The level that `points` reach: the highest level whose floor they meet.
pub fn points_to_level(points: u64) -> (r: u64)
    ensures
        1 <= r <= MAX_LEVEL,
        level_floor(r as int) <= points,
        forall|l: int| r < l <= MAX_LEVEL ==> points < level_floor(l),
{
    let mut lvl: u64 = MAX_LEVEL;
    while lvl > 1
        invariant
            1 <= lvl <= MAX_LEVEL,
            forall|l: int| lvl < l <= MAX_LEVEL ==> points < level_floor(l),
        decreases lvl,
    {
        if points >= level_to_points(lvl) {
            return lvl;
        }
        lvl = lvl - 1;
    }
    lvl
}

/// Every skill of `user` has at least half the points of the same skill in
/// `global` (a skill missing from `global` fails).
pub open spec fn half_everywhere(user: Seq<(Seq<char>, u64)>, global: Seq<(Seq<char>, u64)>) -> bool {
    forall|i: int|
        0 <= i < user.len() ==> match lookup(global, (#[trigger] user[i]).0) {
            Some(g) => 2 * user[i].1 >= g,
            None => false,
        }
}

/// How many skills of `user` hold exactly the points of the same skill in
/// `global`.
pub open spec fn maxed_count(user: Seq<(Seq<char>, u64)>, global: Seq<(Seq<char>, u64)>) -> nat
    decreases user.len(),
{
    if user.len() == 0 {
        0
    } else {
        maxed_count(user.drop_last(), global) + if lookup(global, user.last().0) == Some(
            user.last().1,
        ) {
            1nat
        } else {
            0nat
        }
    }
}

/// Every skill of the table has more than zero points.
pub open spec fn all_positive(t: Seq<(Seq<char>, u64)>) -> bool {
    forall|i: int| 0 <= i < t.len() ==> (#[trigger] t[i]).1 > 0
}

/// Whether each skill of `user` reaches half of the maximum in `global`.
pub fn half_of_max_everywhere(user: &SkillTable, global: &SkillTable) -> (r: bool)
    requires
        global.wf(),
    ensures
        r == half_everywhere(user@, global@),
{
    let mut i: usize = 0;
    while i < user.len()
        invariant
            global.wf(),
            i <= user@.len(),
            forall|k: int| 0 <= k < i ==> match lookup(global@, (#[trigger] user@[k]).0) {
                Some(g) => 2 * user@[k].1 >= g,
                None => false,
            },
        decreases user@.len() - i,
    {
        let (name, p) = user.entry(i);
        match global.get(name) {
            Some(g) => {
                if (p as u128) * 2 < g as u128 {
                    return false;
                }
            },
            None => {
                return false;
            },
        }
        i = i + 1;
    }
    true
}

/// How many skills of `user` are at the maximum that `global` gives.
pub fn count_maxed_skills(user: &SkillTable, global: &SkillTable) -> (r: usize)
    requires
        global.wf(),
    ensures
        r == maxed_count(user@, global@),
{
    let mut i: usize = 0;
    let mut count: usize = 0;
    while i < user.len()
        invariant
            global.wf(),
            i <= user@.len(),
            count <= i,
            count == maxed_count(user@.take(i as int), global@),
        decreases user@.len() - i,
    {
        let (name, p) = user.entry(i);
        assert(user@.take(i + 1).drop_last() =~= user@.take(i as int));
        if global.get(name) == Some(p) {
            count = count + 1;
        }
        i = i + 1;
    }
    assert(user@.take(i as int) =~= user@);
    count
}

/// Whether every skill of the table has points.
pub fn every_skill_positive(t: &SkillTable) -> (r: bool)
    ensures
        r == all_positive(t@),
{
    let mut i: usize = 0;
    while i < t.len()
        invariant
            i <= t@.len(),
            forall|k: int| 0 <= k < i ==> (#[trigger] t@[k]).1 > 0,
        decreases t@.len() - i,
    {
        let (_, p) = t.entry(i);
        if p == 0 {
            return false;
        }
        i = i + 1;
    }
    true
}

/// The skills of a table other than the pseudo-skill "total", in table
/// (ascending name) order: the vertices of the balance polygon.
pub open spec fn polygon_skills(t: Seq<(Seq<char>, u64)>) -> Seq<(Seq<char>, u64)>
    decreases t.len(),
{
    if t.len() == 0 {
        Seq::empty()
    } else if t.last().0 == TOTAL@ {
        polygon_skills(t.drop_last())
    } else {
        polygon_skills(t.drop_last()).push(t.last())
    }
}

/// Points of `user` at each vertex (zero where the user has none).
pub open spec fn user_corners(
    vertices: Seq<(Seq<char>, u64)>,
    user: Seq<(Seq<char>, u64)>,
) -> Seq<int> {
    vertices.map_values(
        |e: (Seq<char>, u64)|
            match lookup(user, e.0) {
                Some(p) => p as int,
                None => 0int,
            },
    )
}

/// Points of the vertices themselves.
pub open spec fn corners(vertices: Seq<(Seq<char>, u64)>) -> Seq<int> {
    vertices.map_values(|e: (Seq<char>, u64)| e.1 as int)
}

/// Sum of the products of neighbouring corners, over the first `k` edges of
/// the closed polygon `v`. Over all edges it is the polygon's area up to the
/// factor `sin(2*pi/n)/2` that every polygon of `n` corners shares.
pub open spec fn edge_sum(v: Seq<int>, k: int) -> int
    decreases k,
{
    if k <= 0 || v.len() == 0 {
        0
    } else {
        edge_sum(v, k - 1) + v[k - 1] * v[k % (v.len() as int)]
    }
}

/// The area of the user's polygon is at least half the area of the polygon
/// of the maximum points. Where the maximal polygon has no area the ratio is
/// undefined and the rule does not hold.
pub open spec fn balanced(user: Seq<(Seq<char>, u64)>, global: Seq<(Seq<char>, u64)>) -> bool {
    let vs = polygon_skills(global);
    let ua = edge_sum(user_corners(vs, user), vs.len() as int);
    let ga = edge_sum(corners(vs), vs.len() as int);
    &&& ga > 0
    &&& 2 * ua >= ga
}

/// One more than `u128::MAX`: the weight of the high word of a wide number.
pub open spec fn word() -> int {
    u128::MAX as int + 1
}

/// The number that a high and a low word stand for.
pub open spec fn wide(hi: u128, lo: u128) -> int {
    hi * word() + lo
}

/// Whether the wide number `(ah, al)` is at least `(bh, bl)`.
fn wide_at_least(ah: u128, al: u128, bh: u128, bl: u128) -> (r: bool)
    ensures
        r == (wide(ah, al) >= wide(bh, bl)),
{
    if ah > bh {
        assert(wide(ah, al) >= wide(bh, bl)) by (nonlinear_arith)
            requires
                ah >= bh + 1,
                al >= 0,
                bl < word(),
                word() > 0,
        ;
        true
    } else if ah < bh {
        assert(wide(ah, al) < wide(bh, bl)) by (nonlinear_arith)
            requires
                bh >= ah + 1,
                bl >= 0,
                al < word(),
                word() > 0,
        ;
        false
    } else {
        al >= bl
    }
}

/// `(ah, al) - (bh, bl)`, where the first is the larger.
fn wide_minus(ah: u128, al: u128, bh: u128, bl: u128) -> (r: (u128, u128))
    requires
        wide(ah, al) >= wide(bh, bl),
    ensures
        wide(r.0, r.1) == wide(ah, al) - wide(bh, bl),
{
    if al >= bl {
        assert(ah >= bh) by (nonlinear_arith)
            requires
                ah * word() + al >= bh * word() + bl,
                al < word(),
                bl >= 0,
                word() > 0,
        ;
        assert((ah - bh) * word() == ah * word() - bh * word()) by (nonlinear_arith);
        (ah - bh, al - bl)
    } else {
        assert(ah >= bh + 1) by (nonlinear_arith)
            requires
                ah * word() + al >= bh * word() + bl,
                al < bl,
                bl < word(),
                al >= 0,
                word() > 0,
        ;
        assert((ah - bh - 1) * word() == ah * word() - bh * word() - word()) by (nonlinear_arith);
        (ah - bh - 1, al + (u128::MAX - bl) + 1)
    }
}

/// The edge sum of the corners `v`, as a high and a low word.
fn edge_sum_of(v: &Vec<u64>) -> (r: (u128, u128))
    ensures
        wide(r.0, r.1) == edge_sum(v@.map_values(|p: u64| p as int), v@.len() as int),
{
    let ghost w = v@.map_values(|p: u64| p as int);
    let n = v.len();
    let mut k: usize = 0;
    let mut hi: u128 = 0;
    let mut lo: u128 = 0;
    while k < n
        invariant
            n == v@.len(),
            w == v@.map_values(|p: u64| p as int),
            k <= n,
            hi <= k,
            wide(hi, lo) == edge_sum(w, k as int),
        decreases n - k,
    {
        let a = v[k];
        let b = v[(k + 1) % n];
        assert(w[k as int] == a && w[(k as int + 1) % (n as int)] == b);
        assert((a as int) * (b as int) <= (u64::MAX as int) * (u64::MAX as int)) by (nonlinear_arith)
            requires
                a <= u64::MAX,
                b <= u64::MAX,
                a >= 0,
                b >= 0,
        ;
        let prod: u128 = (a as u128) * (b as u128);
        match lo.checked_add(prod) {
            Some(x) => {
                lo = x;
            },
            None => {
                assert((hi + 1) * word() == hi * word() + word()) by (nonlinear_arith);
                lo = prod - (u128::MAX - lo) - 1;
                hi = hi + 1;
            },
        }
        k = k + 1;
    }
    (hi, lo)
}

/// The geometric balance rule: the skills other than "total", in ascending
/// name order, are the corners of a regular polygon, each at the distance of
/// its points; the user's polygon must cover at least half the area of the
/// polygon of the maximum points.
pub fn balance_met(user: &SkillTable, global: &SkillTable) -> (r: bool)
    requires
        user.wf(),
    ensures
        r == balanced(user@, global@),
{
    let total: String = TOTAL.to_owned();
    let mut gv: Vec<u64> = Vec::new();
    let mut uv: Vec<u64> = Vec::new();
    let mut i: usize = 0;
    while i < global.len()
        invariant
            user.wf(),
            total@ == TOTAL@,
            i <= global@.len(),
            gv@.map_values(|p: u64| p as int) == corners(polygon_skills(global@.take(i as int))),
            uv@.map_values(|p: u64| p as int) == user_corners(polygon_skills(global@.take(i as int)), user@),
        decreases global@.len() - i,
    {
        let (name, p) = global.entry(i);
        let ghost pre = global@.take(i as int);
        assert(global@.take(i + 1).drop_last() =~= pre);
        assert(global@.take(i + 1).last() == global@[i as int]);
        if *name != total {
            let q = match user.get(name) {
                Some(q) => q,
                None => 0,
            };
            let ghost vs = polygon_skills(pre);
            let ghost e = global@[i as int];
            let ghost gm = gv@.map_values(|p: u64| p as int);
            let ghost um = uv@.map_values(|p: u64| p as int);
            gv.push(p);
            uv.push(q);
            assert(polygon_skills(global@.take(i + 1)) == vs.push(e));
            assert(gv@.map_values(|p: u64| p as int) =~= gm.push(p as int));
            assert(uv@.map_values(|p: u64| p as int) =~= um.push(q as int));
            assert(corners(vs.push(e)) =~= corners(vs).push(e.1 as int));
            assert(user_corners(vs.push(e), user@) =~= user_corners(vs, user@).push(q as int));
        } else {
            assert(polygon_skills(global@.take(i + 1)) == polygon_skills(pre));
        }
        i = i + 1;
    }
    assert(global@.take(i as int) =~= global@);
    let (uh, ul) = edge_sum_of(&uv);
    let (gh, gl) = edge_sum_of(&gv);
    assert(gh == 0 && gl == 0 ==> wide(gh, gl) == 0) by (nonlinear_arith);
    assert(!(gh == 0 && gl == 0) ==> wide(gh, gl) > 0) by (nonlinear_arith)
        requires
            gh >= 0,
            gl >= 0,
            word() > 0,
    ;
    if gh == 0 && gl == 0 {
        false
    } else if wide_at_least(uh, ul, gh, gl) {
        true
    } else {
        // 2 * u >= g exactly when u >= g - u.
        let (dh, dl) = wide_minus(gh, gl, uh, ul);
        wide_at_least(uh, ul, dh, dl)
    }
}

/// `x` capped at `u64::MAX`.
pub open spec fn capped(x: int) -> u64 {
    if x > u64::MAX {
        u64::MAX
    } else {
        x as u64
    }
}

proof fn lemma_capped_add(a: int, b: int)
    requires
        a >= 0,
        b >= 0,
    ensures
        sat_add(capped(a) as int, b) == capped(a + b),
{
}

/// What a task is worth: its points, if it has any, and the points it gives
/// each skill.
pub struct TaskStats {
    pub task_id: i64,
    pub points: Option<u64>,
    pub skills: Vec<SkillEntry>,
}

/// The points that the entries give skill `k`.
pub open spec fn skills_sum(v: Seq<SkillEntry>, k: Seq<char>) -> int
    decreases v.len(),
{
    if v.len() == 0 {
        0
    } else {
        skills_sum(v.drop_last(), k) + if v.last().skill@ == k {
            v.last().points as int
        } else {
            0int
        }
    }
}

/// Whether some entry names skill `k`.
pub open spec fn named(v: Seq<SkillEntry>, k: Seq<char>) -> bool {
    exists|i: int| 0 <= i < v.len() && (#[trigger] v[i]).skill@ == k
}

/// Whether the task gives skill `k` an entry: "total" always, other skills
/// where the task lists them.
pub open spec fn mentions(t: TaskStats, k: Seq<char>) -> bool {
    k == TOTAL@ || named(t.skills@, k)
}

/// The points that the task gives `k`: to "total" its own points, to each
/// skill the points it lists for it.
pub open spec fn share(t: TaskStats, k: Seq<char>) -> int {
    (if k == TOTAL@ {
        match t.points {
            Some(p) => p as int,
            None => 0int,
        }
    } else {
        0int
    }) + skills_sum(t.skills@, k)
}

/// Whether a task counts: every task when `all`, else the solved ones.
pub open spec fn chosen(t: TaskStats, all: bool, solved: Seq<i64>) -> bool {
    all || solved.contains(t.task_id)
}

/// Over the chosen tasks that have points: nothing if none of them gives
/// `k` an entry, else the sum of their shares for `k`.
pub open spec fn tally(tasks: Seq<TaskStats>, all: bool, solved: Seq<i64>, k: Seq<char>) -> Option<
    int,
>
    decreases tasks.len(),
{
    if tasks.len() == 0 {
        None
    } else {
        let r = tally(tasks.drop_last(), all, solved, k);
        let t = tasks.last();
        if chosen(t, all, solved) && t.points is Some && mentions(t, k) {
            Some(
                match r {
                    Some(x) => x,
                    None => 0int,
                } + share(t, k),
            )
        } else {
            r
        }
    }
}

/// A starting value with a tally added, capped at `u64::MAX`.
pub open spec fn tallied(base: Option<u64>, t: Option<int>) -> Option<u64> {
    match t {
        None => base,
        Some(x) => Some(
            capped(
                match base {
                    Some(b) => b as int,
                    None => 0int,
                } + x,
            ),
        ),
    }
}

proof fn lemma_skills_sum_nonneg(v: Seq<SkillEntry>, k: Seq<char>)
    ensures
        skills_sum(v, k) >= 0,
        !named(v, k) ==> skills_sum(v, k) == 0,
    decreases v.len(),
{
    if v.len() > 0 {
        lemma_skills_sum_nonneg(v.drop_last(), k);
        if !named(v, k) {
            assert forall|i: int| 0 <= i < v.drop_last().len() implies (#[trigger] v.drop_last()[i]).skill@ != k by {
                assert(v.drop_last()[i] == v[i]);
            }
            assert(v[v.len() - 1].skill@ != k);
        }
    }
}

/// Adds what the task gives each skill to the table, "total" included.
fn add_task(table: &mut SkillTable, t: &TaskStats)
    requires
        old(table).wf(),
        t.points is Some,
    ensures
        final(table).wf(),
        forall|k: Seq<char>|
            #![trigger lookup(final(table)@, k)]
            lookup(final(table)@, k) == if mentions(*t, k) {
                tallied(lookup(old(table)@, k), Some(share(*t, k)))
            } else {
                lookup(old(table)@, k)
            },
{
    let p = match t.points {
        Some(p) => p,
        None => 0,
    };
    let ghost start = table@;
    table.add_points(TOTAL, p);
    let mut j: usize = 0;
    while j < t.skills.len()
        invariant
            table.wf(),
            t.points == Some(p),
            j <= t.skills@.len(),
            forall|k: Seq<char>|
                #![trigger lookup(table@, k)]
                lookup(table@, k) == if k == TOTAL@ || named(t.skills@.take(j as int), k) {
                    tallied(
                        lookup(start, k),
                        Some((if k == TOTAL@ { p as int } else { 0int }) + skills_sum(t.skills@.take(j as int), k)),
                    )
                } else {
                    lookup(start, k)
                },
        decreases t.skills@.len() - j,
    {
        let ghost before = table@;
        let ghost v = t.skills@.take(j + 1);
        let e = &t.skills[j];
        assert(v.drop_last() =~= t.skills@.take(j as int));
        assert(v.last() == t.skills@[j as int]);
        table.add_points(e.skill.as_str(), e.points);
        proof {
            assert forall|k: Seq<char>| #![trigger lookup(table@, k)]
                lookup(table@, k) == if k == TOTAL@ || named(v, k) {
                    tallied(lookup(start, k), Some((if k == TOTAL@ { p as int } else { 0int }) + skills_sum(v, k)))
                } else {
                    lookup(start, k)
                } by {
                let w = t.skills@.take(j as int);
                lemma_skills_sum_nonneg(w, k);
                assert(named(w, k) ==> named(v, k)) by {
                    if named(w, k) {
                        let i = choose|i: int| 0 <= i < w.len() && (#[trigger] w[i]).skill@ == k;
                        assert(v[i] == w[i]);
                    }
                }
                if k == e.skill@ {
                    assert(v[j as int].skill@ == k);
                    let x = (if k == TOTAL@ { p as int } else { 0int }) + skills_sum(w, k);
                    let b = match lookup(start, k) {
                        Some(b) => b as int,
                        None => 0int,
                    };
                    if k == TOTAL@ || named(w, k) {
                        lemma_capped_add(b + x, e.points as int);
                    }
                } else {
                    assert(named(v, k) ==> named(w, k)) by {
                        if named(v, k) {
                            let i = choose|i: int| 0 <= i < v.len() && (#[trigger] v[i]).skill@ == k;
                            assert(w[i] == v[i]);
                        }
                    }
                }
            }
        }
        j = j + 1;
    }
    proof {
        assert(t.skills@.take(j as int) =~= t.skills@);
        assert forall|k: Seq<char>| #![trigger lookup(table@, k)] !mentions(*t, k) implies lookup(table@, k) == lookup(start, k) by {}
    }
}

/// Adds every chosen task with points to the table, in order.
fn add_tasks(table: &mut SkillTable, tasks: &Vec<TaskStats>, solved: &Vec<i64>, all: bool)
    requires
        old(table).wf(),
    ensures
        final(table).wf(),
        forall|k: Seq<char>|
            #![trigger lookup(final(table)@, k)]
            lookup(final(table)@, k) == tallied(
                lookup(old(table)@, k),
                tally(tasks@, all, solved@, k),
            ),
{
    let ghost start = table@;
    let mut i: usize = 0;
    while i < tasks.len()
        invariant
            table.wf(),
            i <= tasks@.len(),
            forall|k: Seq<char>|
                #![trigger lookup(table@, k)]
                lookup(table@, k) == tallied(lookup(start, k), tally(tasks@.take(i as int), all, solved@, k)),
        decreases tasks@.len() - i,
    {
        let ghost before = table@;
        let ghost pre = tasks@.take(i as int);
        assert(tasks@.take(i + 1).drop_last() =~= pre);
        assert(tasks@.take(i + 1).last() == tasks@[i as int]);
        let t = &tasks[i];
        let pick = all || crate::catalog::contains_id(solved, t.task_id);
        if pick && t.points.is_some() {
            add_task(table, t);
            proof {
                assert forall|k: Seq<char>| #![trigger lookup(table@, k)]
                    lookup(table@, k) == tallied(lookup(start, k), tally(tasks@.take(i + 1), all, solved@, k)) by {
                    if mentions(*t, k) {
                        lemma_skills_sum_nonneg(t.skills@, k);
                        let b = match lookup(start, k) {
                            Some(b) => b as int,
                            None => 0int,
                        };
                        match tally(pre, all, solved@, k) {
                            Some(x) => {
                                lemma_tally_nonneg(pre, all, solved@, k);
                                lemma_capped_add(b + x, share(*t, k));
                            },
                            None => {},
                        }
                    }
                }
            }
        }
        i = i + 1;
    }
    assert(tasks@.take(i as int) =~= tasks@);
}

proof fn lemma_tally_nonneg(tasks: Seq<TaskStats>, all: bool, solved: Seq<i64>, k: Seq<char>)
    ensures
        tally(tasks, all, solved, k) matches Some(x) ==> x >= 0,
    decreases tasks.len(),
{
    if tasks.len() > 0 {
        lemma_tally_nonneg(tasks.drop_last(), all, solved, k);
        lemma_skills_sum_nonneg(tasks.last().skills@, k);
    }
}

/// The most points each skill can have: the sum over all tasks with points
/// (capped at `u64::MAX`), "total" being the sum of the tasks' own points.
/// A skill that no such task lists has no entry.
pub fn total_points(tasks: &Vec<TaskStats>) -> (r: SkillTable)
    ensures
        r.wf(),
        forall|k: Seq<char>|
            #![trigger lookup(r@, k)]
            lookup(r@, k) == tallied(None, tally(tasks@, true, Seq::empty(), k)),
{
    let mut r = SkillTable::new();
    let none: Vec<i64> = Vec::new();
    add_tasks(&mut r, tasks, &none, true);
    assert(none@ =~= Seq::<i64>::empty());
    r
}

/// A user's points: every skill of `max` starts at zero, then each solved
/// task with points adds its share (capped at `u64::MAX`).
pub fn user_points(tasks: &Vec<TaskStats>, solved: &Vec<i64>, max: &SkillTable) -> (r: SkillTable)
    ensures
        r.wf(),
        forall|k: Seq<char>|
            #![trigger lookup(r@, k)]
            lookup(r@, k) == tallied(
                if lookup(max@, k) is Some {
                    Some(0u64)
                } else {
                    None
                },
                tally(tasks@, false, solved@, k),
            ),
{
    let mut r = SkillTable::new();
    let mut i: usize = 0;
    while i < max.len()
        invariant
            r.wf(),
            i <= max@.len(),
            forall|k: Seq<char>|
                #![trigger lookup(r@, k)]
                lookup(r@, k) == if exists|j: int| 0 <= j < i && (#[trigger] max@[j]).0 == k {
                    Some(0u64)
                } else {
                    None
                },
        decreases max@.len() - i,
    {
        let (name, _) = max.entry(i);
        r.add_points(name.as_str(), 0);
        proof {
            assert forall|k: Seq<char>| #![trigger lookup(r@, k)]
                lookup(r@, k) == if exists|j: int| 0 <= j < i + 1 && (#[trigger] max@[j]).0 == k {
                    Some(0u64)
                } else {
                    None
                } by {
                if k == name@ {
                    assert(max@[i as int].0 == k);
                } else {
                    if exists|j: int| 0 <= j < i + 1 && (#[trigger] max@[j]).0 == k {
                        let j = choose|j: int| 0 <= j < i + 1 && (#[trigger] max@[j]).0 == k;
                        assert(j < i);
                    }
                }
            }
        }
        i = i + 1;
    }
    proof {
        assert forall|k: Seq<char>| #![trigger lookup(max@, k)]
            (lookup(max@, k) is Some) == (exists|j: int| 0 <= j < max@.len() && (#[trigger] max@[j]).0 == k) by {
            lemma_lookup_all(max@, k);
        }
    }
    let ghost zeros = r@;
    add_tasks(&mut r, tasks, solved, false);
    proof {
        assert forall|k: Seq<char>| #![trigger lookup(r@, k)]
            lookup(r@, k) == tallied(
                if lookup(max@, k) is Some { Some(0u64) } else { None },
                tally(tasks@, false, solved@, k),
            ) by {
            lemma_lookup_all(max@, k);
            assert(lookup(zeros, k) == if lookup(max@, k) is Some { Some(0u64) } else { None });
        }
    }
    r
}

/// Where a key is stored, any table finds it, ordered or not.
proof fn lemma_lookup_all(t: Seq<(Seq<char>, u64)>, k: Seq<char>)
    ensures
        (lookup(t, k) is Some) == (exists|j: int| 0 <= j < t.len() && (#[trigger] t[j]).0 == k),
    decreases t.len(),
{
    if t.len() > 0 {
        lemma_lookup_all(t.drop_first(), k);
        if exists|j: int| 0 <= j < t.len() && (#[trigger] t[j]).0 == k {
            let j = choose|j: int| 0 <= j < t.len() && (#[trigger] t[j]).0 == k;
            if j > 0 {
                assert(t.drop_first()[j - 1] == t[j]);
            }
        }
        if exists|j: int| 0 <= j < t.drop_first().len() && (#[trigger] t.drop_first()[j]).0 == k {
            let j = choose|j: int| 0 <= j < t.drop_first().len() && (#[trigger] t.drop_first()[j]).0 == k;
            assert(t[j + 1] == t.drop_first()[j]);
        }
    }
}

/// A skill's progress: the user's points and the most there are.
pub struct SkillProgress {
    pub name: String,
    pub points: u64,
    pub max_points: u64,
}

/// A user's level and skills at a glance.
pub struct LevelData {
    pub level: u64,
    /// The user's total points.
    pub points: u64,
    /// The points that the next level takes.
    pub next_points: u64,
    pub max_level: u64,
    /// Every skill but "total", in ascending name order.
    pub skills: Vec<SkillProgress>,
}

/// A table's value for `k`, zero where it has none.
pub open spec fn points_or_zero(t: Seq<(Seq<char>, u64)>, k: Seq<char>) -> u64 {
    match lookup(t, k) {
        Some(p) => p,
        None => 0,
    }
}

/// The skills of the summary as (name, user's points, maximum).
pub open spec fn progress_rows(user: Seq<(Seq<char>, u64)>, max: Seq<(Seq<char>, u64)>) -> Seq<(Seq<char>, u64, u64)> {
    polygon_skills(max).map_values(|e: (Seq<char>, u64)| (e.0, points_or_zero(user, e.0), e.1))
}

/// The user's level, total points, the points of the next level, and each
/// skill's points beside its maximum.
pub fn level_data(user: &SkillTable, max: &SkillTable) -> (r: LevelData)
    requires
        user.wf(),
    ensures
        r.points == points_or_zero(user@, TOTAL@),
        1 <= r.level <= MAX_LEVEL,
        level_floor(r.level as int) <= r.points,
        forall|l: int| r.level < l <= MAX_LEVEL ==> r.points < level_floor(l),
        r.next_points == level_floor(r.level + 1),
        r.max_level == MAX_LEVEL,
        r.skills@.map_values(|p: SkillProgress| (p.name@, p.points, p.max_points)) == progress_rows(user@, max@),
{
    let total: String = TOTAL.to_owned();
    let points = match user.get(&total) {
        Some(p) => p,
        None => 0,
    };
    let level = points_to_level(points);
    let mut skills: Vec<SkillProgress> = Vec::new();
    let mut i: usize = 0;
    while i < max.len()
        invariant
            user.wf(),
            total@ == TOTAL@,
            i <= max@.len(),
            skills@.map_values(|p: SkillProgress| (p.name@, p.points, p.max_points)) == progress_rows(user@, max@.take(i as int)),
        decreases max@.len() - i,
    {
        let (name, m) = max.entry(i);
        let ghost pre = max@.take(i as int);
        assert(max@.take(i + 1).drop_last() =~= pre);
        assert(max@.take(i + 1).last() == max@[i as int]);
        if *name != total {
            let p = match user.get(name) {
                Some(p) => p,
                None => 0,
            };
            let ghost before = skills@.map_values(|p: SkillProgress| (p.name@, p.points, p.max_points));
            skills.push(SkillProgress { name: name.clone(), points: p, max_points: m });
            assert(polygon_skills(max@.take(i + 1)) == polygon_skills(pre).push(max@[i as int]));
            assert(skills@.map_values(|p: SkillProgress| (p.name@, p.points, p.max_points)) =~= before.push((name@, p, m)));
            assert(progress_rows(user@, max@.take(i + 1)) =~= progress_rows(user@, pre).push((name@, p, m)));
        } else {
            assert(polygon_skills(max@.take(i + 1)) == polygon_skills(pre));
        }
        i = i + 1;
    }
    assert(max@.take(i as int) =~= max@);
    LevelData {
        level: level,
        points: points,
        next_points: level_to_points(level + 1),
        max_level: MAX_LEVEL,
        skills: skills,
    }
}

} // verus!
