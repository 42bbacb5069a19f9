//! Character assets and what unlocks them: a solved task, an unlocked
//! achievement, or nothing at all.

use vstd::prelude::*;
use crate::catalog::contains_id;

verus! {

/// A character asset with its precondition.
pub struct Asset {
    pub id: String,
    /// A task that must be solved first.
    pub task_id: Option<i64>,
    /// An achievement that must be unlocked first; looked at only when no
    /// task is named.
    pub achievement_id: Option<i64>,
}

/// Whether the asset is available to a user with these solved tasks and
/// unlocked achievements.
pub open spec fn asset_open(a: Asset, solved: Seq<i64>, completed: Seq<i64>) -> bool {
    match a.task_id {
        Some(t) => solved.contains(t),
        None => match a.achievement_id {
            Some(x) => completed.contains(x),
            None => true,
        },
    }
}

/// The ids of the available assets, in the order given.
pub open spec fn open_assets(assets: Seq<Asset>, solved: Seq<i64>, completed: Seq<i64>) -> Seq<Seq<char>>
    decreases assets.len(),
{
    if assets.len() == 0 {
        Seq::empty()
    } else {
        let rest = open_assets(assets.drop_last(), solved, completed);
        if asset_open(assets.last(), solved, completed) {
            rest.push(assets.last().id@)
        } else {
            rest
        }
    }
}

/// The ids of the assets available to a user who solved `solved` and
/// unlocked `completed`.
pub fn unlocked_assets(assets: &Vec<Asset>, solved: &Vec<i64>, completed: &Vec<i64>) -> (r: Vec<String>)
    ensures
        r@.map_values(|s: String| s@) == open_assets(assets@, solved@, completed@),
{
    let mut r: Vec<String> = Vec::new();
    let mut i: usize = 0;
    while i < assets.len()
        invariant
            i <= assets@.len(),
            r@.map_values(|s: String| s@) == open_assets(assets@.take(i as int), solved@, completed@),
        decreases assets@.len() - i,
    {
        assert(assets@.take(i + 1).drop_last() =~= assets@.take(i as int));
        assert(assets@.take(i + 1).last() == assets@[i as int]);
        let a = &assets[i];
        let open = match a.task_id {
            Some(t) => contains_id(solved, t),
            None => match a.achievement_id {
                Some(x) => contains_id(completed, x),
                None => true,
            },
        };
        if open {
            let ghost before = r@.map_values(|s: String| s@);
            r.push(a.id.clone());
            assert(r@.map_values(|s: String| s@) =~= before.push(a.id@));
        }
        i = i + 1;
    }
    assert(assets@.take(i as int) =~= assets@);
    r
}

} // verus!
