use smartbeans_engine::assets::{unlocked_assets, Asset};
use smartbeans_engine::catalog::{
    candidates_of, validate_catalog, AchievementDefinition, CatalogError,
};
use smartbeans_engine::gate::TriggerGate;
use smartbeans_engine::loops::{check_for_loops, strip_literals_and_comments};
use smartbeans_engine::models::{Character, Submission};
use smartbeans_engine::rules::AchievementTrigger;
use smartbeans_engine::skills::{
    balance_met, level_data, level_to_points, points_to_level, text_less, total_points, user_points,
    SkillEntry, SkillTable, TaskStats,
};
use smartbeans_engine::tools::{epoch, progress, version};
use smartbeans_engine::unlocks::{achievements, set_achievement_completed, RecordOutcome, UnlockLog};

fn table(entries: &[(&str, u64)]) -> SkillTable {
    let mut t = SkillTable::new();
    for (name, points) in entries {
        t.add_points(name, *points);
    }
    t
}

fn sub(task_id: i64, source: &str, result: &str) -> Submission {
    Submission {
        task_id,
        source_code: source.to_string(),
        result_type: result.to_string(),
    }
}

fn bare_character() -> Character {
    Character {
        username: "ada".to_string(),
        body_color: None,
        hat_id: None,
        face_id: None,
        shirt_id: None,
        pants_id: None,
    }
}

fn snapshot() -> AchievementTrigger {
    AchievementTrigger {
        username: "ada".to_string(),
        completed: vec![],
        solved_tasks: vec![],
        submissions: vec![],
        points: SkillTable::new(),
        max_points: SkillTable::new(),
        task_count: 10,
        character: bare_character(),
        char_changes: 0,
    }
}

fn definition(id: i64, triggers: &[&str], hidden: bool) -> AchievementDefinition {
    AchievementDefinition {
        id,
        name: format!("A{}", id),
        open_description: format!("open {}", id),
        completed_description: format!("done {}", id),
        hidden,
        triggers: triggers.iter().map(|t| t.to_string()).collect(),
    }
}

#[test]
fn admission_gives_one_run_per_user() {
    let mut gate = TriggerGate::new();
    assert!(gate.try_admit("ada", "login"));
    assert!(!gate.try_admit("ada", "submission"));
    assert!(gate.try_admit("bob", "login"));
}

#[test]
fn same_trigger_while_busy_is_parked_once() {
    let mut gate = TriggerGate::new();
    assert!(gate.try_admit("ada", "login"));
    assert!(!gate.try_admit("ada", "submission"));
    assert!(!gate.try_admit("ada", "submission"));
    assert_eq!(gate.release("ada"), Some("submission".to_string()));
    assert!(gate.try_admit("ada", "submission"));
    assert_eq!(gate.release("ada"), None);
}

#[test]
fn every_parked_trigger_comes_back_once() {
    let mut gate = TriggerGate::new();
    assert!(gate.try_admit("ada", "login"));
    assert!(!gate.try_admit("ada", "submission"));
    assert!(!gate.try_admit("ada", "char_changed"));
    assert!(!gate.try_admit("ada", "submission"));
    let mut seen = Vec::new();
    while let Some(t) = gate.release("ada") {
        assert!(gate.try_admit("ada", &t));
        seen.push(t);
    }
    seen.sort();
    assert_eq!(seen, vec!["char_changed".to_string(), "submission".to_string()]);
    assert!(gate.try_admit("ada", "login"));
}

#[test]
fn release_of_unknown_user_yields_nothing() {
    let mut gate = TriggerGate::new();
    assert_eq!(gate.release("nobody"), None);
}

#[test]
fn recording_an_unlock_twice_keeps_one_row() {
    let mut log = UnlockLog::new();
    assert!(matches!(log.record_unlock("ada", 3, 100), RecordOutcome::Recorded));
    assert!(matches!(log.record_unlock("ada", 3, 200), RecordOutcome::AlreadyExists));
    assert_eq!(log.completed_achievements("ada"), vec![3]);
    assert_eq!(log.count_unlocks(3), 1);
    assert_eq!(log.completion_time(&"ada".to_string(), 3), Some(100));
    assert!(matches!(log.record_unlock("bob", 3, 300), RecordOutcome::Recorded));
    assert_eq!(log.count_unlocks(3), 2);
}

#[test]
fn threshold_chain() {
    let mut s = snapshot();
    s.solved_tasks = (1..=42).collect();
    assert!(s.check_3());
    assert!(s.check_2());
    assert!(s.check_1());
    s.solved_tasks = (1..=16).collect();
    assert!(!s.check_3());
    assert!(s.check_2());
    s.solved_tasks = vec![];
    assert!(!s.check_1());
}

#[test]
fn identical_wrong_resubmission() {
    let mut s = snapshot();
    s.submissions = vec![sub(5, "a", "WRONG_ANSWER"), sub(5, "a", "WRONG_ANSWER")];
    assert!(s.check_9());
    s.submissions = vec![sub(5, "a", "SUCCESS"), sub(5, "b", "SUCCESS")];
    assert!(s.check_10());
    assert!(!s.check_9());
}

#[test]
fn duplicate_rules_need_same_task() {
    let mut s = snapshot();
    s.submissions = vec![sub(5, "a", "WRONG_ANSWER"), sub(6, "a", "WRONG_ANSWER")];
    assert!(!s.check_9());
    s.submissions = vec![sub(5, "a", "SUCCESS"), sub(6, "a", "SUCCESS")];
    assert!(!s.check_10());
    s.submissions = vec![sub(5, "a", "SUCCESS"), sub(5, "a", "WRONG_ANSWER")];
    assert!(!s.check_9());
    assert!(!s.check_10());
}

#[test]
fn compile_errors_counted() {
    let mut s = snapshot();
    s.submissions = vec![
        sub(1, "x", "COMPILE_ERROR"),
        sub(2, "y", "COMPILE_ERROR"),
        sub(3, "z", "SUCCESS"),
    ];
    assert!(!s.check_8());
    s.submissions.push(sub(4, "w", "COMPILE_ERROR"));
    assert!(s.check_8());
}

#[test]
fn static_check_ignores_comments_and_strings() {
    assert!(!check_for_loops("// for demo\nint x=1;"));
    assert!(check_for_loops("for(int i=0;i<5;i++){}"));
    assert!(!check_for_loops("printf(\"while\"); /* for */ int x;"));
    assert!(check_for_loops("int i = 0; while (i < 3) i++;"));
    assert!(!check_for_loops("int format = 1;"));
}

#[test]
fn stripping_removes_literals_and_comments() {
    assert_eq!(strip_literals_and_comments("a\"b\"c"), "ac");
    assert_eq!(strip_literals_and_comments("x/* y */z"), "xz");
    assert_eq!(strip_literals_and_comments("x/* a*b (c) */z"), "xz");
    assert_eq!(strip_literals_and_comments("x/* one\ntwo */z"), "xz");
    assert_eq!(strip_literals_and_comments("a // see (x) / y\nb"), "a b");
    assert_eq!(strip_literals_and_comments("a /* x */ b /* y */ c"), "a  b  c");
}

#[test]
fn loops_in_comments_with_punctuation_do_not_count() {
    assert!(!check_for_loops("int x; // see (for) here\nreturn x;"));
    assert!(!check_for_loops("/* a*b while (x) */ int y;"));
    assert!(check_for_loops("/* note */ while (1) {}"));
}

#[test]
fn loop_free_solution_rule() {
    let mut s = snapshot();
    s.submissions = vec![sub(63, "// for demo\nint x=1;", "SUCCESS")];
    assert!(s.check_17());
    s.submissions = vec![sub(63, "for(int i=0;i<5;i++){}", "SUCCESS")];
    assert!(!s.check_17());
    s.submissions = vec![sub(63, "int x=1;", "WRONG_ANSWER"), sub(62, "int x=1;", "SUCCESS")];
    assert!(!s.check_17());
}

#[test]
fn balance_metric() {
    let global = table(&[("A", 100), ("B", 100), ("total", 200)]);
    let even = table(&[("A", 100), ("B", 100), ("total", 200)]);
    let lopsided = table(&[("A", 100), ("B", 0), ("total", 100)]);
    assert!(balance_met(&even, &global));
    assert!(!balance_met(&lopsided, &global));
    let mut s = snapshot();
    s.max_points = global;
    s.points = even;
    assert!(s.check_19());
}

#[test]
fn balance_metric_uses_name_order() {
    // Corners in name order A, B, C, D: 10*0 + 0*10 + 10*0 + 0*10 = 0.
    let global = table(&[("D", 10), ("C", 10), ("B", 10), ("A", 10)]);
    let user = table(&[("A", 10), ("B", 0), ("C", 10), ("D", 0)]);
    assert!(!balance_met(&user, &global));
    let user = table(&[("A", 10), ("B", 10), ("C", 0), ("D", 0)]);
    // 10*10 + 10*0 + 0*0 + 0*10 = 100 < 400 / 2.
    assert!(!balance_met(&user, &global));
    let user = table(&[("A", 10), ("B", 10), ("C", 10), ("D", 0)]);
    // 100 + 100 + 0 + 0 = 200 >= 400 / 2.
    assert!(balance_met(&user, &global));
}

#[test]
fn skill_ratio_rules() {
    let mut s = snapshot();
    s.max_points = table(&[("A", 10), ("B", 20), ("C", 30), ("total", 60)]);
    s.points = table(&[("A", 10), ("B", 20), ("C", 30), ("total", 60)]);
    assert!(s.check_11());
    assert!(s.check_12());
    assert!(s.check_14());
    s.points = table(&[("A", 5), ("B", 9), ("C", 30), ("total", 44)]);
    assert!(!s.check_11());
    assert!(!s.check_12());
    assert!(s.check_14());
    s.points = table(&[("A", 0), ("B", 20), ("C", 30), ("total", 50)]);
    assert!(!s.check_14());
}

#[test]
fn level_rule_and_scale() {
    assert_eq!(points_to_level(0), 1);
    assert_eq!(points_to_level(14), 1);
    assert_eq!(points_to_level(15), 2);
    assert_eq!(points_to_level(169), 4);
    assert_eq!(points_to_level(170), 5);
    assert_eq!(points_to_level(1400), 13);
    assert_eq!(points_to_level(u64::MAX), 13);
    assert_eq!(level_to_points(0), 100000000);
    assert_eq!(level_to_points(5), 170);
    assert_eq!(level_to_points(13), 1400);
    assert_eq!(level_to_points(99), 1400);
    let mut s = snapshot();
    s.points = table(&[("total", 170)]);
    assert!(s.check_18());
    s.points = table(&[("total", 169)]);
    assert!(!s.check_18());
}

#[test]
fn skill_table_keeps_names_in_order_and_adds() {
    let t = table(&[("b", 1), ("a", 2), ("b", 3), ("total", 1)]);
    assert_eq!(t.len(), 3);
    assert_eq!(t.entry(0).0, "a");
    assert_eq!(t.entry(1), (&"b".to_string(), 4));
    assert_eq!(t.get(&"total".to_string()), Some(1));
    assert_eq!(t.get(&"c".to_string()), None);
    let mut u = table(&[("x", u64::MAX - 1)]);
    u.add_points("x", 5);
    assert_eq!(u.get(&"x".to_string()), Some(u64::MAX));
}

#[test]
fn text_order() {
    assert!(text_less(&"abc".to_string(), &"abd".to_string()));
    assert!(text_less(&"ab".to_string(), &"abc".to_string()));
    assert!(!text_less(&"abc".to_string(), &"abc".to_string()));
    assert!(!text_less(&"b".to_string(), &"abc".to_string()));
}

#[test]
fn character_and_counter_rules() {
    let mut s = snapshot();
    assert!(!s.check_6());
    s.character.body_color = Some("red".to_string());
    s.character.hat_id = Some("h".to_string());
    s.character.shirt_id = Some("s".to_string());
    assert!(!s.check_6());
    s.character.pants_id = Some("p".to_string());
    assert!(s.check_6());
    assert!(!s.check_13());
    s.char_changes = 7;
    assert!(s.check_13());
}

#[test]
fn coverage_and_troll_rules() {
    let mut s = snapshot();
    s.task_count = 3;
    s.solved_tasks = vec![1, 2, 48];
    assert!(s.check_4());
    assert!(s.check_7());
    s.solved_tasks = vec![1, 48];
    assert!(!s.check_4());
    assert!(!s.check_7());
    s.solved_tasks = vec![1, 2, 3];
    assert!(!s.check_7());
}

#[test]
fn dispatch_by_id() {
    let s = snapshot();
    assert!(s.check(5));
    assert!(s.check(15));
    assert!(!s.check(16));
    assert!(!s.check(1));
    assert!(!s.check(19));
}

#[test]
fn candidates_follow_trigger_and_completion() {
    let catalog = vec![
        definition(1, &["login", "submission"], false),
        definition(5, &["nickname_changed"], false),
        definition(15, &["404"], true),
    ];
    assert_eq!(candidates_of(&catalog, &vec![], "submission"), vec![1]);
    assert_eq!(candidates_of(&catalog, &vec![1], "submission"), Vec::<i64>::new());
    assert_eq!(candidates_of(&catalog, &vec![5], "all"), vec![1, 15]);
}

fn full_catalog() -> Vec<AchievementDefinition> {
    (1..=19).map(|i| definition(i, &["login"], i == 16)).collect()
}

#[test]
fn meta_achievement_after_all_others() {
    let catalog = full_catalog();
    let mut s = snapshot();
    // Every other achievement but 5 and 15 is held; both unlock now, and so
    // does the meta achievement, after them.
    s.completed = (1..=19).filter(|i| ![5, 15, 16].contains(i)).collect();
    assert_eq!(s.run_trigger(&catalog, "login"), vec![5, 15, 16]);
    // With 13 still locked (too few character changes) it stays locked.
    s.completed = (1..=19).filter(|i| ![5, 13, 15, 16].contains(i)).collect();
    assert_eq!(s.run_trigger(&catalog, "login"), vec![5, 15]);
    s.char_changes = 7;
    assert_eq!(s.run_trigger(&catalog, "login"), vec![5, 13, 15, 16]);
}

#[test]
fn meta_achievement_ignores_foreign_ids() {
    let catalog = full_catalog();
    let mut s = snapshot();
    // An id outside the catalog does not stand in for a locked achievement.
    s.completed = (1..=19).filter(|i| ![5, 13, 15, 16].contains(i)).collect();
    s.completed.push(99);
    assert_eq!(s.run_trigger(&catalog, "login"), vec![5, 15]);
    // Nor does it keep the meta achievement locked once all others are held.
    s.completed = (1..=19).filter(|i| ![5, 15, 16].contains(i)).collect();
    s.completed.push(99);
    assert_eq!(s.run_trigger(&catalog, "login"), vec![5, 15, 16]);
}

#[test]
fn runs_follow_the_trigger() {
    let mut catalog = full_catalog();
    catalog[14].triggers = vec!["404".to_string()];
    let mut s = snapshot();
    s.completed = (1..=19).filter(|i| ![5, 15, 16].contains(i)).collect();
    assert_eq!(s.run_trigger(&catalog, "login"), vec![5]);
    assert_eq!(s.run_trigger(&catalog, "404"), vec![15]);
    assert_eq!(s.run_trigger(&catalog, "all"), vec![5, 15, 16]);
}

#[test]
fn catalog_validation() {
    let good: Vec<AchievementDefinition> = (1..=19).map(|i| definition(i, &["login"], false)).collect();
    assert!(validate_catalog(&good).is_ok());
    let short: Vec<AchievementDefinition> = (1..=18).map(|i| definition(i, &["login"], false)).collect();
    assert!(matches!(validate_catalog(&short), Err(CatalogError::MissingEntries { count: 18 })));
    let long: Vec<AchievementDefinition> = (1..=20).map(|i| definition(i, &["login"], false)).collect();
    assert!(matches!(validate_catalog(&long), Err(CatalogError::ExtraEntries { count: 20 })));
    let mut gap = good;
    gap[3].id = 7;
    assert!(matches!(
        validate_catalog(&gap),
        Err(CatalogError::MisplacedId { position: 3, id: 7 })
    ));
}

#[test]
fn public_listing_hides_until_unlocked() {
    let catalog = vec![definition(1, &["login"], false), definition(15, &["404"], true)];
    let mut log = UnlockLog::new();
    let list = achievements(&catalog, &log, "ada");
    assert_eq!(list.len(), 1);
    assert_eq!(list[0].description, "open 1");
    assert_eq!(list[0].completed, None);
    let shown = set_achievement_completed(&mut log, &catalog, "ada", 15, 1234).unwrap();
    assert_eq!(shown.id, 15);
    assert_eq!(shown.description, "done 15");
    assert_eq!(shown.completed, Some(1234));
    assert_eq!(shown.unlocks, 1);
    let list = achievements(&catalog, &log, "ada");
    assert_eq!(list.len(), 2);
    assert_eq!(list[1].name, "A15");
    assert!(set_achievement_completed(&mut log, &catalog, "ada", 99, 1).is_none());
    assert_eq!(log.completed_achievements("ada"), vec![15]);
    assert_eq!(log.count_unlocks(99), 0);
    assert_eq!(achievements(&catalog, &log, "bob").len(), 1);
}

#[test]
fn progress_and_version_texts() {
    assert_eq!(progress(&vec![]), "[]");
    assert_eq!(progress(&vec![1, 20, 300]), "[1, 20, 300]");
    assert_eq!(progress(&vec![-7, 0, i64::MIN]), "[-7, 0, -9223372036854775808]");
    assert_eq!(version("1.2.0", "abc123"), "1.2.0 (abc123)");
}

fn task(task_id: i64, points: Option<u64>, skills: &[(&str, u64)]) -> TaskStats {
    TaskStats {
        task_id,
        points,
        skills: skills
            .iter()
            .map(|(n, p)| SkillEntry { skill: n.to_string(), points: *p })
            .collect(),
    }
}

#[test]
fn maximum_points_sum_over_tasks() {
    let tasks = vec![
        task(1, Some(10), &[("loops", 6), ("io", 4)]),
        task(2, Some(20), &[("loops", 20)]),
        task(3, None, &[("arrays", 5)]),
    ];
    let max = total_points(&tasks);
    assert_eq!(max.get(&"total".to_string()), Some(30));
    assert_eq!(max.get(&"loops".to_string()), Some(26));
    assert_eq!(max.get(&"io".to_string()), Some(4));
    assert_eq!(max.get(&"arrays".to_string()), None);
    assert_eq!(max.len(), 3);
    assert_eq!(max.entry(0).0, "io");
}

#[test]
fn user_points_count_solved_tasks_only() {
    let tasks = vec![
        task(1, Some(10), &[("loops", 6), ("io", 4)]),
        task(2, Some(20), &[("loops", 20)]),
    ];
    let max = total_points(&tasks);
    let mine = user_points(&tasks, &vec![2], &max);
    assert_eq!(mine.get(&"total".to_string()), Some(20));
    assert_eq!(mine.get(&"loops".to_string()), Some(20));
    assert_eq!(mine.get(&"io".to_string()), Some(0));
    let none = user_points(&tasks, &vec![], &max);
    assert_eq!(none.get(&"loops".to_string()), Some(0));
    assert_eq!(none.len(), 3);
}

#[test]
fn assets_open_by_task_or_achievement() {
    let asset = |id: &str, task_id: Option<i64>, achievement_id: Option<i64>| Asset {
        id: id.to_string(),
        task_id,
        achievement_id,
    };
    let assets = vec![
        asset("plain", None, None),
        asset("hat", Some(4), None),
        asset("cape", None, Some(16)),
        asset("both", Some(9), Some(16)),
    ];
    assert_eq!(unlocked_assets(&assets, &vec![], &vec![]), vec!["plain".to_string()]);
    assert_eq!(
        unlocked_assets(&assets, &vec![4], &vec![16]),
        vec!["plain".to_string(), "hat".to_string(), "cape".to_string()]
    );
    assert_eq!(
        unlocked_assets(&assets, &vec![9], &vec![]),
        vec!["plain".to_string(), "both".to_string()]
    );
}

#[test]
fn level_data_lists_skills_without_total() {
    let max = table(&[("total", 1400), ("loops", 700), ("io", 700)]);
    let user = table(&[("total", 260), ("loops", 200), ("io", 60)]);
    let s = level_data(&user, &max);
    assert_eq!(s.level, 6);
    assert_eq!(s.points, 260);
    assert_eq!(s.next_points, 340);
    assert_eq!(s.max_level, 13);
    assert_eq!(s.skills.len(), 2);
    assert_eq!(s.skills[0].name, "io");
    assert_eq!(s.skills[0].points, 60);
    assert_eq!(s.skills[1].max_points, 700);
    let empty = level_data(&SkillTable::new(), &max);
    assert_eq!(empty.level, 1);
    assert_eq!(empty.points, 0);
    assert_eq!(empty.next_points, 15);
    assert_eq!(empty.skills[1].points, 0);
}

#[test]
fn balance_metric_with_very_large_points() {
    let max = u64::MAX;
    let global = table(&[("A", max), ("B", max), ("C", max), ("total", max)]);
    let user = table(&[("A", max), ("B", max), ("C", max), ("total", max)]);
    assert!(balance_met(&user, &global));
    // Raising points never switches the rule off.
    let small = table(&[("A", 1), ("B", 1), ("C", 1)]);
    assert!(balance_met(&small, &small));
    assert!(balance_met(&user, &small));
    // Half the area exactly still counts; just below it does not.
    let global = table(&[("A", max), ("B", max)]);
    let half = table(&[("A", max), ("B", max / 2 + 1)]);
    assert!(balance_met(&half, &global));
    let below = table(&[("A", max), ("B", max / 2)]);
    assert!(!balance_met(&below, &global));
    let none = table(&[("A", 0), ("B", 0)]);
    assert!(!balance_met(&none, &global));
}

#[test]
fn balance_needs_a_maximal_area() {
    let empty = table(&[("A", 0), ("B", 0)]);
    assert!(!balance_met(&empty, &empty));
    assert!(!balance_met(&table(&[("A", 5)]), &table(&[("total", 5)])));
}

#[test]
fn epoch_is_not_negative() {
    assert!(epoch() > 0);
}
