use cargo_new_release::milestone::{
    find_milestone, milestone_action, prs_to_queue, resolve_milestone, CreateOutcome,
    MilestoneAction,
};

#[test]
fn action_for_unmilestoned_pr_is_queue() {
    let action = milestone_action(&None, "1.71.0");
    assert_eq!(action, MilestoneAction::Queue);
}

#[test]
fn action_for_matching_milestone_is_skip() {
    let current = Some((String::from("93"), String::from("1.71.0")));
    assert_eq!(milestone_action(&current, "1.71.0"), MilestoneAction::AlreadyMilestoned);
}

#[test]
fn action_for_other_milestone_is_mismatch() {
    let current = Some((String::from("92"), String::from("1.70.0")));
    assert_eq!(milestone_action(&current, "1.71.0"), MilestoneAction::MilestoneMismatch);
}

#[test]
fn queue_keeps_only_unmilestoned() {
    let prs = vec![1u32, 2, 3];
    let currents = vec![
        None,
        Some((String::from("9"), String::from("1.70.0"))),
        None,
    ];
    assert_eq!(prs_to_queue(&prs, &currents), vec![1u32, 3]);
}

#[test]
fn created_milestone_number_is_used() {
    let list: Vec<(String, i64)> = Vec::new();
    assert_eq!(resolve_milestone(&CreateOutcome::Created(5), &list, "1.71.0"), Some(5));
}

#[test]
fn conflict_resolves_to_existing_milestone() {
    // First creation gave number 7; asking again conflicts and resolves
    // to the same number, not a fresh one.
    let first = resolve_milestone(&CreateOutcome::Created(7), &Vec::new(), "1.71.0");
    let list = vec![
        (String::from("1.70.0"), 6i64),
        (String::from("1.71.0"), 7i64),
    ];
    let second = resolve_milestone(&CreateOutcome::Conflict, &list, "1.71.0");
    assert_eq!(first, second);
    assert_eq!(second, Some(7));
}

#[test]
fn conflict_without_listed_title_fails() {
    let list = vec![(String::from("1.70.0"), 6i64)];
    assert_eq!(resolve_milestone(&CreateOutcome::Conflict, &list, "1.71.0"), None);
}

#[test]
fn find_milestone_takes_first_match() {
    let list = vec![
        (String::from("1.69.0"), 4i64),
        (String::from("1.71.0"), 7i64),
    ];
    assert_eq!(find_milestone(&list, "1.71.0"), Some(7));
    assert_eq!(find_milestone(&list, "1.72.0"), None);
}
