use jjstack::nav::{generate_nav_block, insert_nav_block, STACK_FOOTER, STACK_HEADER};
use jjstack::plan::{plan_updates, Update};
use jjstack::request::PullRequest;
use jjstack::stacks::build_pr_stacks;

fn request(number: i32, head: &str, base: &str, body: &str) -> PullRequest {
    PullRequest {
        number,
        title: format!("change {}", number),
        head: head.to_string(),
        base: base.to_string(),
        body: body.to_string(),
    }
}

fn summary(updates: &Vec<Update>) -> Vec<(i32, String)> {
    updates.iter().map(|u| (u.request.number, u.block.clone())).collect()
}

#[test]
fn every_member_of_a_stack_gets_the_block_seen_from_itself() {
    let prs = vec![
        request(1, "f1", "main", ""),
        request(2, "f2", "f1", "text"),
        request(3, "f3", "f2", ""),
    ];
    let stacks = build_pr_stacks(prs);
    let updates = plan_updates(&stacks);
    let expected: Vec<(i32, String)> = stacks[0]
        .iter()
        .map(|p| (p.number, generate_nav_block(stacks[0].clone(), p.head.clone())))
        .collect();
    assert_eq!(summary(&updates), expected);
    assert!(updates[1].block.contains("2. PR #2 (branch: f2) ◁\n"));
    assert!(updates[1].block.contains("1. PR #1 (branch: f1)\n"));
    assert!(updates[1].block.contains("3. PR #3 (branch: f3)\n"));
    assert_eq!(updates[1].request.body, "text");
}

#[test]
fn a_request_alone_without_a_marker_is_left_out() {
    let stacks = build_pr_stacks(vec![request(4, "f4", "main", "no block here")]);
    assert!(plan_updates(&stacks).is_empty());
}

#[test]
fn a_request_alone_with_a_stale_block_loses_it() {
    let body = format!("Intro\n\n{}\nold\n{}\n", STACK_HEADER, STACK_FOOTER);
    let stacks = build_pr_stacks(vec![request(5, "f5", "main", &body)]);
    let updates = plan_updates(&stacks);
    assert_eq!(summary(&updates), vec![(5, String::new())]);
    let applied = insert_nav_block(updates[0].request.body.clone(), &updates[0].block);
    assert_eq!(applied, "Intro");
}

#[test]
fn a_request_alone_with_one_marker_is_planned_too() {
    let opening = format!("a {}", STACK_HEADER);
    let closing = format!("{} b", STACK_FOOTER);
    let stacks = vec![
        vec![request(1, "a", "main", &opening)],
        vec![request(2, "b", "main", &closing)],
    ];
    assert_eq!(summary(&plan_updates(&stacks)), vec![(1, String::new()), (2, String::new())]);
}

#[test]
fn updates_follow_the_stacks_and_their_members() {
    let stale = format!("{}{}", STACK_HEADER, STACK_FOOTER);
    let stacks = vec![
        vec![request(1, "a1", "main", ""), request(2, "a2", "a1", "")],
        vec![request(3, "lone", "main", "")],
        vec![request(4, "stale", "main", &stale)],
        Vec::new(),
        vec![request(5, "b1", "dev", ""), request(6, "b2", "b1", ""), request(7, "b3", "b2", "")],
    ];
    let updates = plan_updates(&stacks);
    let order: Vec<i32> = updates.iter().map(|u| u.request.number).collect();
    assert_eq!(order, vec![1, 2, 4, 5, 6, 7]);
    assert!(updates[2].block.is_empty());
    assert_eq!(updates[5].block, generate_nav_block(stacks[4].clone(), "b3".to_string()));
}

#[test]
fn no_stacks_give_no_updates() {
    assert!(plan_updates(&Vec::new()).is_empty());
}

#[test]
fn a_ring_gets_no_update() {
    let stale = format!("{}{}", STACK_HEADER, STACK_FOOTER);
    let prs = vec![
        request(1, "a", "c", ""),
        request(2, "b", "a", &stale),
        request(3, "c", "b", ""),
        request(4, "f1", "main", ""),
        request(5, "f2", "f1", ""),
    ];
    let stacks = build_pr_stacks(prs);
    assert_eq!(stacks.len(), 2);
    assert_eq!(stacks[0].len(), 3);
    let order: Vec<i32> = plan_updates(&stacks).iter().map(|u| u.request.number).collect();
    assert_eq!(order, vec![4, 5]);
}

#[test]
fn a_request_on_its_own_head_gets_no_update() {
    let stale = format!("{}{}", STACK_HEADER, STACK_FOOTER);
    let stacks = build_pr_stacks(vec![request(1, "a", "a", &stale)]);
    assert_eq!(stacks.len(), 1);
    assert!(plan_updates(&stacks).is_empty());
}

#[test]
fn a_stack_that_only_ends_where_another_starts_is_no_ring() {
    let stacks = vec![
        vec![request(1, "a1", "main", ""), request(2, "a2", "a1", "")],
        vec![request(3, "b1", "a2x", ""), request(4, "b2", "b1", "")],
    ];
    assert_eq!(plan_updates(&stacks).len(), 4);
}
