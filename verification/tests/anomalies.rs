use jjstack::anomalies::{passed_over, ring_ends, shadowed_heads};
use jjstack::request::PullRequest;
use jjstack::stacks::{follows, last_with_base, last_with_head};

fn request(number: i32, head: &str, base: &str) -> PullRequest {
    PullRequest {
        number,
        title: format!("change {}", number),
        head: head.to_string(),
        base: base.to_string(),
        body: String::new(),
    }
}

fn chain() -> Vec<PullRequest> {
    vec![request(1, "f1", "main"), request(2, "f2", "f1"), request(3, "f3", "f2")]
}

#[test]
fn a_plain_chain_has_nothing_out_of_order() {
    let prs = chain();
    assert!(shadowed_heads(&prs).is_empty());
    assert!(passed_over(&prs).is_empty());
    assert!(ring_ends(&prs).is_empty());
    assert!(ring_ends(&Vec::new()).is_empty());
}

#[test]
fn all_but_the_last_of_a_shared_head_are_shadowed() {
    let prs = vec![
        request(1, "h", "main"),
        request(2, "x", "h"),
        request(3, "h", "dev"),
        request(4, "h", "main"),
    ];
    assert_eq!(shadowed_heads(&prs), vec![0, 2]);
}

#[test]
fn all_but_the_last_on_a_request_s_branch_are_passed_over() {
    let prs = vec![
        request(1, "c1", "p"),
        request(2, "p", "main"),
        request(3, "c2", "p"),
        request(4, "c3", "p"),
    ];
    assert_eq!(passed_over(&prs), vec![0, 2]);
}

#[test]
fn requests_on_a_branch_that_is_nobody_s_head_are_not_passed_over() {
    let prs = vec![request(1, "a", "main"), request(2, "b", "main"), request(3, "c", "main")];
    assert!(passed_over(&prs).is_empty());
}

#[test]
fn the_earliest_request_of_each_ring_is_named() {
    let prs = vec![
        request(1, "t", "r"),
        request(2, "a", "b"),
        request(3, "r", "main"),
        request(4, "b", "a"),
        request(5, "self", "self"),
        request(6, "x", "z"),
        request(7, "y", "x"),
        request(8, "z", "y"),
    ];
    assert_eq!(ring_ends(&prs), vec![1, 4, 5]);
}

#[test]
fn a_ring_broken_by_a_later_request_is_no_ring() {
    let prs = vec![request(1, "a", "b"), request(2, "b", "a"), request(3, "c", "a")];
    assert!(ring_ends(&prs).is_empty());
    assert_eq!(passed_over(&prs), vec![1]);
}

#[test]
fn last_with_head_and_base_give_the_last_position() {
    let prs = vec![request(1, "h", "b"), request(2, "h", "b"), request(3, "k", "h")];
    assert_eq!(last_with_head(&prs, &"h".to_string()), Some(1));
    assert_eq!(last_with_head(&prs, &"k".to_string()), Some(2));
    assert_eq!(last_with_head(&prs, &"b".to_string()), None);
    assert_eq!(last_with_base(&prs, &"b".to_string()), Some(1));
    assert_eq!(last_with_base(&prs, &"h".to_string()), Some(2));
    assert_eq!(last_with_base(&prs, &"k".to_string()), None);
}

#[test]
fn follows_tells_who_comes_behind_whom() {
    let prs = chain();
    assert!(follows(&prs, 0, 1));
    assert!(follows(&prs, 1, 2));
    assert!(!follows(&prs, 0, 2));
    assert!(!follows(&prs, 1, 0));
    assert!(!follows(&prs, 0, 3));
    assert!(!follows(&prs, 3, 0));
    let contested = vec![request(1, "p", "main"), request(2, "c1", "p"), request(3, "c2", "p")];
    assert!(!follows(&contested, 0, 1));
    assert!(follows(&contested, 0, 2));
}
