use jjstack::{
    build_pr_stacks, generate_nav_block, insert_nav_block, plan_updates, remove_nav_block,
    updated_body, PullRequest, STACK_FOOTER, STACK_HEADER,
};

fn request(number: i32, head: &str, base: &str, body: &str) -> PullRequest {
    PullRequest {
        number,
        title: format!("change {}", number),
        head: head.to_string(),
        base: base.to_string(),
        body: body.to_string(),
    }
}

#[test]
fn three_stacked_requests_are_listed_with_the_middle_one_marked() {
    let prs = vec![
        request(1, "f1", "main", ""),
        request(2, "f2", "f1", ""),
        request(3, "f3", "f2", ""),
    ];
    let stacks = build_pr_stacks(prs);
    assert_eq!(stacks.len(), 1);
    let heads: Vec<&str> = stacks[0].iter().map(|p| p.head.as_str()).collect();
    assert_eq!(heads, vec!["f1", "f2", "f3"]);
    let block = generate_nav_block(stacks[0].clone(), "f2".to_string());
    let lines: Vec<&str> = block.lines().collect();
    assert_eq!(
        lines,
        vec![
            STACK_HEADER,
            "Stack of changes:",
            "1. PR #1 (branch: f1)",
            "2. PR #2 (branch: f2) ◁",
            "3. PR #3 (branch: f3)",
            STACK_FOOTER,
        ]
    );
}

#[test]
fn a_single_request_without_a_block_is_never_touched() {
    let stacks = build_pr_stacks(vec![request(4, "f4", "main", "Just a description.")]);
    assert_eq!(stacks.len(), 1);
    assert_eq!(stacks[0].len(), 1);
    assert!(plan_updates(&stacks).is_empty());
}

#[test]
fn a_single_request_with_a_stale_block_sheds_it() {
    let body = format!(
        "Intro text\n\n{}\nStack of changes:\n1. PR #5 (branch: f5) ◁\n2. PR #6 (branch: f6)\n{}\n\nOutro text\n",
        STACK_HEADER, STACK_FOOTER
    );
    let stacks = build_pr_stacks(vec![request(5, "f5", "main", &body)]);
    let updates = plan_updates(&stacks);
    assert_eq!(updates.len(), 1);
    assert_eq!(updates[0].request.number, 5);
    assert_eq!(updates[0].block, "");
    let applied = insert_nav_block(body.clone(), &updates[0].block);
    assert_eq!(applied, "Intro text\nOutro text");
    assert_eq!(updated_body(body, ""), Some("Intro text\nOutro text".to_string()));
}

#[test]
fn the_old_block_goes_and_its_surroundings_are_joined() {
    let body = "Intro text\n<!-- STACK NAVIGATION -->\nold\n<!-- END STACK NAVIGATION -->\nOutro text";
    assert_eq!(remove_nav_block(body.to_string()), "Intro text\nOutro text");
}

#[test]
fn a_whole_pass_settles_every_description() {
    let prs = vec![
        request(2, "f2", "f1", "second\n"),
        request(1, "f1", "main", "  first"),
        request(3, "f3", "f2", ""),
    ];
    let stacks = build_pr_stacks(prs);
    let mut written = Vec::new();
    for update in plan_updates(&stacks) {
        let body = updated_body(update.request.body.clone(), &update.block);
        written.push((update.request.head.clone(), update.block.clone(), body.unwrap()));
    }
    assert_eq!(written.len(), 3);
    for (_, block, body) in &written {
        let again = updated_body(body.clone(), block).unwrap_or(body.clone());
        assert_eq!(updated_body(again, block), None);
    }
    assert!(written[0].2.starts_with("  first\n\n<!-- STACK NAVIGATION -->\n"));
    assert!(written[1].2.starts_with("second\n\n<!-- STACK NAVIGATION -->\n"));
    assert!(written[2].2.starts_with("\n<!-- STACK NAVIGATION -->\n"));
}

#[test]
fn a_stale_opening_marker_is_gone_after_the_first_pass() {
    let block = generate_nav_block(
        vec![request(1, "f1", "main", ""), request(2, "f2", "f1", "")],
        "f1".to_string(),
    );
    let body = format!("x {}", STACK_HEADER);
    let once = insert_nav_block(body, &block);
    assert_eq!(remove_nav_block(once.clone()), "x");
    let twice = insert_nav_block(once, &block);
    let thrice = insert_nav_block(twice.clone(), &block);
    assert_eq!(thrice, twice);
}

#[test]
fn a_stale_closing_marker_keeps_the_description_growing() {
    let block = generate_nav_block(
        vec![request(1, "f1", "main", ""), request(2, "f2", "f1", "")],
        "f1".to_string(),
    );
    let body = format!("x {}", STACK_FOOTER);
    let once = insert_nav_block(body, &block);
    let twice = insert_nav_block(once, &block);
    let thrice = insert_nav_block(twice.clone(), &block);
    assert_ne!(thrice, twice);
}
