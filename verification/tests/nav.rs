use jjstack::nav::{
    generate_nav_block, has_marker, insert_nav_block, remove_nav_block, render_nav_block,
    updated_body, STACK_FOOTER, STACK_HEADER,
};
use jjstack::request::PullRequest;

fn request(number: i32, head: &str, base: &str) -> PullRequest {
    PullRequest {
        number,
        title: format!("change {}", number),
        head: head.to_string(),
        base: base.to_string(),
        body: String::new(),
    }
}

fn chain() -> Vec<PullRequest> {
    vec![request(11, "f1", "main"), request(12, "f2", "f1"), request(13, "f3", "f2")]
}

/// The same removal written with the standard library's own search and trim.
fn removal_by_std(body: &str) -> String {
    let start = match body.find(STACK_HEADER) {
        Some(at) => at,
        None => return body.to_string(),
    };
    let end = match body.find(STACK_FOOTER) {
        Some(at) => at + STACK_FOOTER.len(),
        None => return body.to_string(),
    };
    let before = body[..start].trim();
    let after = body[end..].trim();
    if before.is_empty() || after.is_empty() {
        return format!("{}{}", before, after);
    }
    format!("{}\n{}", before, after)
}

fn block_of(text: &str) -> String {
    format!("{}\n{}\n{}\n", STACK_HEADER, text, STACK_FOOTER)
}

#[test]
fn markers_are_the_documented_comments() {
    assert_eq!(STACK_HEADER, "<!-- STACK NAVIGATION -->");
    assert_eq!(STACK_FOOTER, "<!-- END STACK NAVIGATION -->");
}

#[test]
fn block_marks_the_current_request_only() {
    let block = generate_nav_block(chain(), "f2".to_string());
    assert_eq!(
        block,
        "<!-- STACK NAVIGATION -->\n\
         Stack of changes:\n\
         1. PR #11 (branch: f1)\n\
         2. PR #12 (branch: f2) ◁\n\
         3. PR #13 (branch: f3)\n\
         <!-- END STACK NAVIGATION -->\n"
    );
}

#[test]
fn block_without_a_current_request_marks_nothing() {
    let block = generate_nav_block(chain(), "elsewhere".to_string());
    assert!(!block.contains('◁'));
    assert_eq!(block.lines().count(), 6);
}

#[test]
fn block_of_no_requests_is_markers_and_label() {
    let block = generate_nav_block(Vec::new(), "f1".to_string());
    assert_eq!(
        block,
        "<!-- STACK NAVIGATION -->\nStack of changes:\n<!-- END STACK NAVIGATION -->\n"
    );
}

#[test]
fn block_numbers_lines_past_nine_and_writes_negative_numbers() {
    let mut long = Vec::new();
    for i in 0..12 {
        long.push(request(-3 + i, &format!("b{}", i), "main"));
    }
    let block = generate_nav_block(long, "b11".to_string());
    let lines: Vec<&str> = block.lines().collect();
    assert_eq!(lines[2], "1. PR #-3 (branch: b0)");
    assert_eq!(lines[5], "4. PR #0 (branch: b3)");
    assert_eq!(lines[11], "10. PR #6 (branch: b9)");
    assert_eq!(lines[13], "12. PR #8 (branch: b11) ◁");
}

#[test]
fn block_marks_every_request_that_shares_the_current_head() {
    let twins = vec![request(1, "same", "main"), request(2, "same", "main")];
    let block = generate_nav_block(twins, "same".to_string());
    assert_eq!(block.matches('◁').count(), 2);
}

#[test]
fn render_by_reference_gives_the_same_block() {
    let by_value = generate_nav_block(chain(), "f3".to_string());
    let by_reference = render_nav_block(&chain(), &"f3".to_string());
    assert_eq!(by_value, by_reference);
}

#[test]
fn removal_joins_what_surrounds_the_block() {
    let body = "Intro text\n<!-- STACK NAVIGATION -->\nold\n<!-- END STACK NAVIGATION -->\nOutro text";
    assert_eq!(remove_nav_block(body.to_string()), "Intro text\nOutro text");
}

#[test]
fn removal_leaves_no_blank_line_at_either_end() {
    let at_start = format!("{}\n\nOutro", block_of("old"));
    assert_eq!(remove_nav_block(at_start), "Outro");
    let at_end = format!("Intro\n\n{}", block_of("old"));
    assert_eq!(remove_nav_block(at_end), "Intro");
    assert_eq!(remove_nav_block(block_of("old")), "");
}

#[test]
fn removal_needs_both_markers() {
    let untouched = [
        "".to_string(),
        "  plain text \n".to_string(),
        format!("a\n{}\nb  ", STACK_HEADER),
        format!("  a\n{}\nb", STACK_FOOTER),
    ];
    for body in untouched {
        assert_eq!(remove_nav_block(body.clone()), body);
    }
}

#[test]
fn removal_goes_by_the_first_of_each_marker() {
    let two_blocks = format!("a\n{}\nb\n{}", block_of("x"), block_of("y"));
    assert_eq!(remove_nav_block(two_blocks.clone()), format!("a\nb\n{}", block_of("y").trim()));
    let reversed = format!("{} a {}", STACK_FOOTER, STACK_HEADER);
    assert_eq!(
        remove_nav_block(reversed),
        format!("{} a\na {}", STACK_FOOTER, STACK_HEADER)
    );
}

#[test]
fn removal_agrees_with_the_standard_library() {
    let bodies = [
        "".to_string(),
        "text".to_string(),
        format!("é◁\n{}\u{a0}\n tail\u{3000}", block_of("◁")),
        format!("\u{2003}{}{}", STACK_HEADER, STACK_FOOTER),
        format!("{}{}", STACK_FOOTER, STACK_HEADER),
        format!("{}\n{}", STACK_FOOTER, STACK_HEADER),
        format!("a{}b{}c{}d{}e", STACK_HEADER, STACK_HEADER, STACK_FOOTER, STACK_FOOTER),
        format!("<!-- STACK NAVIGATION --{}", block_of("partial marker before")),
        format!("one\r\n{}\r\ntwo", block_of("crlf")),
    ];
    for body in bodies {
        assert_eq!(remove_nav_block(body.clone()), removal_by_std(&body), "{:?}", body);
    }
}

#[test]
fn removal_twice_is_removal_once_where_no_pair_is_left() {
    let bodies = [
        "plain".to_string(),
        format!("a\n{}\nb", block_of("x")),
        format!("{}\n\n", block_of("x")),
        format!("  a {} ", STACK_HEADER),
    ];
    for body in bodies {
        let once = remove_nav_block(body);
        assert_eq!(remove_nav_block(once.clone()), once);
    }
}

#[test]
fn removal_leaves_a_knot_alone() {
    let knot = format!("a {}\n{} b", STACK_FOOTER, STACK_HEADER);
    assert_eq!(remove_nav_block(knot.clone()), knot);
}

#[test]
fn removal_twice_differs_where_a_second_block_is_left() {
    let body = format!("{} {}", block_of("x"), block_of("y"));
    let once = remove_nav_block(body);
    assert_ne!(remove_nav_block(once.clone()), once);
}

#[test]
fn has_marker_sees_either_marker() {
    assert!(!has_marker("nothing here"));
    assert!(has_marker(&format!("x{}y", STACK_HEADER)));
    assert!(has_marker(&format!("x{}y", STACK_FOOTER)));
    assert!(has_marker(&block_of("both")));
    assert!(!has_marker("<!-- STACK NAVIGATION --"));
}

#[test]
fn insertion_ends_the_last_line_and_leaves_a_blank_line() {
    let block = block_of("x");
    assert_eq!(
        insert_nav_block("text".to_string(), &block),
        format!("text\n\n{}\n", block)
    );
}

#[test]
fn insertion_adds_no_newline_to_an_ended_line() {
    let block = block_of("x");
    assert_eq!(
        insert_nav_block("text\n".to_string(), &block),
        format!("text\n\n{}\n", block)
    );
    assert_eq!(
        insert_nav_block("text\n\n".to_string(), &block),
        format!("text\n\n\n{}\n", block)
    );
}

#[test]
fn insertion_into_an_empty_description_starts_with_one_newline() {
    let block = block_of("x");
    assert_eq!(insert_nav_block(String::new(), &block), format!("\n{}\n", block));
}

#[test]
fn insertion_replaces_the_block_that_is_there() {
    let old = format!("Intro\n\n{}\nOutro", block_of("old"));
    let block = block_of("new");
    assert_eq!(insert_nav_block(old, &block), format!("Intro\nOutro\n\n{}\n", block));
}

#[test]
fn insertion_of_nothing_only_removes() {
    let old = format!("Intro\n\n{}\n", block_of("old"));
    assert_eq!(insert_nav_block(old, ""), "Intro");
    assert_eq!(insert_nav_block("plain \n".to_string(), ""), "plain \n");
}

#[test]
fn insertion_then_removal_gives_the_trimmed_description() {
    let block = generate_nav_block(chain(), "f2".to_string());
    for body in ["", "text", "  text\n\n", "a\nb\n", "\n"] {
        let inserted = insert_nav_block(body.to_string(), &block);
        assert_eq!(remove_nav_block(inserted), body.trim(), "{:?}", body);
    }
    let with_old = format!("Intro \n{}\n Outro\n", block_of("old"));
    let inserted = insert_nav_block(with_old, &block);
    assert_eq!(remove_nav_block(inserted), "Intro\nOutro");
}

#[test]
fn insertion_settles_after_the_second_time() {
    let block = generate_nav_block(chain(), "f1".to_string());
    for body in ["", "text", "  text\n\n", "a\nb\n"] {
        let once = insert_nav_block(body.to_string(), &block);
        let twice = insert_nav_block(once, &block);
        let thrice = insert_nav_block(twice.clone(), &block);
        assert_eq!(thrice, twice, "{:?}", body);
        assert_eq!(thrice.matches(STACK_HEADER).count(), 1);
        assert_eq!(thrice.matches(STACK_FOOTER).count(), 1);
    }
}

#[test]
fn insertion_after_a_head_that_holds_the_closing_marker_does_not_come_back() {
    let odd = vec![request(1, STACK_FOOTER, "main"), request(2, "f2", STACK_FOOTER)];
    let block = generate_nav_block(odd, "f2".to_string());
    let inserted = insert_nav_block("text".to_string(), &block);
    assert_ne!(remove_nav_block(inserted), "text");
}

#[test]
fn updated_body_is_nothing_where_nothing_changes() {
    let block = generate_nav_block(chain(), "f1".to_string());
    let settled = insert_nav_block("text".to_string(), &block);
    assert_eq!(updated_body(settled.clone(), &block), None);
    assert_eq!(updated_body("plain".to_string(), ""), None);
}

#[test]
fn updated_body_is_the_description_with_the_block() {
    let block = generate_nav_block(chain(), "f1".to_string());
    let other = generate_nav_block(chain(), "f2".to_string());
    let settled = insert_nav_block("text".to_string(), &block);
    assert_eq!(updated_body("text".to_string(), &block), Some(settled.clone()));
    assert_eq!(
        updated_body(settled.clone(), &other),
        Some(format!("text\n\n{}\n", other))
    );
    assert_eq!(updated_body(settled, ""), Some("text".to_string()));
}
