use jjstack::bookmarks::{
    bookmarked_requests, is_bookmark, parse_bookmarks, GithubPullRequest, GithubReference,
};

fn names(text: &str) -> Vec<String> {
    parse_bookmarks(text).names
}

/// The same reading written with the standard library's own line splitting.
fn names_by_std(text: &str) -> (Vec<String>, Vec<String>) {
    let mut names = Vec::new();
    let mut malformed = Vec::new();
    for line in text.lines() {
        let line = line.trim();
        if line.is_empty() {
            continue;
        }
        if let Some((bookmark, _)) = line.split_once(':') {
            names.push(bookmark.trim().to_string());
        } else {
            malformed.push(line.to_string());
        }
    }
    (names, malformed)
}

#[test]
fn each_line_names_one_bookmark() {
    let text = "feature-a: qpvuntsm 1a2b3c4d add a\nfeature-b: rlvkpnrz 5e6f7a8b add b\n";
    assert_eq!(names(text), vec!["feature-a", "feature-b"]);
    assert!(parse_bookmarks(text).malformed.is_empty());
}

#[test]
fn the_name_ends_at_the_first_colon_and_is_trimmed() {
    assert_eq!(names("  main : abc: def"), vec!["main"]);
    assert_eq!(names("  @origin: xyz"), vec!["@origin"]);
    assert_eq!(names(": nameless"), vec![""]);
    assert_eq!(names("a:"), vec!["a"]);
}

#[test]
fn blank_lines_count_for_nothing() {
    let listing = parse_bookmarks("\n  \n\t\na: 1\n\n");
    assert_eq!(listing.names, vec!["a"]);
    assert!(listing.malformed.is_empty());
}

#[test]
fn lines_without_a_colon_are_handed_back() {
    let listing = parse_bookmarks("a: 1\n  no colon here  \nb: 2");
    assert_eq!(listing.names, vec!["a", "b"]);
    assert_eq!(listing.malformed, vec!["no colon here"]);
}

#[test]
fn an_empty_listing_holds_nothing() {
    let listing = parse_bookmarks("");
    assert!(listing.names.is_empty());
    assert!(listing.malformed.is_empty());
}

#[test]
fn carriage_returns_are_trimmed_away() {
    assert_eq!(names("a: 1\r\nb: 2\r\n"), vec!["a", "b"]);
}

#[test]
fn reading_agrees_with_the_standard_library() {
    let texts = [
        "",
        "\n",
        "a: 1",
        "a: 1\n",
        "a: 1\n\nb\n c : d : e \n",
        "x\r\ny: z\r\n\r\n",
        " \u{a0}é◁ : v\n:\n::\n \u{3000}\n",
        "no newline at end: yes",
        "\n\n\nlate: 1",
    ];
    for text in texts {
        let listing = parse_bookmarks(text);
        let (names, malformed) = names_by_std(text);
        assert_eq!(listing.names, names, "{:?}", text);
        assert_eq!(listing.malformed, malformed, "{:?}", text);
    }
}

fn report(number: i32, head: &str, base: &str, body: Option<&str>) -> GithubPullRequest {
    GithubPullRequest {
        number,
        title: format!("change {}", number),
        body: body.map(|text| text.to_string()),
        head: GithubReference { name: head.to_string() },
        base: GithubReference { name: base.to_string() },
    }
}

#[test]
fn is_bookmark_looks_for_the_whole_name() {
    let bookmarks = vec!["f1".to_string(), "f2".to_string()];
    assert!(is_bookmark(&bookmarks, &"f2".to_string()));
    assert!(!is_bookmark(&bookmarks, &"f".to_string()));
    assert!(!is_bookmark(&bookmarks, &"f22".to_string()));
    assert!(!is_bookmark(&Vec::new(), &"f1".to_string()));
}

#[test]
fn only_requests_on_bookmarks_are_kept() {
    let reports = vec![
        report(1, "f1", "main", Some("one")),
        report(2, "other", "main", Some("two")),
        report(3, "f3", "f1", None),
    ];
    let bookmarks = vec!["f3".to_string(), "f1".to_string(), "unused".to_string()];
    let prs = bookmarked_requests(&reports, &bookmarks);
    assert_eq!(prs.len(), 2);
    assert_eq!(prs[0].number, 1);
    assert_eq!(prs[0].title, "change 1");
    assert_eq!(prs[0].head, "f1");
    assert_eq!(prs[0].base, "main");
    assert_eq!(prs[0].body, "one");
    assert_eq!(prs[1].number, 3);
    assert_eq!(prs[1].head, "f3");
    assert_eq!(prs[1].base, "f1");
    assert_eq!(prs[1].body, "");
}

#[test]
fn without_bookmarks_no_request_is_kept() {
    let reports = vec![report(1, "f1", "main", None)];
    assert!(bookmarked_requests(&reports, &Vec::new()).is_empty());
    assert!(bookmarked_requests(&Vec::new(), &vec!["f1".to_string()]).is_empty());
}
