//! Bookmarks as the version-control tool lists them, and the choice of the
//! requests that belong to them.

use crate::request::{PullRequest, RequestView};
use crate::text::{chars_of, push_chars, trim_bounds, trimmed};
use vstd::prelude::*;

verus! {

/// How many characters of `text` stand before its first `stop`; all of
/// them where it holds none.
pub open spec fn prefix_len(text: Seq<char>, stop: char) -> nat
    decreases text.len(),
{
    if text.len() == 0 || text[0] == stop {
        0
    } else {
        1 + prefix_len(text.drop_first(), stop)
    }
}

/// The lines of `text`: what stands between its newlines. A newline at the
/// very end opens no further line.
pub open spec fn lines(text: Seq<char>) -> Seq<Seq<char>>
    decreases text.len(),
{
    if text.len() == 0 {
        Seq::empty()
    } else {
        let n = prefix_len(text, '\n') as int;
        if n < text.len() {
            seq![text.take(n)] + lines(text.skip(n + 1))
        } else {
            seq![text]
        }
    }
}

/// Whether `line` names a bookmark: trimmed, it holds a colon.
pub open spec fn names_bookmark(line: Seq<char>) -> bool {
    prefix_len(trimmed(line), ':') < trimmed(line).len()
}

/// The bookmark that `line` names: what stands before its first colon,
/// trimmed.
pub open spec fn bookmark_of(line: Seq<char>) -> Option<Seq<char>> {
    if names_bookmark(line) {
        Some(trimmed(trimmed(line).take(prefix_len(trimmed(line), ':') as int)))
    } else {
        None
    }
}

/// `line`, trimmed, where it is neither blank nor names a bookmark.
pub open spec fn malformed_of(line: Seq<char>) -> Option<Seq<char>> {
    if trimmed(line).len() > 0 && !names_bookmark(line) {
        Some(trimmed(line))
    } else {
        None
    }
}

/// The bookmarks that a listing names, line after line.
pub open spec fn bookmarks_in(text: Seq<char>) -> Seq<Seq<char>> {
    lines(text).filter_map(|line: Seq<char>| bookmark_of(line))
}

/// The lines of a listing that name no bookmark and are not blank.
pub open spec fn malformed_in(text: Seq<char>) -> Seq<Seq<char>> {
    lines(text).filter_map(|line: Seq<char>| malformed_of(line))
}

/// What a listing of bookmarks holds.
#[derive(Debug)]
pub struct BookmarkListing {
    /// The bookmarks, in the order of their lines.
    pub names: Vec<String>,
    /// The lines that were passed over, trimmed.
    pub malformed: Vec<String>,
}

/// The prefix ends within the text, holds no `stop`, and is followed by one.
proof fn lemma_prefix_len_bounds(text: Seq<char>, stop: char)
    ensures
        prefix_len(text, stop) <= text.len(),
        forall|i: int| 0 <= i < prefix_len(text, stop) ==> text[i] != stop,
        prefix_len(text, stop) < text.len() ==> text[prefix_len(text, stop) as int] == stop,
    decreases text.len(),
{
    if text.len() == 0 || text[0] == stop {
    } else {
        let rest = text.drop_first();
        lemma_prefix_len_bounds(rest, stop);
        assert forall|i: int| 0 <= i < prefix_len(text, stop) implies text[i] != stop by {
            if i > 0 {
                assert(text[i] == rest[i - 1]);
            }
        }
        if prefix_len(text, stop) < text.len() {
            assert(text[prefix_len(text, stop) as int] == rest[prefix_len(rest, stop) as int]);
        }
    }
}

/// The prefix is as long as the stretch in front of the first `stop`.
proof fn lemma_prefix_len_is(text: Seq<char>, stop: char, n: int)
    requires
        0 <= n <= text.len(),
        forall|i: int| 0 <= i < n ==> text[i] != stop,
        n < text.len() ==> text[n] == stop,
    ensures
        prefix_len(text, stop) == n,
{
    lemma_prefix_len_bounds(text, stop);
    let m = prefix_len(text, stop) as int;
    if m < n {
        assert(text[m] != stop);
    } else if n < m {
        assert(text[n] != stop);
    }
}

/// Where the first `stop` of `v[from..to]` stands; `to` where there is none.
fn scan_to(v: &Vec<char>, from: usize, to: usize, stop: char) -> (at: usize)
    requires
        from <= to <= v.len(),
    ensures
        from <= at <= to,
        at - from == prefix_len(v@.subrange(from as int, to as int), stop),
{
    let ghost part = v@.subrange(from as int, to as int);
    let mut at: usize = from;
    while at < to && v[at] != stop
        invariant
            from <= at <= to <= v.len(),
            forall|i: int| from <= i < at ==> v@[i] != stop,
        decreases to - at,
    {
        at += 1;
    }
    proof {
        assert forall|i: int| 0 <= i < at - from implies part[i] != stop by {
            assert(part[i] == v@[from + i]);
        }
        if at < to {
            assert(part[at - from] == v@[at as int]);
        }
        lemma_prefix_len_is(part, stop, at - from);
    }
    at
}

/// The string that holds the characters `v[from..to]`.
fn string_of(v: &Vec<char>, from: usize, to: usize) -> (s: String)
    requires
        from <= to <= v.len(),
    ensures
        s@ == v@.subrange(from as int, to as int),
{
    let mut s = String::new();
    push_chars(&mut s, v, from, to);
    assert(s@ =~= v@.subrange(from as int, to as int));
    s
}

/// Reads a listing of bookmarks, one to a line, each followed by a colon and
/// whatever else the tool says of it. Blank lines count for nothing; a line
/// without a colon is handed back as malformed.
pub fn parse_bookmarks(text: &str) -> (listing: BookmarkListing)
    ensures
        listing.names.deep_view() == bookmarks_in(text@),
        listing.malformed.deep_view() == malformed_in(text@),
{
    let chars = chars_of(text);
    let ghost whole = chars@;
    let mut names: Vec<String> = Vec::new();
    let mut malformed: Vec<String> = Vec::new();
    let ghost mut done: Seq<Seq<char>> = Seq::empty();
    let mut pos: usize = 0;
    proof {
        assert(whole.skip(0) =~= whole);
        assert(done + lines(whole.skip(0)) =~= lines(whole));
    }
    while pos < chars.len()
        invariant
            pos <= chars.len(),
            whole == chars@,
            done + lines(whole.skip(pos as int)) == lines(whole),
            names.deep_view() == done.filter_map(|line: Seq<char>| bookmark_of(line)),
            malformed.deep_view() == done.filter_map(|line: Seq<char>| malformed_of(line)),
        decreases chars.len() - pos,
    {
        let ghost rest = whole.skip(pos as int);
        let end = scan_to(&chars, pos, chars.len(), '\n');
        let ghost line = whole.subrange(pos as int, end as int);
        let ghost grown = done.push(line);
        let ghost found = names.deep_view();
        let ghost passed = malformed.deep_view();
        let (lo, hi) = trim_bounds(&chars, pos, end);
        proof {
            assert(rest =~= whole.subrange(pos as int, whole.len() as int));
            assert(rest.take(end - pos) =~= line);
            assert(grown.drop_last() =~= done);
            assert(grown.last() == line);
        }
        if lo < hi {
            let colon = scan_to(&chars, lo, hi, ':');
            if colon < hi {
                let (name_lo, name_hi) = trim_bounds(&chars, lo, colon);
                let name = string_of(&chars, name_lo, name_hi);
                proof {
                    assert(whole.subrange(lo as int, hi as int).take(colon - lo)
                        =~= whole.subrange(lo as int, colon as int));
                    assert(bookmark_of(line) == Some(name@));
                    assert(malformed_of(line) is None);
                }
                names.push(name);
                proof {
                    assert(names.deep_view() =~= found + seq![name@]);
                }
            } else {
                let passed_over = string_of(&chars, lo, hi);
                proof {
                    assert(bookmark_of(line) is None);
                    assert(malformed_of(line) == Some(passed_over@));
                }
                malformed.push(passed_over);
                proof {
                    assert(malformed.deep_view() =~= passed + seq![passed_over@]);
                }
            }
        } else {
            proof {
                assert(trimmed(line).len() == 0);
                assert(bookmark_of(line) is None);
                assert(malformed_of(line) is None);
            }
        }
        proof {
            if end < chars.len() {
                assert(rest.skip(end - pos + 1) =~= whole.skip(end + 1));
                assert(grown + lines(whole.skip(end + 1)) =~= done + lines(rest));
            } else {
                assert(whole.skip(end as int).len() == 0);
                assert(grown + lines(whole.skip(end as int)) =~= done + lines(rest));
            }
            done = grown;
        }
        pos = if end < chars.len() {
            end + 1
        } else {
            end
        };
    }
    proof {
        assert(whole.skip(pos as int).len() == 0);
        assert(done =~= lines(whole));
    }
    BookmarkListing { names, malformed }
}

/// A branch as the hosting platform names it.
#[derive(Debug)]
pub struct GithubReference {
    /// The branch's name.
    pub name: String,
}

/// A pull request as the hosting platform reports it.
#[derive(Debug)]
pub struct GithubPullRequest {
    pub number: i32,
    pub title: String,
    pub body: Option<String>,
    pub head: GithubReference,
    pub base: GithubReference,
}

/// What a `GithubPullRequest` holds, as plain mathematical values.
pub struct ReportView {
    pub number: int,
    pub title: Seq<char>,
    pub body: Option<Seq<char>>,
    pub head: Seq<char>,
    pub base: Seq<char>,
}

impl View for GithubPullRequest {
    type V = ReportView;

    open spec fn view(&self) -> ReportView {
        ReportView {
            number: self.number as int,
            title: self.title@,
            body: match self.body {
                Some(text) => Some(text@),
                None => None,
            },
            head: self.head.name@,
            base: self.base.name@,
        }
    }
}

impl DeepView for GithubPullRequest {
    type V = ReportView;

    open spec fn deep_view(&self) -> ReportView {
        self.view()
    }
}

/// The request that a report describes; a report without a description
/// gives an empty one.
pub open spec fn request_of(report: ReportView) -> RequestView {
    RequestView {
        number: report.number,
        title: report.title,
        head: report.head,
        base: report.base,
        body: match report.body {
            Some(text) => text,
            None => Seq::empty(),
        },
    }
}

/// The request of `report` where its head is one of `bookmarks`.
pub open spec fn bookmarked(report: ReportView, bookmarks: Seq<Seq<char>>) -> Option<RequestView> {
    if bookmarks.contains(report.head) {
        Some(request_of(report))
    } else {
        None
    }
}

/// Whether `branch` is one of `bookmarks`.
pub fn is_bookmark(bookmarks: &Vec<String>, branch: &String) -> (found: bool)
    ensures
        found == bookmarks.deep_view().contains(branch@),
{
    let mut i: usize = 0;
    while i < bookmarks.len()
        invariant
            i <= bookmarks.len(),
            forall|j: int| 0 <= j < i ==> bookmarks.deep_view()[j] != branch@,
        decreases bookmarks.len() - i,
    {
        assert(bookmarks.deep_view()[i as int] == bookmarks[i as int]@);
        if bookmarks[i] == *branch {
            return true;
        }
        i += 1;
    }
    false
}

/// The requests among `reports` whose head is one of `bookmarks`, in the
/// order of `reports`.
pub fn bookmarked_requests(reports: &Vec<GithubPullRequest>, bookmarks: &Vec<String>) -> (prs: Vec<
    PullRequest,
>)
    ensures
        prs.deep_view() == reports.deep_view().filter_map(
            |report: ReportView| bookmarked(report, bookmarks.deep_view()),
        ),
{
    let ghost all = reports.deep_view();
    let ghost choice = |report: ReportView| bookmarked(report, bookmarks.deep_view());
    let mut prs: Vec<PullRequest> = Vec::new();
    let mut i: usize = 0;
    assert(all.take(0) =~= Seq::<ReportView>::empty());
    while i < reports.len()
        invariant
            i <= reports.len(),
            all == reports.deep_view(),
            choice == |report: ReportView| bookmarked(report, bookmarks.deep_view()),
            prs.deep_view() == all.take(i as int).filter_map(choice),
        decreases reports.len() - i,
    {
        let report = &reports[i];
        let ghost before = prs.deep_view();
        proof {
            assert(all[i as int] == report@);
            all.lemma_filter_map_take_succ(choice, i as int);
        }
        if is_bookmark(bookmarks, &report.head.name) {
            let body = match &report.body {
                Some(text) => text.clone(),
                None => String::new(),
            };
            let pr = PullRequest {
                number: report.number,
                title: report.title.clone(),
                head: report.head.name.clone(),
                base: report.base.name.clone(),
                body,
            };
            assert(pr@ == request_of(report@));
            prs.push(pr);
            assert(prs.deep_view() =~= before + seq![request_of(report@)]);
        }
        i += 1;
    }
    assert(all.take(reports.len() as int) =~= all);
    prs
}

} // verus!
