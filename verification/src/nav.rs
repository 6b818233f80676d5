//! The navigation block: its text for a stack, and how it is taken out of
//! and put into a request's description.

use crate::request::{PullRequest, RequestView};
use crate::text::{
    chars_of, decimal, find, first_index, occurs, occurs_at, push_chars, push_decimal,
    push_signed_decimal, signed_decimal, trim_bounds, trimmed,
};
use vstd::prelude::*;

verus! {

/// The line that opens a navigation block.
pub const STACK_HEADER: &'static str = "<!-- STACK NAVIGATION -->";

/// The line that closes a navigation block.
pub const STACK_FOOTER: &'static str = "<!-- END STACK NAVIGATION -->";

/// The opening marker as text.
pub open spec fn header() -> Seq<char> {
    STACK_HEADER@
}

/// The closing marker as text.
pub open spec fn footer() -> Seq<char> {
    STACK_FOOTER@
}

/// Whether `body` holds both markers, in whatever order.
pub open spec fn has_block(body: Seq<char>) -> bool {
    occurs(body, header()) && occurs(body, footer())
}

/// What stood before a block joined to what stood after it: one newline
/// between them where neither is empty.
pub open spec fn join_around(before: Seq<char>, after: Seq<char>) -> Seq<char> {
    if before.len() == 0 || after.len() == 0 {
        before + after
    } else {
        before + seq!['\n'] + after
    }
}

/// `body` without its navigation block: what precedes the first opening
/// marker and what follows the first closing marker, each trimmed, joined by
/// `join_around`. A body that lacks either marker stays as it is.
pub open spec fn without_block(body: Seq<char>) -> Seq<char> {
    if has_block(body) {
        let start = first_index(body, header());
        let end = first_index(body, footer()) + footer().len();
        join_around(
            trimmed(body.subrange(0, start)),
            trimmed(body.subrange(end, body.len() as int)),
        )
    } else {
        body
    }
}

/// The newline that ends the last line of `text` where it has none: nothing
/// for an empty text or one that ends in a newline.
pub open spec fn line_end(text: Seq<char>) -> Seq<char> {
    if text.len() > 0 && text.last() != '\n' {
        seq!['\n']
    } else {
        Seq::empty()
    }
}

/// `body` with `block` in place of whatever block it held: the cleaned body,
/// its last line ended, a blank line, the block and a final newline. An empty
/// `block` only removes.
pub open spec fn with_block(body: Seq<char>, block: Seq<char>) -> Seq<char> {
    let clean = without_block(body);
    if block.len() == 0 {
        clean
    } else {
        clean + line_end(clean) + seq!['\n'] + block + seq!['\n']
    }
}

/// The mark on the line of the current request.
pub open spec fn current_mark() -> Seq<char> {
    " ◁"@
}

/// The line for the request at the 1-based `position` of its stack.
pub open spec fn nav_line(position: int, request: RequestView, current: Seq<char>) -> Seq<char> {
    decimal(position as nat) + ". PR #"@ + signed_decimal(request.number) + " (branch: "@
        + request.head + ")"@ + (if request.head == current {
        current_mark()
    } else {
        Seq::empty()
    }) + seq!['\n']
}

/// The lines of all requests of `chain`, in order.
pub open spec fn nav_lines(chain: Seq<RequestView>, current: Seq<char>) -> Seq<char> {
    chain.map(|i: int, r: RequestView| nav_line(i + 1, r, current)).flatten()
}

/// The navigation block for `chain`, seen from the request whose head is
/// `current`.
pub open spec fn nav_block(chain: Seq<RequestView>, current: Seq<char>) -> Seq<char> {
    header() + seq!['\n'] + "Stack of changes:"@ + seq!['\n'] + nav_lines(chain, current)
        + footer() + seq!['\n']
}

/// Renders the navigation block for `chain`, marking the request whose head
/// is `current_branch`.
pub fn generate_nav_block(chain: Vec<PullRequest>, current_branch: String) -> (block: String)
    ensures
        block@ == nav_block(chain.deep_view(), current_branch@),
{
    render_nav_block(&chain, &current_branch)
}

/// Renders the navigation block for `chain`, marking the request whose head
/// is `current_branch`.
pub fn render_nav_block(chain: &Vec<PullRequest>, current_branch: &String) -> (block: String)
    ensures
        block@ == nav_block(chain.deep_view(), current_branch@),
{
    let ghost views = chain.deep_view();
    let ghost lines = views.map(|i: int, r: RequestView| nav_line(i + 1, r, current_branch@));
    let mut block = String::new();
    block.append(STACK_HEADER);
    block.push('\n');
    block.append("Stack of changes:");
    block.push('\n');
    let ghost intro = header() + seq!['\n'] + "Stack of changes:"@ + seq!['\n'];
    assert(block@ =~= intro);
    assert(lines.take(0) =~= Seq::<Seq<char>>::empty());
    let mut i: usize = 0;
    while i < chain.len()
        invariant
            i <= chain.len(),
            views == chain.deep_view(),
            lines == views.map(|i: int, r: RequestView| nav_line(i + 1, r, current_branch@)),
            block@ == intro + lines.take(i as int).flatten(),
        decreases chain.len() - i,
    {
        let ghost before = block@;
        let request = &chain[i];
        push_decimal(&mut block, (i + 1) as u64);
        block.append(". PR #");
        push_signed_decimal(&mut block, request.number);
        block.append(" (branch: ");
        block.append(request.head.as_str());
        block.append(")");
        if request.head == *current_branch {
            block.append(" ◁");
        }
        block.push('\n');
        proof {
            let line = nav_line(i + 1, views[i as int], current_branch@);
            assert(views[i as int] == request@);
            assert(lines[i as int] == line);
            assert(block@ =~= before + line);
            assert(lines.take(i + 1) =~= lines.take(i as int).push(line));
            lines.take(i as int).lemma_flatten_push(line);
            assert(block@ =~= intro + lines.take(i + 1).flatten());
        }
        i += 1;
    }
    assert(lines.take(chain.len() as int) =~= lines);
    block.append(STACK_FOOTER);
    block.push('\n');
    assert(block@ =~= nav_block(views, current_branch@));
    block
}

/// Takes the navigation block out of `body`.
pub fn remove_nav_block(body: String) -> (cleaned: String)
    ensures
        cleaned@ == without_block(body@),
{
    let text = chars_of(body.as_str());
    let opening = chars_of(STACK_HEADER);
    let closing = chars_of(STACK_FOOTER);
    let start = match find(&text, &opening) {
        Some(at) => at,
        None => {
            return body;
        },
    };
    let end = match find(&text, &closing) {
        Some(at) => {
            assert(occurs_at(text@, closing@, at as int));
            assert(at + closing.len() <= text.len());
            at + closing.len()
        },
        None => {
            return body;
        },
    };
    let (before_lo, before_hi) = trim_bounds(&text, 0, start);
    let (after_lo, after_hi) = trim_bounds(&text, end, text.len());
    let mut cleaned = String::new();
    push_chars(&mut cleaned, &text, before_lo, before_hi);
    if before_lo < before_hi && after_lo < after_hi {
        cleaned.push('\n');
    }
    push_chars(&mut cleaned, &text, after_lo, after_hi);
    assert(cleaned@ =~= without_block(body@));
    cleaned
}

/// Whether `body` holds the opening or the closing marker.
pub fn has_marker(body: &str) -> (found: bool)
    ensures
        found == (occurs(body@, header()) || occurs(body@, footer())),
{
    let text = chars_of(body);
    let opening = chars_of(STACK_HEADER);
    if find(&text, &opening).is_some() {
        return true;
    }
    let closing = chars_of(STACK_FOOTER);
    find(&text, &closing).is_some()
}

/// The description to write where a request whose description is `current`
/// is to carry `block`: nothing where putting the block in changes nothing.
pub fn updated_body(current: String, block: &str) -> (update: Option<String>)
    ensures
        update is None <==> with_block(current@, block@) == current@,
        update matches Some(body) ==> body@ == with_block(current@, block@),
{
    let updated = insert_nav_block(current.clone(), block);
    if updated == current {
        None
    } else {
        Some(updated)
    }
}

/// Puts `block` into `body` in place of whatever block it held; an empty
/// `block` only removes.
pub fn insert_nav_block(body: String, block: &str) -> (updated: String)
    ensures
        updated@ == with_block(body@, block@),
{
    let mut updated = remove_nav_block(body);
    if block.is_empty() {
        return updated;
    }
    let ghost clean = updated@;
    let cleaned = chars_of(updated.as_str());
    if cleaned.len() > 0 && cleaned[cleaned.len() - 1] != '\n' {
        updated.push('\n');
    }
    assert(updated@ =~= clean + line_end(clean));
    updated.push('\n');
    updated.append(block);
    updated.push('\n');
    updated
}

} // verus!
