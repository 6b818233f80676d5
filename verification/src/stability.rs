//! What taking a block out and putting one in do to a description when
//! they are repeated.

use crate::nav::{
    current_mark, footer, has_block, header, join_around, line_end, nav_block, nav_line,
    nav_lines, with_block, without_block,
};
use crate::request::RequestView;
use crate::text::{
    all_space, decimal, first_index, is_first, is_space, is_trim_of, lacks, lemma_first_index,
    lemma_first_unique, lemma_occurrence_avoids, lemma_occurs_in_part, lemma_occurs_in_whole,
    lemma_trim_bounds_exist, lemma_trimmed_all_space, lemma_trimmed_bounds,
    lemma_trimmed_ignores_trailing_space, occurs, occurs_at, signed_decimal, trimmed,
};
use vstd::prelude::*;

verus! {

/// Neither marker stands in `text`.
pub open spec fn marker_free(text: Seq<char>) -> bool {
    !occurs(text, header()) && !occurs(text, footer())
}

/// No request of `chain` has the closing marker in its head.
pub open spec fn plain_heads(chain: Seq<RequestView>) -> bool {
    forall|i: int| 0 <= i < chain.len() ==> !occurs(#[trigger] chain[i].head, footer())
}

/// What the two markers are made of.
proof fn lemma_markers()
    ensures
        header().len() == 25,
        footer().len() == 29,
        lacks(header(), '\n'),
        lacks(footer(), '\n'),
        lacks(footer(), ')'),
        footer()[0] == '<',
{
    reveal_strlit("<!-- STACK NAVIGATION -->");
    reveal_strlit("<!-- END STACK NAVIGATION -->");
}

/// A pattern that does not stand in `clean` does not start in `clean` or in
/// the padding behind it either, where the padding is made of characters
/// that the pattern lacks.
proof fn lemma_not_before_padding(
    clean: Seq<char>,
    pad: Seq<char>,
    rest: Seq<char>,
    pat: Seq<char>,
    j: int,
)
    requires
        !occurs(clean, pat),
        pad.len() > 0,
        forall|k: int| 0 <= k < pad.len() ==> lacks(pat, #[trigger] pad[k]),
        pat.len() > 0,
        0 <= j < clean.len() + pad.len(),
    ensures
        !occurs_at(clean + pad + rest, pat, j),
{
    let text = clean + pad + rest;
    if occurs_at(text, pat, j) {
        if j + pat.len() <= clean.len() {
            assert(text.subrange(0, clean.len() as int) =~= clean);
            lemma_occurs_in_part(text, pat, 0, clean.len() as int, j);
            assert(occurs_at(clean, pat, j));
        } else {
            let q = if j < clean.len() {
                clean.len() as int
            } else {
                j
            };
            assert(text[q] == pad[q - clean.len()]);
            lemma_occurrence_avoids(text, pat, j, q);
        }
    }
}

/// Taking the block out of a description into which `block` was just put
/// gives the cleaned description, trimmed, where `block` is the opening
/// marker, `mid`, the closing marker and whitespace, and the closing marker
/// stands nowhere earlier in it.
#[verifier::rlimit(40)]
proof fn lemma_remove_inserted(body: Seq<char>, block: Seq<char>, mid: Seq<char>, tail: Seq<char>)
    requires
        marker_free(without_block(body)),
        block == header() + mid + footer() + tail,
        all_space(tail),
        forall|j: int|
            0 <= j < header().len() + mid.len() ==> !occurs_at(
                header() + mid + footer(),
                footer(),
                j,
            ),
    ensures
        without_block(with_block(body, block)) == trimmed(without_block(body)),
{
    lemma_markers();
    let clean = without_block(body);
    let pad = line_end(clean) + seq!['\n'];
    let rest = block + seq!['\n'];
    let text = clean + pad + rest;
    let whole = header() + mid + footer();
    let start = (clean.len() + pad.len()) as int;
    let close: int = start + header().len() + mid.len();
    let end: int = close + footer().len();
    assert(with_block(body, block) =~= text);
    assert(is_space('\n'));
    assert(all_space(pad));
    assert forall|k: int| 0 <= k < pad.len() implies lacks(header(), #[trigger] pad[k]) && lacks(
        footer(),
        pad[k],
    ) by {
        assert(pad[k] == '\n');
    }
    assert(is_first(text, header(), start)) by {
        assert(text.subrange(start, start + header().len()) =~= header());
        assert forall|j: int| 0 <= j < start implies !occurs_at(text, header(), j) by {
            lemma_not_before_padding(clean, pad, rest, header(), j);
        }
    }
    lemma_first_unique(text, header(), start);
    assert(text.subrange(start, end) =~= whole);
    assert(is_first(text, footer(), close)) by {
        assert(text.subrange(close, close + footer().len()) =~= footer());
        assert forall|j: int| 0 <= j < close implies !occurs_at(text, footer(), j) by {
            if j < start {
                lemma_not_before_padding(clean, pad, rest, footer(), j);
            } else {
                lemma_occurs_in_part(text, footer(), start, end, j - start);
            }
        }
    }
    lemma_first_unique(text, footer(), close);
    assert(has_block(text));
    let before = text.subrange(0, start);
    let after = text.subrange(end, text.len() as int);
    assert(before =~= clean + pad);
    lemma_trimmed_ignores_trailing_space(clean, pad);
    assert(after =~= tail + seq!['\n']);
    assert(all_space(after)) by {
        assert forall|i: int| 0 <= i < after.len() implies is_space(#[trigger] after[i]) by {
            if i < tail.len() {
                assert(after[i] == tail[i]);
            }
        }
    }
    lemma_trimmed_all_space(after);
    assert(join_around(trimmed(before), trimmed(after)) =~= trimmed(clean));
}

/// Nothing but the closing marker's own end closes a text: it is empty or
/// ends in a newline, and the closing marker does not stand in it.
spec fn sealed(text: Seq<char>) -> bool {
    &&& text.len() == 0 || text.last() == '\n'
    &&& !occurs(text, footer())
}

/// A sealed text stays sealed when a line without the closing marker is put
/// behind it.
proof fn lemma_sealed_line(text: Seq<char>, line: Seq<char>)
    requires
        sealed(text),
        !occurs(line, footer()),
    ensures
        sealed(text + line + seq!['\n']),
{
    lemma_markers();
    let longer = text + line + seq!['\n'];
    if occurs(longer, footer()) {
        let j = choose|j: int| occurs_at(longer, footer(), j);
        lemma_occurrence_avoids(longer, footer(), j, longer.len() - 1);
        if text.len() > 0 && j < text.len() {
            assert(longer[text.len() - 1] == text.last());
            lemma_occurrence_avoids(longer, footer(), j, text.len() - 1);
            assert(longer.subrange(0, text.len() as int) =~= text);
            lemma_occurs_in_part(longer, footer(), 0, text.len() as int, j);
            assert(occurs_at(text, footer(), j));
        } else {
            let from = text.len() as int;
            let to = from + line.len();
            assert(longer.subrange(from, to) =~= line);
            lemma_occurs_in_part(longer, footer(), from, to, j - from);
            assert(occurs_at(line, footer(), j - from));
        }
    }
}

/// A decimal numeral is made of digits.
proof fn lemma_decimal_digits(n: nat)
    ensures
        decimal(n).len() > 0,
        forall|k: int| 0 <= k < decimal(n).len() ==> '0' <= #[trigger] decimal(n)[k] <= '9',
    decreases n,
{
    if n >= 10 {
        lemma_decimal_digits(n / 10);
    }
}

/// What stands on a request's line before the newline.
spec fn line_text(position: int, request: RequestView, current: Seq<char>) -> Seq<char> {
    decimal(position as nat) + ". PR #"@ + signed_decimal(request.number) + " (branch: "@
        + request.head + ")"@ + (if request.head == current {
        current_mark()
    } else {
        Seq::empty()
    })
}

/// The closing marker stands on a request's line only where it stands in the
/// request's head.
proof fn lemma_line_without_footer(position: int, request: RequestView, current: Seq<char>)
    requires
        !occurs(request.head, footer()),
    ensures
        !occurs(line_text(position, request, current), footer()),
        nav_line(position, request, current) == line_text(position, request, current) + seq![
            '\n',
        ],
{
    lemma_markers();
    reveal_strlit(". PR #");
    reveal_strlit(" (branch: ");
    reveal_strlit(")");
    reveal_strlit(" ◁");
    let number = signed_decimal(request.number);
    let lead = decimal(position as nat) + ". PR #"@ + number + " (branch: "@;
    let mark = if request.head == current {
        current_mark()
    } else {
        Seq::empty()
    };
    let line = line_text(position, request, current);
    let from = lead.len() as int;
    let to: int = from + request.head.len();
    assert(line =~= lead + request.head + ")"@ + mark);
    lemma_decimal_digits(position as nat);
    if request.number < 0 {
        lemma_decimal_digits((-request.number) as nat);
    } else {
        lemma_decimal_digits(request.number as nat);
    }
    assert(lacks(number, '<'));
    assert(lacks(lead, '<'));
    if occurs(line, footer()) {
        let j = choose|j: int| occurs_at(line, footer(), j);
        assert(line.subrange(j, j + footer().len())[0] == footer()[0]);
        assert(line[j] == '<');
        if j < from {
            assert(line[j] == lead[j]);
        } else if j < to {
            assert(line[to] == ')');
            lemma_occurrence_avoids(line, footer(), j, to);
            assert(line.subrange(from, to) =~= request.head);
            lemma_occurs_in_part(line, footer(), from, to, j - from);
            assert(occurs_at(request.head, footer(), j - from));
        } else if j == to {
            assert(line[j] == ')');
        } else {
            assert(line[j] == mark[j - to - 1]);
        }
    }
}

/// The lines of the first `n` requests of `chain`.
spec fn lines_upto(chain: Seq<RequestView>, current: Seq<char>, n: int) -> Seq<char> {
    chain.map(|i: int, r: RequestView| nav_line(i + 1, r, current)).take(n).flatten()
}

/// A sealed text stays sealed when the lines of a stack are put behind it.
proof fn lemma_sealed_lines(text: Seq<char>, chain: Seq<RequestView>, current: Seq<char>, n: int)
    requires
        sealed(text),
        plain_heads(chain),
        0 <= n <= chain.len(),
    ensures
        sealed(text + lines_upto(chain, current, n)),
    decreases n,
{
    let lines = chain.map(|i: int, r: RequestView| nav_line(i + 1, r, current));
    if n == 0 {
        assert(lines.take(0) =~= Seq::<Seq<char>>::empty());
        assert(text + lines_upto(chain, current, 0) =~= text);
    } else {
        lemma_sealed_lines(text, chain, current, n - 1);
        let shorter = lines_upto(chain, current, n - 1);
        let request = chain[n - 1];
        assert(!occurs(request.head, footer()));
        lemma_line_without_footer(n, request, current);
        assert(lines.take(n) =~= lines.take(n - 1).push(lines[n - 1]));
        lines.take(n - 1).lemma_flatten_push(lines[n - 1]);
        lemma_sealed_line(text + shorter, line_text(n, request, current));
        assert(text + lines_upto(chain, current, n) =~= text + shorter + line_text(
            n,
            request,
            current,
        ) + seq!['\n']);
    }
}

/// What stands in a navigation block between its two markers.
spec fn block_mid(chain: Seq<RequestView>, current: Seq<char>) -> Seq<char> {
    seq!['\n'] + "Stack of changes:"@ + seq!['\n'] + nav_lines(chain, current)
}

/// The closing marker of a navigation block is the first that stands in it,
/// where no request has the closing marker in its head.
proof fn lemma_block_closes_once(chain: Seq<RequestView>, current: Seq<char>)
    requires
        plain_heads(chain),
    ensures
        nav_block(chain, current) == header() + block_mid(chain, current) + footer() + seq![
            '\n',
        ],
        forall|j: int|
            0 <= j < header().len() + block_mid(chain, current).len() ==> !occurs_at(
                header() + block_mid(chain, current) + footer(),
                footer(),
                j,
            ),
{
    lemma_markers();
    reveal_strlit("Stack of changes:");
    let mid = block_mid(chain, current);
    let title = "Stack of changes:"@;
    let lines = chain.map(|i: int, r: RequestView| nav_line(i + 1, r, current));
    let none = Seq::<char>::empty();
    assert(nav_block(chain, current) =~= header() + mid + footer() + seq!['\n']);
    assert(!occurs(header(), footer())) by {
        if occurs(header(), footer()) {
            let j = choose|j: int| occurs_at(header(), footer(), j);
        }
    }
    assert(!occurs(title, footer())) by {
        if occurs(title, footer()) {
            let j = choose|j: int| occurs_at(title, footer(), j);
        }
    }
    assert(sealed(none)) by {
        if occurs(none, footer()) {
            let j = choose|j: int| occurs_at(none, footer(), j);
        }
    }
    lemma_sealed_line(none, header());
    let opened = none + header() + seq!['\n'];
    lemma_sealed_line(opened, title);
    let titled = opened + title + seq!['\n'];
    lemma_sealed_lines(titled, chain, current, chain.len() as int);
    assert(lines.take(chain.len() as int) =~= lines);
    let inner = header() + mid;
    assert(inner =~= titled + lines_upto(chain, current, chain.len() as int));
    let whole = inner + footer();
    assert(whole =~= header() + mid + footer());
    assert forall|j: int| 0 <= j < inner.len() implies !occurs_at(whole, footer(), j) by {
        if occurs_at(whole, footer(), j) {
            assert(whole[inner.len() - 1] == inner.last());
            lemma_occurrence_avoids(whole, footer(), j, inner.len() - 1);
            assert(whole.subrange(0, inner.len() as int) =~= inner);
            lemma_occurs_in_part(whole, footer(), 0, inner.len() as int, j);
            assert(occurs_at(inner, footer(), j));
        }
    }
}

/// `text` is tied in a knot: its first closing marker, a newline and its
/// first opening marker follow one another, and it neither starts nor ends
/// with whitespace. Taking the block out of such a text cuts it at the
/// newline and joins the two parts by a newline again.
pub open spec fn is_knot(text: Seq<char>) -> bool {
    &&& has_block(text)
    &&& first_index(text, footer()) + footer().len() + 1 == first_index(text, header())
    &&& text[first_index(text, header()) - 1] == '\n'
    &&& !is_space(text[0])
    &&& !is_space(text.last())
}

/// Where the markers of a text that holds both stand, and what stands
/// there.
proof fn lemma_marker_places(text: Seq<char>)
    requires
        has_block(text),
    ensures
        ({
            let start = first_index(text, header());
            let close = first_index(text, footer());
            &&& is_first(text, header(), start)
            &&& is_first(text, footer(), close)
            &&& text[start] == '<'
            &&& text[start + 24] == '>'
            &&& text[close] == '<'
            &&& text[close + 28] == '>'
            &&& !is_space('<')
            &&& !is_space('>')
        }),
{
    lemma_markers();
    reveal_strlit("<!-- STACK NAVIGATION -->");
    reveal_strlit("<!-- END STACK NAVIGATION -->");
    lemma_first_index(text, header());
    lemma_first_index(text, footer());
    let start = first_index(text, header());
    let close = first_index(text, footer());
    let opening = text.subrange(start, start + header().len());
    let closing = text.subrange(close, close + footer().len());
    assert(opening[0] == text[start]);
    assert(opening[24] == text[start + 24]);
    assert(closing[0] == text[close]);
    assert(closing[28] == text[close + 28]);
}

/// Taking the block out of a knot changes nothing.
proof fn lemma_knot_stays(text: Seq<char>)
    requires
        is_knot(text),
    ensures
        without_block(text) == text,
{
    lemma_markers();
    lemma_marker_places(text);
    let start = first_index(text, header());
    let end = first_index(text, footer()) + footer().len();
    let before = text.subrange(0, start);
    let after = text.subrange(end, text.len() as int);
    assert(is_space('\n'));
    assert(is_trim_of(before, 0, end)) by {
        assert(before[0] == text[0]);
        assert(before[end - 1] == text[end - 1]);
        assert forall|i: int| end <= i < before.len() implies is_space(#[trigger] before[i]) by {
            assert(before[i] == text[end]);
        }
    }
    lemma_trimmed_bounds(before, 0, end);
    assert(is_trim_of(after, 1, after.len() as int)) by {
        assert(after[0] == text[end]);
        assert(after[1] == text[start]);
        assert(after[after.len() - 1] == text.last());
    }
    lemma_trimmed_bounds(after, 1, after.len() as int);
    assert(join_around(trimmed(before), trimmed(after)) =~= text);
}

/// A text with both markers that taking the block out leaves alone is a
/// knot.
#[verifier::rlimit(40)]
proof fn lemma_kept_is_knot(text: Seq<char>)
    requires
        has_block(text),
        without_block(text) == text,
    ensures
        is_knot(text),
{
    lemma_markers();
    lemma_marker_places(text);
    let start = first_index(text, header());
    let close = first_index(text, footer());
    let end = close + footer().len();
    let pre = text.subrange(0, start);
    let post = text.subrange(end, text.len() as int);
    let (lo1, hi1) = lemma_trim_bounds_exist(pre);
    let (lo2, hi2) = lemma_trim_bounds_exist(post);
    let before = pre.subrange(lo1, hi1);
    let after = post.subrange(lo2, hi2);
    let joined = join_around(before, after);
    assert(joined == text);
    // The closing marker ends before the opening marker starts.
    assert(end <= start + 1);
    assert(end <= start) by {
        if end == start + 1 {
            assert(text[close + 28] == text[start]);
        }
    }
    // Both parts keep their marker.
    assert(lo1 <= close && end <= hi1) by {
        assert(pre[close] == text[close]);
        assert(pre[end - 1] == text[end - 1]);
    }
    assert(lo2 <= start - end && start - end + 25 <= hi2) by {
        assert(post[start - end] == text[start]);
        assert(post[start - end + 24] == text[start + 24]);
    }
    assert(joined =~= before + seq!['\n'] + after);
    // The text starts and ends as its parts do.
    assert(lo1 == 0) by {
        assert(joined[0] == before[0]);
        assert(before[0] == pre[lo1]);
        assert(pre[0] == text[0]);
    }
    assert(hi2 == post.len()) by {
        assert(joined[joined.len() - 1] == after[after.len() - 1]);
        assert(after[after.len() - 1] == post[hi2 - 1]);
        assert(post[post.len() - 1] == text[text.len() - 1]);
    }
    assert(hi1 + 1 == end + lo2);
    assert(joined[hi1] == '\n');
    // Only the newline stands between the two markers.
    assert(hi1 + 1 >= start) by {
        if hi1 + 1 < start {
            assert(pre[hi1 + 1] == text[hi1 + 1]);
            assert(post[lo2] == text[end + lo2]);
        }
    }
    assert(hi1 == start - 1);
    assert(end >= start - 1) by {
        if end <= start - 2 {
            assert(pre[hi1 - 1] == text[start - 2]);
            assert(post[start - 2 - end] == text[start - 2]);
        }
    }
    assert(pre[0] == text[0]);
    assert(post[post.len() - 1] == text.last());
    assert(!is_space(pre[lo1]));
    assert(!is_space(post[hi2 - 1]));
}

/// Taking the block out leaves a text alone where the text lacks a marker
/// or is a knot, and nowhere else.
pub proof fn lemma_remove_keeps(text: Seq<char>)
    ensures
        without_block(text) == text <==> !has_block(text) || is_knot(text),
{
    if is_knot(text) {
        lemma_knot_stays(text);
    }
    if has_block(text) && without_block(text) == text {
        lemma_kept_is_knot(text);
    }
}

/// Taking the block out twice gives what taking it out once gives, where
/// the first pass leaves no pair of markers behind, or leaves a knot. A
/// description that holds a second block behind its first, or a closing
/// marker before its opening marker, can keep such a pair.
pub proof fn lemma_remove_idempotent(body: Seq<char>)
    requires
        !has_block(without_block(body)) || is_knot(without_block(body)),
    ensures
        without_block(without_block(body)) == without_block(body),
{
    lemma_remove_keeps(without_block(body));
}

/// Putting the block of a stack into a description and taking it out again
/// gives the description without the block it had, trimmed. This holds
/// where the description, once cleaned, holds no marker of its own, and no
/// head of the stack holds the closing marker.
pub proof fn lemma_insert_then_remove(
    body: Seq<char>,
    chain: Seq<RequestView>,
    current: Seq<char>,
)
    requires
        marker_free(without_block(body)),
        plain_heads(chain),
    ensures
        without_block(with_block(body, nav_block(chain, current))) == trimmed(
            without_block(body),
        ),
{
    lemma_block_closes_once(chain, current);
    assert(all_space(seq!['\n'])) by {
        assert(is_space('\n'));
    }
    lemma_remove_inserted(
        body,
        nav_block(chain, current),
        block_mid(chain, current),
        seq!['\n'],
    );
}

/// What taking a block out leaves behind neither starts nor ends with
/// whitespace.
proof fn lemma_removed_is_trimmed(text: Seq<char>)
    requires
        has_block(text),
    ensures
        trimmed(without_block(text)) == without_block(text),
{
    let start = first_index(text, header());
    let end = first_index(text, footer()) + footer().len();
    let pre = text.subrange(0, start);
    let post = text.subrange(end, text.len() as int);
    let (lo1, hi1) = lemma_trim_bounds_exist(pre);
    let (lo2, hi2) = lemma_trim_bounds_exist(post);
    let before = pre.subrange(lo1, hi1);
    let after = post.subrange(lo2, hi2);
    let joined = join_around(before, after);
    assert(joined == without_block(text));
    if joined.len() > 0 {
        if before.len() > 0 {
            assert(joined[0] == before[0]);
            assert(before[0] == pre[lo1]);
        } else {
            assert(joined =~= after);
            assert(after[0] == post[lo2]);
        }
        if after.len() > 0 {
            assert(joined[joined.len() - 1] == after[after.len() - 1]);
            assert(after[after.len() - 1] == post[hi2 - 1]);
        } else {
            assert(joined =~= before);
            assert(before[before.len() - 1] == pre[hi1 - 1]);
        }
    }
    lemma_trimmed_bounds(joined, 0, joined.len() as int);
    assert(joined.subrange(0, joined.len() as int) =~= joined);
}

/// A description into which the block of a stack was put holds both markers.
proof fn lemma_inserted_has_block(body: Seq<char>, chain: Seq<RequestView>, current: Seq<char>)
    requires
        plain_heads(chain),
    ensures
        has_block(with_block(body, nav_block(chain, current))),
{
    lemma_markers();
    lemma_block_closes_once(chain, current);
    let clean = without_block(body);
    let lead = clean + line_end(clean) + seq!['\n'];
    let mid = block_mid(chain, current);
    let text = with_block(body, nav_block(chain, current));
    let start = lead.len() as int;
    let close = start + header().len() + mid.len();
    assert(text =~= lead + header() + mid + footer() + seq!['\n'] + seq!['\n']);
    assert(text.subrange(start, start + header().len()) =~= header());
    assert(text.subrange(close, close + footer().len()) =~= footer());
    assert(occurs_at(text, header(), start));
    assert(occurs_at(text, footer(), close));
}

/// Once the block of a stack has been put into a description twice, putting
/// it in again changes nothing. This holds where the first time leaves no
/// marker but those of the block itself: no head of the stack holds the
/// closing marker, and taking the block out again leaves no marker behind.
pub proof fn lemma_insert_settles(body: Seq<char>, chain: Seq<RequestView>, current: Seq<char>)
    requires
        plain_heads(chain),
        marker_free(without_block(with_block(body, nav_block(chain, current)))),
    ensures
        ({
            let block = nav_block(chain, current);
            let twice = with_block(with_block(body, block), block);
            with_block(twice, block) == twice
        }),
{
    let block = nav_block(chain, current);
    let once = with_block(body, block);
    lemma_inserted_has_block(body, chain, current);
    lemma_removed_is_trimmed(once);
    lemma_insert_then_remove(once, chain, current);
}

/// A description that, once cleaned, holds no marker of its own holds none
/// either once the block of a stack was put in and taken out again.
pub proof fn lemma_marker_free_stays(body: Seq<char>, chain: Seq<RequestView>, current: Seq<char>)
    requires
        marker_free(without_block(body)),
        plain_heads(chain),
    ensures
        marker_free(without_block(with_block(body, nav_block(chain, current)))),
{
    let clean = without_block(body);
    lemma_insert_then_remove(body, chain, current);
    let (lo, hi) = lemma_trim_bounds_exist(clean);
    if occurs(trimmed(clean), header()) {
        lemma_occurs_in_whole(clean, header(), lo, hi);
    }
    if occurs(trimmed(clean), footer()) {
        lemma_occurs_in_whole(clean, footer(), lo, hi);
    }
}

} // verus!
