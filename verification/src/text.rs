//! Character-level text helpers: whitespace, trimming, substring search and
//! decimal numerals. Text is modelled as `Seq<char>`, the view of `str` and
//! `String`.

use vstd::prelude::*;

verus! {

/// Whether `c` carries the Unicode `White_Space` property, which is what
/// `char::is_whitespace` tests.
pub open spec fn is_space(c: char) -> bool {
    let u = c as int;
    ||| 0x09 <= u <= 0x0D
    ||| u == 0x20
    ||| u == 0x85
    ||| u == 0xA0
    ||| u == 0x1680
    ||| 0x2000 <= u <= 0x200A
    ||| u == 0x2028
    ||| u == 0x2029
    ||| u == 0x202F
    ||| u == 0x205F
    ||| u == 0x3000
}

/// `s` without its leading whitespace.
pub open spec fn trim_start(s: Seq<char>) -> Seq<char>
    decreases s.len(),
{
    if s.len() > 0 && is_space(s[0]) {
        trim_start(s.drop_first())
    } else {
        s
    }
}

/// `s` without its trailing whitespace.
pub open spec fn trim_end(s: Seq<char>) -> Seq<char>
    decreases s.len(),
{
    if s.len() > 0 && is_space(s.last()) {
        trim_end(s.drop_last())
    } else {
        s
    }
}

/// `s` without its leading and trailing whitespace.
pub open spec fn trimmed(s: Seq<char>) -> Seq<char> {
    trim_end(trim_start(s))
}

/// `lo..hi` bounds the part of `s` that trimming keeps: only whitespace lies
/// outside, and a non-empty part starts and ends with something else.
pub open spec fn is_trim_of(s: Seq<char>, lo: int, hi: int) -> bool {
    &&& 0 <= lo <= hi <= s.len()
    &&& forall|i: int| 0 <= i < lo ==> is_space(#[trigger] s[i])
    &&& forall|i: int| hi <= i < s.len() ==> is_space(#[trigger] s[i])
    &&& lo < hi ==> !is_space(s[lo]) && !is_space(s[hi - 1])
}

/// Every character of `s` is whitespace.
pub open spec fn all_space(s: Seq<char>) -> bool {
    forall|i: int| 0 <= i < s.len() ==> is_space(#[trigger] s[i])
}

/// `s` holds no `c`.
pub open spec fn lacks(s: Seq<char>, c: char) -> bool {
    forall|k: int| 0 <= k < s.len() ==> s[k] != c
}

/// `pat` stands in `text` at position `i`.
pub open spec fn occurs_at(text: Seq<char>, pat: Seq<char>, i: int) -> bool {
    &&& 0 <= i
    &&& i + pat.len() <= text.len()
    &&& text.subrange(i, i + pat.len()) == pat
}

/// `pat` stands somewhere in `text`.
pub open spec fn occurs(text: Seq<char>, pat: Seq<char>) -> bool {
    exists|i: int| occurs_at(text, pat, i)
}

/// `i` is the leftmost position at which `pat` stands in `text`.
pub open spec fn is_first(text: Seq<char>, pat: Seq<char>, i: int) -> bool {
    &&& occurs_at(text, pat, i)
    &&& forall|j: int| 0 <= j < i ==> !occurs_at(text, pat, j)
}

/// The leftmost position at which `pat` stands in `text`; meaningful only
/// where `occurs(text, pat)`.
pub open spec fn first_index(text: Seq<char>, pat: Seq<char>) -> int {
    choose|i: int| is_first(text, pat, i)
}

/// The decimal digit for `d`, where `0 <= d < 10`.
pub open spec fn digit(d: int) -> char {
    ('0' as int + d) as char
}

/// The decimal numeral of `n`, without leading zeros.
pub open spec fn decimal(n: nat) -> Seq<char>
    decreases n,
{
    if n < 10 {
        seq![digit(n as int)]
    } else {
        decimal(n / 10).push(digit((n % 10) as int))
    }
}

/// The decimal numeral of `n`, with a minus sign where `n` is negative.
pub open spec fn signed_decimal(n: int) -> Seq<char> {
    if n < 0 {
        seq!['-'] + decimal((-n) as nat)
    } else {
        decimal(n as nat)
    }
}

/// Leading whitespace ends where the first other character stands.
proof fn lemma_trim_start_bounds(s: Seq<char>, lo: int)
    requires
        0 <= lo <= s.len(),
        forall|i: int| 0 <= i < lo ==> is_space(#[trigger] s[i]),
        lo < s.len() ==> !is_space(s[lo]),
    ensures
        trim_start(s) == s.subrange(lo, s.len() as int),
    decreases lo,
{
    if lo == 0 {
        assert(s.subrange(0, s.len() as int) =~= s);
    } else {
        let rest = s.drop_first();
        assert forall|i: int| 0 <= i < lo - 1 implies is_space(#[trigger] rest[i]) by {
            assert(rest[i] == s[i + 1]);
        }
        lemma_trim_start_bounds(rest, lo - 1);
        assert(rest.subrange(lo - 1, rest.len() as int) =~= s.subrange(lo, s.len() as int));
    }
}

/// Trailing whitespace starts behind the last other character.
proof fn lemma_trim_end_bounds(s: Seq<char>, hi: int)
    requires
        0 <= hi <= s.len(),
        forall|i: int| hi <= i < s.len() ==> is_space(#[trigger] s[i]),
        0 < hi ==> !is_space(s[hi - 1]),
    ensures
        trim_end(s) == s.subrange(0, hi),
    decreases s.len() - hi,
{
    if hi == s.len() {
        assert(s.subrange(0, hi) =~= s);
    } else {
        let rest = s.drop_last();
        assert forall|i: int| hi <= i < rest.len() implies is_space(#[trigger] rest[i]) by {
            assert(rest[i] == s[i]);
        }
        lemma_trim_end_bounds(rest, hi);
        assert(rest.subrange(0, hi) =~= s.subrange(0, hi));
    }
}

/// Trimming keeps exactly the part that `is_trim_of` bounds.
pub proof fn lemma_trimmed_bounds(s: Seq<char>, lo: int, hi: int)
    requires
        is_trim_of(s, lo, hi),
    ensures
        trimmed(s) == s.subrange(lo, hi),
{
    if lo < hi {
        lemma_trim_start_bounds(s, lo);
        let tail = s.subrange(lo, s.len() as int);
        assert forall|i: int| hi - lo <= i < tail.len() implies is_space(#[trigger] tail[i]) by {
            assert(tail[i] == s[lo + i]);
        }
        assert(tail[hi - lo - 1] == s[hi - 1]);
        lemma_trim_end_bounds(tail, hi - lo);
        assert(tail.subrange(0, hi - lo) =~= s.subrange(lo, hi));
    } else {
        assert forall|i: int| 0 <= i < s.len() implies is_space(#[trigger] s[i]) by {
            if i < lo {
            } else {
                assert(hi <= i);
            }
        }
        lemma_trim_start_bounds(s, s.len() as int);
        let none = s.subrange(s.len() as int, s.len() as int);
        assert(none.len() == 0);
        assert(trim_end(none) == none);
        assert(none =~= s.subrange(lo, hi));
    }
}

/// Where the leading whitespace of a text ends.
proof fn lemma_first_non_space(s: Seq<char>) -> (lo: int)
    ensures
        0 <= lo <= s.len(),
        forall|i: int| 0 <= i < lo ==> is_space(#[trigger] s[i]),
        lo < s.len() ==> !is_space(s[lo]),
    decreases s.len(),
{
    if s.len() == 0 || !is_space(s[0]) {
        0
    } else {
        let rest = s.drop_first();
        let k = lemma_first_non_space(rest);
        assert forall|i: int| 0 <= i < k + 1 implies is_space(#[trigger] s[i]) by {
            if i > 0 {
                assert(s[i] == rest[i - 1]);
            }
        }
        if k + 1 < s.len() {
            assert(s[k + 1] == rest[k]);
        }
        k + 1
    }
}

/// Where the trailing whitespace of a text starts.
proof fn lemma_last_non_space(s: Seq<char>) -> (hi: int)
    ensures
        0 <= hi <= s.len(),
        forall|i: int| hi <= i < s.len() ==> is_space(#[trigger] s[i]),
        0 < hi ==> !is_space(s[hi - 1]),
    decreases s.len(),
{
    if s.len() == 0 || !is_space(s.last()) {
        s.len() as int
    } else {
        let rest = s.drop_last();
        let k = lemma_last_non_space(rest);
        assert forall|i: int| k <= i < s.len() implies is_space(#[trigger] s[i]) by {
            if i < rest.len() {
                assert(s[i] == rest[i]);
            }
        }
        if 0 < k {
            assert(s[k - 1] == rest[k - 1]);
        }
        k
    }
}

/// Every text has bounds that `is_trim_of` accepts.
pub proof fn lemma_trim_bounds_exist(s: Seq<char>) -> (b: (int, int))
    ensures
        is_trim_of(s, b.0, b.1),
        trimmed(s) == s.subrange(b.0, b.1),
{
    let lo = lemma_first_non_space(s);
    let hi = lemma_last_non_space(s);
    let b = if lo < hi {
        (lo, hi)
    } else {
        (lo, lo)
    };
    if lo >= hi {
        assert forall|i: int| lo <= i < s.len() implies is_space(#[trigger] s[i]) by {
            assert(hi <= i);
        }
    }
    lemma_trimmed_bounds(s, b.0, b.1);
    b
}

/// Whitespace appended to a text is trimmed away again.
pub proof fn lemma_trimmed_ignores_trailing_space(s: Seq<char>, pad: Seq<char>)
    requires
        all_space(pad),
    ensures
        trimmed(s + pad) == trimmed(s),
{
    let (lo, hi) = lemma_trim_bounds_exist(s);
    let t = s + pad;
    assert forall|i: int| 0 <= i < lo implies is_space(#[trigger] t[i]) by {
        assert(t[i] == s[i]);
    }
    assert forall|i: int| hi <= i < t.len() implies is_space(#[trigger] t[i]) by {
        if i < s.len() {
            assert(t[i] == s[i]);
        } else {
            assert(t[i] == pad[i - s.len()]);
        }
    }
    if lo < hi {
        assert(t[lo] == s[lo]);
        assert(t[hi - 1] == s[hi - 1]);
    }
    lemma_trimmed_bounds(t, lo, hi);
    assert(t.subrange(lo, hi) =~= s.subrange(lo, hi));
}

/// A text of whitespace alone trims to nothing.
pub proof fn lemma_trimmed_all_space(s: Seq<char>)
    requires
        all_space(s),
    ensures
        trimmed(s) == Seq::<char>::empty(),
{
    lemma_trimmed_bounds(s, 0, 0);
    assert(s.subrange(0, 0) =~= Seq::<char>::empty());
}

/// A pattern that stands at `k` has a leftmost position at or before `k`.
proof fn lemma_least_occurrence(text: Seq<char>, pat: Seq<char>, k: int, from: int) -> (i: int)
    requires
        occurs_at(text, pat, k),
        0 <= from <= k,
        forall|j: int| 0 <= j < from ==> !occurs_at(text, pat, j),
    ensures
        is_first(text, pat, i),
        i <= k,
    decreases k - from,
{
    if occurs_at(text, pat, from) {
        from
    } else {
        lemma_least_occurrence(text, pat, k, from + 1)
    }
}

/// Where `pat` occurs in `text`, `first_index` is its leftmost position.
pub proof fn lemma_first_index(text: Seq<char>, pat: Seq<char>)
    requires
        occurs(text, pat),
    ensures
        is_first(text, pat, first_index(text, pat)),
{
    let k = choose|k: int| occurs_at(text, pat, k);
    let i = lemma_least_occurrence(text, pat, k, 0);
    assert(is_first(text, pat, i));
}

/// The leftmost position is unique.
pub proof fn lemma_first_unique(text: Seq<char>, pat: Seq<char>, i: int)
    requires
        is_first(text, pat, i),
    ensures
        occurs(text, pat),
        first_index(text, pat) == i,
{
    let j = first_index(text, pat);
    assert(is_first(text, pat, j));
    if j < i {
        assert(!occurs_at(text, pat, j));
    } else if i < j {
        assert(!occurs_at(text, pat, i));
    }
}

/// A pattern does not stand across a character that it lacks.
pub proof fn lemma_occurrence_avoids(text: Seq<char>, pat: Seq<char>, j: int, q: int)
    requires
        occurs_at(text, pat, j),
        0 <= q < text.len(),
        lacks(pat, text[q]),
    ensures
        q < j || j + pat.len() <= q,
{
    if j <= q < j + pat.len() {
        assert(text.subrange(j, j + pat.len())[q - j] == text[q]);
    }
}

/// A pattern stands in a part of a text where it stands in the text within
/// the bounds of that part.
pub proof fn lemma_occurs_in_part(text: Seq<char>, pat: Seq<char>, from: int, to: int, j: int)
    requires
        0 <= from <= to <= text.len(),
    ensures
        occurs_at(text.subrange(from, to), pat, j) <==> 0 <= j && from + j + pat.len() <= to
            && occurs_at(text, pat, from + j),
{
    if 0 <= j && from + j + pat.len() <= to {
        assert(text.subrange(from, to).subrange(j, j + pat.len()) =~= text.subrange(
            from + j,
            from + j + pat.len(),
        ));
    }
}

/// A pattern that stands in a part of a text stands in the text.
pub proof fn lemma_occurs_in_whole(text: Seq<char>, pat: Seq<char>, from: int, to: int)
    requires
        0 <= from <= to <= text.len(),
        occurs(text.subrange(from, to), pat),
    ensures
        occurs(text, pat),
{
    let j = choose|j: int| occurs_at(text.subrange(from, to), pat, j);
    lemma_occurs_in_part(text, pat, from, to, j);
    assert(occurs_at(text, pat, from + j));
}

/// Whether `c` is a whitespace character.
pub fn is_whitespace(c: char) -> (b: bool)
    ensures
        b == is_space(c),
{
    let u: u32 = c as u32;
    let control = 0x09 <= u && u <= 0x0D;
    let latin = u == 0x20 || u == 0x85 || u == 0xA0;
    let quads = u == 0x1680 || (0x2000 <= u && u <= 0x200A);
    let breaks = u == 0x2028 || u == 0x2029;
    let narrow = u == 0x202F || u == 0x205F || u == 0x3000;
    control || latin || quads || breaks || narrow
}

/// The characters of `s`, in order.
pub fn chars_of(s: &str) -> (out: Vec<char>)
    ensures
        out@ == s@,
{
    let mut out: Vec<char> = Vec::new();
    for c in it: s.chars()
        invariant
            out@ == it.seq().take(it.index()),
            it.seq() == s@,
    {
        out.push(c);
    }
    out
}

/// `String::push` appends one character and keeps what was there.
pub assume_specification[ String::push ](s: &mut String, c: char)
    ensures
        final(s)@ == old(s)@.push(c),
;

/// Appends the characters `v[from..to]` to `out`.
pub fn push_chars(out: &mut String, v: &Vec<char>, from: usize, to: usize)
    requires
        from <= to <= v.len(),
    ensures
        final(out)@ == old(out)@ + v@.subrange(from as int, to as int),
{
    let mut i: usize = from;
    while i < to
        invariant
            from <= i <= to <= v.len(),
            out@ == old(out)@ + v@.subrange(from as int, i as int),
        decreases to - i,
    {
        out.push(v[i]);
        i += 1;
        assert(v@.subrange(from as int, i as int) =~= v@.subrange(from as int, i - 1).push(
            v@[i - 1],
        ));
    }
}

/// The bounds of `v[from..to]` without its leading and trailing whitespace.
pub fn trim_bounds(v: &Vec<char>, from: usize, to: usize) -> (b: (usize, usize))
    requires
        from <= to <= v.len(),
    ensures
        from <= b.0 <= b.1 <= to,
        is_trim_of(v@.subrange(from as int, to as int), b.0 - from, b.1 - from),
        v@.subrange(b.0 as int, b.1 as int) == trimmed(v@.subrange(from as int, to as int)),
{
    let ghost part = v@.subrange(from as int, to as int);
    let mut lo: usize = from;
    while lo < to && is_whitespace(v[lo])
        invariant
            from <= lo <= to <= v.len(),
            forall|i: int| from <= i < lo ==> is_space(#[trigger] v@[i]),
        decreases to - lo,
    {
        lo += 1;
    }
    let mut hi: usize = to;
    while lo < hi && is_whitespace(v[hi - 1])
        invariant
            lo <= hi <= to <= v.len(),
            forall|i: int| hi <= i < to ==> is_space(#[trigger] v@[i]),
        decreases hi - lo,
    {
        hi -= 1;
    }
    proof {
        assert forall|i: int| 0 <= i < lo - from implies is_space(#[trigger] part[i]) by {
            assert(part[i] == v@[from + i]);
        }
        assert forall|i: int| hi - from <= i < part.len() implies is_space(#[trigger] part[i]) by {
            assert(part[i] == v@[from + i]);
        }
        if lo < hi {
            assert(part[lo - from] == v@[lo as int]);
            assert(part[hi - from - 1] == v@[hi - 1]);
        }
        lemma_trimmed_bounds(part, lo - from, hi - from);
        assert(part.subrange(lo - from, hi - from) =~= v@.subrange(lo as int, hi as int));
    }
    (lo, hi)
}

/// Whether `pat` stands in `text` at position `i`.
pub fn matches_at(text: &Vec<char>, pat: &Vec<char>, i: usize) -> (b: bool)
    requires
        i + pat.len() <= text.len(),
    ensures
        b == occurs_at(text@, pat@, i as int),
{
    let mut j: usize = 0;
    while j < pat.len()
        invariant
            j <= pat.len(),
            i + pat.len() <= text.len(),
            text@.subrange(i as int, i + j) == pat@.subrange(0, j as int),
        decreases pat.len() - j,
    {
        if text[i + j] != pat[j] {
            proof {
                let window = text@.subrange(i as int, i + pat.len());
                assert(window[j as int] != pat@[j as int]);
            }
            return false;
        }
        j += 1;
        assert(text@.subrange(i as int, i + j) =~= text@.subrange(i as int, i + j - 1).push(
            text@[i + j - 1],
        ));
        assert(pat@.subrange(0, j as int) =~= pat@.subrange(0, j - 1).push(pat@[j - 1]));
    }
    assert(pat@.subrange(0, pat.len() as int) =~= pat@);
    true
}

/// The leftmost position at which `pat` stands in `text`, if it stands there
/// at all.
pub fn find(text: &Vec<char>, pat: &Vec<char>) -> (r: Option<usize>)
    ensures
        match r {
            Some(i) => is_first(text@, pat@, i as int),
            None => !occurs(text@, pat@),
        },
        r is Some <==> occurs(text@, pat@),
        r matches Some(i) ==> i == first_index(text@, pat@),
{
    if pat.len() > text.len() {
        return None;
    }
    let last: usize = text.len() - pat.len();
    let mut i: usize = 0;
    loop
        invariant
            last == text.len() - pat.len(),
            i <= last,
            forall|j: int| 0 <= j < i ==> !occurs_at(text@, pat@, j),
        decreases last - i,
    {
        if matches_at(text, pat, i) {
            proof {
                lemma_first_unique(text@, pat@, i as int);
            }
            return Some(i);
        }
        if i == last {
            return None;
        }
        i += 1;
    }
}

/// The character of the decimal digit `d`.
fn digit_char(d: u8) -> (c: char)
    requires
        d < 10,
    ensures
        c == digit(d as int),
{
    (48u8 + d) as char
}

/// Appends the decimal numeral of `n` to `out`.
pub fn push_decimal(out: &mut String, n: u64)
    ensures
        final(out)@ == old(out)@ + decimal(n as nat),
    decreases n,
{
    if n >= 10 {
        push_decimal(out, n / 10);
    }
    out.push(digit_char((n % 10) as u8));
    proof {
        if n >= 10 {
            assert(old(out)@ + decimal(n as nat) =~= (old(out)@ + decimal((n / 10) as nat)).push(
                digit((n % 10) as int),
            ));
        } else {
            assert(old(out)@ + decimal(n as nat) =~= old(out)@.push(digit(n as int)));
        }
    }
}

/// Appends the decimal numeral of `n` to `out`, with a minus sign where `n`
/// is negative.
pub fn push_signed_decimal(out: &mut String, n: i32)
    ensures
        final(out)@ == old(out)@ + signed_decimal(n as int),
{
    let wide: i64 = n as i64;
    if wide < 0 {
        out.push('-');
        push_decimal(out, (-wide) as u64);
        assert(old(out)@ + signed_decimal(n as int) =~= old(out)@.push('-') + decimal(
            (-n) as nat,
        ));
    } else {
        push_decimal(out, wide as u64);
    }
}

} // verus!
