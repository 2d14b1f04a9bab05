//! Text as sequences of characters.

use vstd::prelude::*;
use vstd::string::*;

verus! {

/// `String::push` adds a character at the end.
pub assume_specification[ String::push ](s: &mut String, c: char)
    ensures
        final(s)@ == old(s)@.push(c),
;

/// The characters of a string.
pub fn characters(s: &str) -> (r: Vec<char>)
    ensures
        r@ == s@,
{
    broadcast use axiom_spec_iter;

    let mut out: Vec<char> = Vec::new();
    for c in it: s.chars()
        invariant
            it.seq() == s@,
            out@ == s@.take(it.index() as int),
    {
        proof {
            assert(s@.take(it.index() + 1) =~= s@.take(it.index() as int).push(c));
        }
        out.push(c);
    }
    assert(s@.take(s@.len() as int) =~= s@);
    out
}

/// The string of some characters.
pub fn written(chars: &[char]) -> (r: String)
    ensures
        r@ == chars@,
{
    let mut out = String::new();
    let mut i: usize = 0;
    while i < chars.len()
        invariant
            i <= chars@.len(),
            out@ == chars@.take(i as int),
        decreases chars@.len() - i,
    {
        proof {
            assert(chars@.take(i + 1) =~= chars@.take(i as int).push(chars@[i as int]));
        }
        out.push(chars[i]);
        i = i + 1;
    }
    assert(chars@.take(chars@.len() as int) =~= chars@);
    out
}

/// The characters from one place to another.
pub fn portion(chars: &[char], from: usize, to: usize) -> (r: Vec<char>)
    requires
        from <= to <= chars@.len(),
    ensures
        r@ == chars@.subrange(from as int, to as int),
{
    let mut out: Vec<char> = Vec::new();
    let mut i = from;
    while i < to
        invariant
            from <= i <= to <= chars@.len(),
            out@ == chars@.subrange(from as int, i as int),
        decreases to - i,
    {
        proof {
            assert(chars@.subrange(from as int, i + 1) =~= chars@.subrange(from as int, i as int).push(
                chars@[i as int],
            ));
        }
        out.push(chars[i]);
        i = i + 1;
    }
    out
}

/// Whether two texts hold the same characters.
pub fn same_text(a: &[char], b: &[char]) -> (r: bool)
    ensures
        r == (a@ == b@),
{
    if a.len() != b.len() {
        return false;
    }
    let mut i: usize = 0;
    while i < a.len()
        invariant
            a@.len() == b@.len(),
            i <= a@.len(),
            forall|j: int| 0 <= j < i ==> a@[j] == b@[j],
        decreases a@.len() - i,
    {
        if a[i] != b[i] {
            return false;
        }
        i = i + 1;
    }
    assert(a@ =~= b@);
    true
}

/// Whether a text reads as a string does.
pub fn reads(a: &[char], s: &str) -> (r: bool)
    ensures
        r == (a@ == s@),
{
    let b = characters(s);
    same_text(a, &b)
}

/// The characters with the Unicode property `White_Space`.
pub open spec fn is_space(c: char) -> bool {
    ||| '\u{9}' <= c <= '\u{D}'
    ||| c == ' '
    ||| c == '\u{85}'
    ||| c == '\u{A0}'
    ||| c == '\u{1680}'
    ||| '\u{2000}' <= c <= '\u{200A}'
    ||| c == '\u{2028}'
    ||| c == '\u{2029}'
    ||| c == '\u{202F}'
    ||| c == '\u{205F}'
    ||| c == '\u{3000}'
}

pub fn whitespace(c: char) -> (r: bool)
    ensures
        r == is_space(c),
{
    ('\u{9}' <= c && c <= '\u{D}') || c == ' ' || c == '\u{85}' || c == '\u{A0}' || c == '\u{1680}' || ('\u{2000}' <= c
        && c <= '\u{200A}') || c == '\u{2028}' || c == '\u{2029}' || c == '\u{202F}' || c == '\u{205F}' || c == '\u{3000}'
}

/// A text without the white space at its end.
pub open spec fn trimmed_end(s: Seq<char>) -> Seq<char>
    decreases s.len(),
{
    if s.len() > 0 && is_space(s.last()) {
        trimmed_end(s.drop_last())
    } else {
        s
    }
}

/// A text without the white space at its start.
pub open spec fn trimmed_start(s: Seq<char>) -> Seq<char>
    decreases s.len(),
{
    if s.len() > 0 && is_space(s[0]) {
        trimmed_start(s.drop_first())
    } else {
        s
    }
}

/// A text without the white space at both ends.
pub open spec fn trimmed(s: Seq<char>) -> Seq<char> {
    trimmed_end(trimmed_start(s))
}

/// Removes the white space at the end.
pub fn trim_end(chars: &[char]) -> (r: Vec<char>)
    ensures
        r@ == trimmed_end(chars@),
{
    let mut n: usize = chars.len();
    assert(chars@.take(n as int) =~= chars@);
    while n > 0 && whitespace(chars[n - 1])
        invariant
            n <= chars@.len(),
            trimmed_end(chars@) == trimmed_end(chars@.take(n as int)),
        ensures
            n == 0 || !is_space(chars@[n - 1]),
        decreases n,
    {
        assert(chars@.take(n as int).drop_last() =~= chars@.take(n - 1));
        n = n - 1;
    }
    portion(chars, 0, n)
}

/// Removes the white space at both ends.
pub fn trim(chars: &[char]) -> (r: Vec<char>)
    ensures
        r@ == trimmed(chars@),
{
    let mut i: usize = 0;
    assert(chars@.skip(0) =~= chars@);
    while i < chars.len() && whitespace(chars[i])
        invariant
            i <= chars@.len(),
            trimmed_start(chars@) == trimmed_start(chars@.skip(i as int)),
        ensures
            i <= chars@.len(),
            i == chars@.len() || !is_space(chars@[i as int]),
        decreases chars@.len() - i,
    {
        assert(chars@.skip(i as int).drop_first() =~= chars@.skip(i + 1));
        i = i + 1;
    }
    let rest = portion(chars, i, chars.len());
    assert(rest@ =~= chars@.skip(i as int));
    trim_end(&rest)
}

/// The place of the first `c` at or after `from`, or the length.
pub open spec fn find(s: Seq<char>, c: char, from: int) -> int
    decreases s.len() - from,
{
    if from >= s.len() {
        s.len() as int
    } else if s[from] == c {
        from
    } else {
        find(s, c, from + 1)
    }
}

pub proof fn lemma_find(s: Seq<char>, c: char, from: int)
    requires
        0 <= from <= s.len(),
    ensures
        from <= find(s, c, from) <= s.len(),
        find(s, c, from) < s.len() ==> s[find(s, c, from)] == c,
        forall|i: int| from <= i < find(s, c, from) ==> s[i] != c,
    decreases s.len() - from,
{
    if from < s.len() && s[from] != c {
        lemma_find(s, c, from + 1);
    }
}

/// Finds the first `c` at or after `from`.
pub fn find_char(chars: &[char], c: char, from: usize) -> (r: usize)
    requires
        from <= chars@.len(),
    ensures
        r == find(chars@, c, from as int),
        from <= r <= chars@.len(),
{
    let mut i = from;
    while i < chars.len() && chars[i] != c
        invariant
            from <= i <= chars@.len(),
            find(chars@, c, from as int) == find(chars@, c, i as int),
        ensures
            i <= chars@.len(),
            i == chars@.len() || chars@[i as int] == c,
        decreases chars@.len() - i,
    {
        i = i + 1;
    }
    i
}

/// The pieces of a text between separators, from a place on.
pub open spec fn pieces(s: Seq<char>, separator: char, from: int) -> Seq<Seq<char>>
    decreases s.len() - from,
{
    if from < 0 || from > s.len() {
        Seq::empty()
    } else {
        let end = find(s, separator, from);
        if from <= end < s.len() {
            seq![s.subrange(from, end)] + pieces(s, separator, end + 1)
        } else {
            seq![s.subrange(from, s.len() as int)]
        }
    }
}

/// Texts as their characters.
pub open spec fn views(v: Seq<Vec<char>>) -> Seq<Seq<char>> {
    v.map_values(|t: Vec<char>| t@)
}

/// Cuts a text at each separator.
pub fn split(chars: &[char], separator: char) -> (r: Vec<Vec<char>>)
    ensures
        views(r@) == pieces(chars@, separator, 0),
{
    let mut out: Vec<Vec<char>> = Vec::new();
    let mut from: usize = 0;
    let ghost all = pieces(chars@, separator, 0);
    assert(views(out@) =~= Seq::<Seq<char>>::empty());
    assert(all =~= views(out@) + pieces(chars@, separator, 0));
    loop
        invariant
            from <= chars@.len(),
            all == pieces(chars@, separator, 0),
            all == views(out@) + pieces(chars@, separator, from as int),
        decreases chars@.len() - from,
    {
        let end = find_char(chars, separator, from);
        let piece = portion(chars, from, end);
        let ghost before = views(out@);
        out.push(piece);
        proof {
            assert(views(out@) =~= before.push(piece@));
        }
        if end == chars.len() {
            proof {
                assert(all =~= views(out@));
            }
            return out;
        }
        proof {
            assert(all =~= views(out@) + pieces(chars@, separator, end + 1));
        }
        from = end + 1;
    }
}

/// A line without a carriage return at its end.
pub open spec fn without_return(s: Seq<char>) -> Seq<char> {
    if s.len() > 0 && s.last() == '\r' {
        s.drop_last()
    } else {
        s
    }
}

/// The lines of a text from a place on. A line ends with a line feed, or a
/// carriage return and a line feed, neither of which belongs to it; the last line
/// need not end so.
pub open spec fn lines(s: Seq<char>, from: int) -> Seq<Seq<char>>
    decreases s.len() - from,
{
    if from < 0 || from >= s.len() {
        Seq::empty()
    } else {
        let end = find(s, '\n', from);
        if from <= end < s.len() {
            seq![without_return(s.subrange(from, end))] + lines(s, end + 1)
        } else {
            seq![s.subrange(from, s.len() as int)]
        }
    }
}

/// The lines of the rest of a text are its lines from that place on.
proof fn lemma_lines_skip(s: Seq<char>, at: int, from: int)
    requires
        0 <= at <= from <= s.len(),
    ensures
        lines(s, from) == lines(s.skip(at), from - at),
    decreases s.len() - from,
{
    if from < s.len() {
        lemma_find(s, '\n', from);
        lemma_find(s.skip(at), '\n', from - at);
        let end = find(s, '\n', from);
        let t = s.skip(at);
        let last = find(t, '\n', from - at);
        assert(t[end - at] == s[end] || end == s.len());
        assert(last < t.len() ==> s[last + at] == t[last]);
        if last + at < end {
            assert(s[last + at] == t[last]);
        }
        if end < last + at {
            assert(t[end - at] == s[end]);
        }
        assert(last + at == end);
        if end < s.len() {
            lemma_lines_skip(s, at, end + 1);
            assert(s.subrange(from, end) =~= t.subrange(from - at, end - at));
        } else {
            assert(s.subrange(from, end) =~= t.subrange(from - at, end - at));
        }
    }
}

/// A text with a carriage return before each line feed.
pub open spec fn with_returns(s: Seq<char>) -> Seq<char>
    decreases s.len(),
{
    if s.len() == 0 {
        s
    } else if s[0] == '\n' {
        seq!['\r', '\n'] + with_returns(s.drop_first())
    } else {
        seq![s[0]] + with_returns(s.drop_first())
    }
}

/// What stands before the first line feed stays as it is.
proof fn lemma_with_returns(s: Seq<char>, n: int)
    requires
        0 <= n <= s.len(),
        forall|i: int| 0 <= i < n ==> s[i] != '\n',
    ensures
        with_returns(s) == s.take(n) + with_returns(s.skip(n)),
    decreases n,
{
    if n == 0 {
        assert(s.skip(0) =~= s);
        assert(with_returns(s) =~= s.take(0) + with_returns(s.skip(0)));
    } else {
        let rest = s.drop_first();
        assert forall|i: int| 0 <= i < n - 1 implies rest[i] != '\n' by {
            assert(rest[i] == s[i + 1]);
        }
        lemma_with_returns(rest, n - 1);
        assert(rest.skip(n - 1) =~= s.skip(n));
        assert(with_returns(s) =~= s.take(n) + with_returns(s.skip(n)));
    }
}

/// Whether some lines hold the same as others but for white space at their ends.
pub open spec fn same_lines(a: Seq<Seq<char>>, b: Seq<Seq<char>>) -> bool {
    a.len() == b.len() && forall|i: int| 0 <= i < a.len() ==> trimmed(#[trigger] a[i]) == trimmed(b[i])
}

/// White space at the end of a text does not outlast the removal at its start.
proof fn lemma_trimmed_start(s: Seq<char>)
    requires
        s.len() > 0,
        is_space(s.last()),
    ensures
        trimmed_start(s).len() == 0 && trimmed_start(s.drop_last()).len() == 0 || (trimmed_start(s).len() > 0
            && trimmed_start(s).last() == s.last() && trimmed_start(s).drop_last() == trimmed_start(s.drop_last())),
    decreases s.len(),
{
    if is_space(s[0]) {
        let rest = s.drop_first();
        if rest.len() > 0 {
            lemma_trimmed_start(rest);
            assert(rest.last() == s.last());
            assert(s.drop_last()[0] == s[0]);
            assert(s.drop_last().drop_first() =~= rest.drop_last());
        } else {
            assert(s.drop_last() =~= rest);
        }
    } else {
        assert(s.drop_last()[0] == s[0]);
    }
}

/// A carriage return at the end of a line does not matter once it is trimmed.
pub proof fn lemma_trimmed_return(s: Seq<char>)
    ensures
        trimmed(without_return(s)) == trimmed(s),
{
    if s.len() > 0 && s.last() == '\r' {
        lemma_trimmed_start(s);
    }
}

/// Carriage returns before line feeds change no line but for white space at its end.
pub proof fn lemma_returns(s: Seq<char>)
    ensures
        same_lines(lines(with_returns(s), 0), lines(s, 0)),
    decreases s.len(),
{
    if s.len() > 0 {
        lemma_find(s, '\n', 0);
        let end = find(s, '\n', 0);
        lemma_with_returns(s, end);
        let t = with_returns(s);
        let head = s.take(end);
        if end == s.len() {
            assert(s.skip(end) =~= Seq::<char>::empty());
            assert(t =~= s);
        } else {
            let rest = s.skip(end + 1);
            assert(s.skip(end).drop_first() =~= rest);
            assert(t =~= head + seq!['\r', '\n'] + with_returns(rest));
            lemma_find(t, '\n', 0);
            let last = find(t, '\n', 0);
            assert(t[end] == '\r');
            assert(t[end + 1] == '\n');
            assert forall|i: int| 0 <= i < end implies t[i] != '\n' by {
                assert(t[i] == s[i]);
            }
            assert(last == end + 1);
            assert(t.subrange(0, last) =~= head.push('\r'));
            assert(head.push('\r').drop_last() =~= head);
            assert(s.subrange(0, end) =~= head);
            lemma_lines_skip(t, end + 2, end + 2);
            assert(t.skip(end + 2) =~= with_returns(rest));
            lemma_lines_skip(s, end + 1, end + 1);
            lemma_returns(rest);
            lemma_trimmed_return(head);
            let a = lines(t, 0);
            let b = lines(s, 0);
            assert(a == seq![head] + lines(with_returns(rest), 0));
            assert(b == seq![without_return(head)] + lines(rest, 0));
            assert forall|i: int| 0 <= i < a.len() implies trimmed(#[trigger] a[i]) == trimmed(b[i]) by {
                if i > 0 {
                    assert(a[i] == lines(with_returns(rest), 0)[i - 1]);
                    assert(b[i] == lines(rest, 0)[i - 1]);
                }
            }
        }
    }
}

/// The lines of a text that consists of whole lines and more are those of its parts.
pub proof fn lemma_lines_joined(a: Seq<char>, b: Seq<char>)
    requires
        a.len() == 0 || a.last() == '\n',
    ensures
        lines(a + b, 0) == lines(a, 0) + lines(b, 0),
    decreases a.len(),
{
    if a.len() == 0 {
        assert(a + b =~= b);
        assert(lines(a, 0) + lines(b, 0) =~= lines(b, 0));
    } else {
        let all = a + b;
        lemma_find(a, '\n', 0);
        lemma_find(all, '\n', 0);
        let end = find(a, '\n', 0);
        let last = find(all, '\n', 0);
        assert(a[a.len() - 1] == '\n');
        assert(all[end] == a[end]);
        assert(last <= end);
        assert(last < end ==> all[last] == a[last]);
        assert(last == end);
        let rest = a.skip(end + 1);
        assert(rest.len() > 0 ==> rest.last() == a.last());
        lemma_lines_joined(rest, b);
        lemma_lines_skip(a, end + 1, end + 1);
        lemma_lines_skip(all, end + 1, end + 1);
        assert(all.skip(end + 1) =~= rest + b);
        assert(all.subrange(0, end) =~= a.subrange(0, end));
        assert(lines(all, 0) =~= lines(a, 0) + lines(b, 0));
    }
}

/// A text without a line feed is one line, with a line feed behind it or not.
pub proof fn lemma_one_line(s: Seq<char>)
    requires
        forall|i: int| 0 <= i < s.len() ==> s[i] != '\n',
    ensures
        lines(s.push('\n'), 0) == seq![without_return(s)],
        s.len() > 0 ==> lines(s, 0) == seq![s],
{
    let t = s.push('\n');
    lemma_find(t, '\n', 0);
    let end = find(t, '\n', 0);
    assert(t[s.len() as int] == '\n');
    assert(end < s.len() ==> t[end] == s[end]);
    assert(end == s.len());
    assert(t.subrange(0, end) =~= s);
    assert(lines(t, end + 1) =~= Seq::<Seq<char>>::empty());
    assert(lines(t, 0) =~= seq![without_return(s)]);
    lemma_find(s, '\n', 0);
    assert(s.subrange(0, s.len() as int) =~= s);
}

/// The place at which the last line of a text begins.
pub proof fn lemma_last_line(s: Seq<char>) -> (k: int)
    ensures
        0 <= k <= s.len(),
        k == 0 || s[k - 1] == '\n',
        forall|i: int| k <= i < s.len() ==> s[i] != '\n',
    decreases s.len(),
{
    if s.len() == 0 || s.last() == '\n' {
        s.len() as int
    } else {
        let rest = s.drop_last();
        let k = lemma_last_line(rest);
        assert(k > 0 ==> rest[k - 1] == s[k - 1]);
        assert forall|i: int| k <= i < s.len() implies s[i] != '\n' by {
            if i < rest.len() {
                assert(rest[i] == s[i]);
            }
        }
        k
    }
}

proof fn lemma_trimmed_start_first(s: Seq<char>)
    ensures
        trimmed_start(s).len() == 0 || !is_space(trimmed_start(s)[0]),
    decreases s.len(),
{
    if s.len() > 0 && is_space(s[0]) {
        lemma_trimmed_start_first(s.drop_first());
    }
}

proof fn lemma_trimmed_end_ends(s: Seq<char>)
    ensures
        trimmed_end(s).len() == 0 || !is_space(trimmed_end(s).last()),
        s.len() > 0 && !is_space(s[0]) ==> trimmed_end(s).len() > 0 && trimmed_end(s)[0] == s[0],
    decreases s.len(),
{
    if s.len() > 0 && is_space(s.last()) {
        lemma_trimmed_end_ends(s.drop_last());
    }
}

/// A trimmed text has nothing to trim.
pub proof fn lemma_trimmed_twice(s: Seq<char>)
    ensures
        trimmed(trimmed(s)) == trimmed(s),
{
    lemma_trimmed_start_first(s);
    lemma_trimmed_end_ends(trimmed_start(s));
}

/// Whether a text starts with another.
pub fn starts_with(chars: &[char], start: &str) -> (r: bool)
    ensures
        r == (start@.len() <= chars@.len() && chars@.take(start@.len() as int) == start@),
{
    let s = characters(start);
    if s.len() > chars.len() {
        return false;
    }
    let head = portion(chars, 0, s.len());
    assert(head@ =~= chars@.take(start@.len() as int));
    same_text(&head, &s)
}

/// Whether a text ends with another.
pub fn ends_with(chars: &[char], end: &str) -> (r: bool)
    ensures
        r == (end@.len() <= chars@.len() && chars@.skip(chars@.len() - end@.len()) == end@),
{
    let e = characters(end);
    if e.len() > chars.len() {
        return false;
    }
    let tail = portion(chars, chars.len() - e.len(), chars.len());
    assert(tail@ =~= chars@.skip(chars@.len() - end@.len()));
    same_text(&tail, &e)
}

/// A letter of the basic alphabet in lower case; any other character as it is.
pub open spec fn lower(c: char) -> char {
    if 'A' <= c <= 'Z' {
        (c as u32 + 32) as char
    } else {
        c
    }
}

/// A text with the letters of the basic alphabet in lower case.
pub open spec fn lowered(s: Seq<char>) -> Seq<char> {
    s.map_values(|c: char| lower(c))
}

fn lower_char(c: char) -> (r: char)
    ensures
        r == lower(c),
{
    if 'A' <= c && c <= 'Z' {
        (c as u8 + 32) as char
    } else {
        c
    }
}

/// Puts the letters of the basic alphabet into lower case.
pub fn lowercase(chars: &[char]) -> (r: Vec<char>)
    ensures
        r@ == lowered(chars@),
{
    let mut out: Vec<char> = Vec::new();
    let mut i: usize = 0;
    while i < chars.len()
        invariant
            i <= chars@.len(),
            out@ == lowered(chars@.take(i as int)),
        decreases chars@.len() - i,
    {
        proof {
            assert(lowered(chars@.take(i + 1)) =~= lowered(chars@.take(i as int)).push(lower(chars@[i as int])));
        }
        out.push(lower_char(chars[i]));
        i = i + 1;
    }
    assert(chars@.take(chars@.len() as int) =~= chars@);
    out
}

} // verus!
