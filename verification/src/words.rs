//! Words and lines of text.

use vstd::prelude::*;

use crate::text;
use crate::text::{chars_of, string_of};

verus! {

/// Whether Unicode counts a character as white space.
pub open spec fn is_white(c: char) -> bool {
    let n = c as int;
    ||| 0x9 <= n <= 0xd
    ||| n == 0x20
    ||| n == 0x85
    ||| n == 0xa0
    ||| n == 0x1680
    ||| 0x2000 <= n <= 0x200a
    ||| n == 0x2028
    ||| n == 0x2029
    ||| n == 0x202f
    ||| n == 0x205f
    ||| n == 0x3000
}

pub fn white(c: char) -> (r: bool)
    ensures
        r == is_white(c),
{
    let n: u32 = c as u32;
    (0x9 <= n && n <= 0xd) || n == 0x20 || n == 0x85 || n == 0xa0 || n == 0x1680 || (0x2000 <= n && n
        <= 0x200a) || n == 0x2028 || n == 0x2029 || n == 0x202f || n == 0x205f || n == 0x3000
}

/// How many characters stand at the start that are white, or that are not.
pub open spec fn run(s: Seq<char>, white: bool) -> nat
    decreases s.len(),
{
    if s.len() > 0 && is_white(s[0]) == white {
        1 + run(s.skip(1), white)
    } else {
        0
    }
}

proof fn lemma_run(s: Seq<char>, white: bool)
    ensures
        run(s, white) <= s.len(),
        forall|i: int| 0 <= i < run(s, white) ==> is_white(#[trigger] s[i]) == white,
        run(s, white) < s.len() ==> is_white(s[run(s, white) as int]) != white,
    decreases s.len(),
{
    if s.len() > 0 && is_white(s[0]) == white {
        lemma_run(s.skip(1), white);
        assert forall|i: int| 0 <= i < run(s, white) implies is_white(#[trigger] s[i]) == white by {
            if i > 0 {
                assert(s[i] == s.skip(1)[i - 1]);
            }
        }
    }
}

pub fn run_from(v: &Vec<char>, from: usize, of_white: bool) -> (to: usize)
    requires
        from <= v@.len(),
    ensures
        to == from + run(v@.skip(from as int), of_white),
        from <= to <= v@.len(),
{
    let ghost s = v@.skip(from as int);
    let mut to: usize = from;
    while to < v.len() && white(v[to]) == of_white
        invariant
            from <= to <= v@.len(),
            s == v@.skip(from as int),
            forall|i: int| 0 <= i < to - from ==> is_white(#[trigger] s[i]) == of_white,
        decreases v@.len() - to,
    {
        assert(s[to - from] == v@[to as int]);
        to += 1;
    }
    proof {
        lemma_run(s, of_white);
        let n = run(s, of_white);
        if n < to - from {
            assert(is_white(s[n as int]) == of_white);
        }
        if n > to - from {
            assert(is_white(s[to - from]) == of_white);
        }
    }
    to
}

/// The words of a text, as white space divides it.
pub open spec fn words(s: Seq<char>) -> Seq<Seq<char>>
    decreases s.len(),
    via words_decreases
{
    let a = run(s, true);
    let rest = s.skip(a as int);
    if rest.len() == 0 {
        Seq::empty()
    } else {
        let n = run(rest, false);
        seq![rest.take(n as int)] + words(rest.skip(n as int))
    }
}

#[via_fn]
proof fn words_decreases(s: Seq<char>) {
    let a = run(s, true);
    lemma_run(s, true);
    let rest = s.skip(a as int);
    lemma_run(rest, false);
    if rest.len() > 0 {
        assert(!is_white(rest[0]));
    }
}

/// A word at the start of a text, before white space, is its first; the others
/// are those of what follows.
pub proof fn the_first_word(word: Seq<char>, c: char, rest: Seq<char>)
    requires
        word.len() > 0,
        forall|i: int| 0 <= i < word.len() ==> !is_white(#[trigger] word[i]),
        is_white(c),
    ensures
        words(word + seq![c] + rest) == seq![word] + words(rest),
{
    let s = word + seq![c] + rest;
    let n = word.len();
    lemma_run(s, true);
    assert(s[0] == word[0]);
    assert(run(s, true) == 0);
    assert(s.skip(0) =~= s);
    lemma_run(s, false);
    let k = run(s, false);
    if k < n {
        assert(s[k as int] == word[k as int]);
    }
    if k > n {
        assert(s[n as int] == c);
    }
    assert(s.take(n as int) =~= word);
    let t = seq![c] + rest;
    assert(s.skip(n as int) =~= t);
    assert(t.skip(1) =~= rest);
    assert(t[0] == c);
    assert(run(t, true) == 1 + run(rest, true));
    lemma_run(rest, true);
    assert(t.skip(run(t, true) as int) =~= rest.skip(run(rest, true) as int));
    assert(words(t) == words(rest));
}

/// A text that begins with a word begins with no white space, and the word ends where
/// white space begins.
pub proof fn lemma_leading_word(word: Seq<char>, c: char, rest: Seq<char>)
    requires
        word.len() > 0,
        forall|i: int| 0 <= i < word.len() ==> !is_white(#[trigger] word[i]),
        is_white(c),
    ensures
        run(word + seq![c] + rest, true) == 0,
        run(word + seq![c] + rest, false) == word.len(),
{
    let s = word + seq![c] + rest;
    let n = word.len();
    lemma_run(s, false);
    let k = run(s, false);
    assert(s[0] == word[0]);
    if k < n {
        assert(s[k as int] == word[k as int]);
    }
    if k > n {
        assert(s[n as int] == c);
        assert(is_white(s[n as int]) == false);
    }
}

/// The words of a text.
pub fn split_words(t: &str) -> (w: Vec<String>)
    ensures
        text::texts(w@) == words(t@),
{
    let v = chars_of(t);
    let mut w: Vec<String> = Vec::new();
    let mut at: usize = 0;
    assert(v@.skip(0) =~= v@);
    assert(text::texts(w@) + words(v@) =~= words(v@));
    loop
        invariant
            v@ == t@,
            at <= v@.len(),
            words(t@) == text::texts(w@) + words(v@.skip(at as int)),
        ensures
            words(t@) == text::texts(w@),
        decreases v@.len() - at,
    {
        let ghost s = v@.skip(at as int);
        let from: usize = run_from(&v, at, true);
        let ghost rest = v@.skip(from as int);
        assert(s.skip(run(s, true) as int) =~= rest);
        if from == v.len() {
            assert(words(s) =~= Seq::empty());
            assert(text::texts(w@) + words(s) =~= text::texts(w@));
            break;
        }
        let to: usize = run_from(&v, from, false);
        proof {
            lemma_run(s, true);
            lemma_run(rest, false);
            assert(!is_white(rest[0]));
        }
        let ghost before = w@;
        w.push(string_of(&v, from, to));
        proof {
            let n = to - from;
            assert(v@.subrange(from as int, to as int) =~= rest.take(n));
            assert(rest.skip(n) =~= v@.skip(to as int));
            assert(text::texts(w@) =~= text::texts(before).push(rest.take(n)));
            assert(words(s) == seq![rest.take(n)] + words(v@.skip(to as int)));
            assert(text::texts(before) + words(s) =~= text::texts(w@) + words(v@.skip(to as int)));
        }
        at = to;
    }
    w
}

/// How many white characters stand at the end.
pub open spec fn white_tail(s: Seq<char>) -> nat
    decreases s.len(),
{
    if s.len() > 0 && is_white(s.last()) {
        1 + white_tail(s.drop_last())
    } else {
        0
    }
}

/// A text without the white space at its start.
pub open spec fn trim_start(s: Seq<char>) -> Seq<char> {
    s.skip(run(s, true) as int)
}

/// A text without the white space around it.
pub open spec fn trimmed(s: Seq<char>) -> Seq<char> {
    let t = trim_start(s);
    t.take(t.len() - white_tail(t))
}

/// White space around a text that has none at its ends goes.
pub proof fn trims_to(before: Seq<char>, s: Seq<char>, after: Seq<char>)
    requires
        forall|i: int| 0 <= i < before.len() ==> is_white(#[trigger] before[i]),
        forall|i: int| 0 <= i < after.len() ==> is_white(#[trigger] after[i]),
        s.len() > 0,
        !is_white(s[0]),
        !is_white(s.last()),
    ensures
        trimmed(before + s + after) == s,
{
    let t = before + s + after;
    lemma_run(t, true);
    let n = run(t, true);
    let m = before.len();
    assert(t[m as int] == s[0]);
    if n > m {
        assert(is_white(t[m as int]));
    }
    if n < m {
        assert(t[n as int] == before[n as int]);
    }
    assert(t.skip(m as int) =~= s + after);
    lemma_white_tail(s, after);
    assert((s + after).take(s.len() as int) =~= s);
}

proof fn lemma_white_tail(s: Seq<char>, after: Seq<char>)
    requires
        forall|i: int| 0 <= i < after.len() ==> is_white(#[trigger] after[i]),
        s.len() > 0,
        !is_white(s.last()),
    ensures
        white_tail(s + after) == after.len(),
    decreases after.len(),
{
    if after.len() == 0 {
        assert(s + after =~= s);
    } else {
        let less = after.drop_last();
        assert forall|i: int| 0 <= i < less.len() implies is_white(#[trigger] less[i]) by {
            assert(less[i] == after[i]);
        }
        lemma_white_tail(s, less);
        assert((s + after).last() == after[after.len() - 1]);
        assert((s + after).drop_last() =~= s + less);
    }
}

/// A text without the white space around it.
pub fn trim_text(t: &str) -> (r: String)
    ensures
        r@ == trimmed(t@),
{
    let v = chars_of(t);
    assert(v@.skip(0) =~= v@);
    let from: usize = run_from(&v, 0, true);
    let ghost s = v@.skip(from as int);
    let mut to: usize = v.len();
    assert(s.take(s.len() as int) =~= s);
    while to > from && white(v[to - 1])
        invariant
            from <= to <= v@.len(),
            s == v@.skip(from as int),
            white_tail(s) == white_tail(s.take(to - from)) + (v@.len() - to),
        decreases to,
    {
        assert(s.take(to - from).last() == v@[to - 1]);
        assert(s.take(to - from).drop_last() =~= s.take(to - from - 1));
        to -= 1;
    }
    proof {
        let u = s.take(to - from);
        if to > from {
            assert(u.last() == v@[to - 1]);
        }
        assert(white_tail(u) == 0);
        assert(v@.subrange(from as int, to as int) =~= u);
    }
    string_of(&v, from, to)
}

/// A line without what ends it: a line feed, and a carriage return before it.
pub open spec fn unended(line: Seq<char>) -> Seq<char> {
    if line.len() > 0 && line.last() == '\n' {
        let s = line.drop_last();
        if s.len() > 0 && s.last() == '\r' {
            s.drop_last()
        } else {
            s
        }
    } else {
        line
    }
}

/// The lines of a text.
pub open spec fn lines(s: Seq<char>) -> Seq<Seq<char>>
    decreases s.len(),
    via lines_decreases
{
    if s.len() == 0 {
        Seq::empty()
    } else {
        let k = text::first_index(s, '\n');
        let n = if k < s.len() {
            k + 1
        } else {
            s.len()
        };
        seq![unended(s.take(n as int))] + lines(s.skip(n as int))
    }
}

#[via_fn]
proof fn lines_decreases(s: Seq<char>) {
}

/// The lines of a text.
pub fn split_lines(t: &str) -> (w: Vec<String>)
    ensures
        text::texts(w@) == lines(t@),
{
    let v = chars_of(t);
    let mut w: Vec<String> = Vec::new();
    let mut at: usize = 0;
    assert(v@.skip(0) =~= v@);
    assert(text::texts(w@) + lines(v@) =~= lines(v@));
    while at < v.len()
        invariant
            v@ == t@,
            at <= v@.len(),
            lines(t@) == text::texts(w@) + lines(v@.skip(at as int)),
        decreases v@.len() - at,
    {
        let ghost s = v@.skip(at as int);
        let k: usize = text::index_from(&v, at, '\n');
        proof {
            text::lemma_first_index(s, '\n');
        }
        let to: usize = if k < v.len() {
            k + 1
        } else {
            v.len()
        };
        let mut end: usize = to;
        if v[end - 1] == '\n' {
            end -= 1;
            if end > at && v[end - 1] == '\r' {
                end -= 1;
            }
        }
        let ghost before = w@;
        w.push(string_of(&v, at, end));
        proof {
            let n = to - at;
            let line = s.take(n);
            assert(line.last() == v@[to - 1]);
            assert(v@.subrange(at as int, end as int) =~= unended(line));
            assert(s.skip(n) =~= v@.skip(to as int));
            assert(text::texts(w@) =~= text::texts(before).push(unended(line)));
            assert(lines(s) == seq![unended(line)] + lines(v@.skip(to as int)));
            assert(text::texts(before) + lines(s) =~= text::texts(w@) + lines(v@.skip(to as int)));
        }
        at = to;
    }
    assert(v@.skip(at as int) =~= Seq::<char>::empty());
    assert(text::texts(w@) + lines(v@.skip(at as int)) =~= text::texts(w@));
    w
}

// ---------------------------------------------------------------------------
// What that comes to.

/// Blanks, tabs and ends of lines are white space, and what is printed of ASCII is not.
pub proof fn blanks_are_white(c: char)
    ensures
        is_white(' ') && is_white('\t') && is_white('\n') && is_white('\r'),
        '!' <= c <= '~' ==> !is_white(c),
{
}

/// White space in front of a text adds no word, a word alone is the only one, and an
/// empty text has none.
pub proof fn white_space_only_divides(c: char, s: Seq<char>, word: Seq<char>)
    requires
        is_white(c),
        word.len() > 0,
        forall|i: int| 0 <= i < word.len() ==> !is_white(#[trigger] word[i]),
    ensures
        words(seq![c] + s) == words(s),
        words(word) == seq![word],
        words(Seq::empty()) == Seq::<Seq<char>>::empty(),
{
    let none = Seq::<char>::empty();
    lemma_run(none, true);
    assert(none.skip(0).len() == 0);
    let t = seq![c] + s;
    assert(t.skip(1) =~= s);
    assert(run(t, true) == 1 + run(s, true));
    lemma_run(s, true);
    assert(t.skip(run(t, true) as int) =~= s.skip(run(s, true) as int));
    lemma_run(word, false);
    assert(!is_white(word[0]));
    assert(run(word, true) == 0);
    assert(word.skip(0) =~= word);
    let n = run(word, false);
    assert(n == word.len()) by {
        if n < word.len() {
            assert(!is_white(word[n as int]));
        }
    }
    assert(word.take(n as int) =~= word);
    assert(word.skip(n as int) =~= none);
    assert(words(none) == Seq::<Seq<char>>::empty());
    assert(words(word) == seq![word] + words(none));
    assert(words(word) =~= seq![word]);
}

/// A line ends at its line feed, which is not of it, nor is a carriage return before
/// that; the lines behind it are those of what follows. What stands behind the last line
/// feed is a line too.
pub proof fn lines_end_at_their_feeds(line: Seq<char>, rest: Seq<char>)
    requires
        forall|i: int| 0 <= i < line.len() ==> line[i] != '\n',
        line.len() > 0 ==> line.last() != '\r',
    ensures
        lines(line + seq!['\n'] + rest) == seq![line] + lines(rest),
        lines(line + seq!['\r', '\n'] + rest) == seq![line] + lines(rest),
        line.len() > 0 ==> lines(line) == seq![line],
        lines(Seq::empty()) == Seq::<Seq<char>>::empty(),
{
    let n = line.len() as int;
    let a = line + seq!['\n'] + rest;
    let b = line + seq!['\r', '\n'] + rest;
    text::lemma_first_index_is(a, '\n', n);
    assert(a.take(n + 1) =~= line.push('\n'));
    assert(line.push('\n').drop_last() =~= line);
    assert(unended(a.take(n + 1)) =~= line);
    assert(a.skip(n + 1) =~= rest);
    assert forall|i: int| 0 <= i < n + 1 implies b[i] != '\n' by {
        if i < n {
            assert(b[i] == line[i]);
        }
    }
    text::lemma_first_index_is(b, '\n', n + 1);
    assert(b.take(n + 2) =~= line.push('\r').push('\n'));
    assert(line.push('\r').push('\n').drop_last() =~= line.push('\r'));
    assert(line.push('\r').drop_last() =~= line);
    assert(unended(b.take(n + 2)) =~= line);
    assert(b.skip(n + 2) =~= rest);
    if n > 0 {
        text::lemma_first_index_is(line, '\n', n);
        assert(line.take(n) =~= line);
        assert(line.last() != '\n');
        let none = Seq::<char>::empty();
        assert(line.skip(n) =~= none);
        assert(lines(none) == Seq::<Seq<char>>::empty());
        assert(lines(line) == seq![line] + lines(none));
        assert(lines(line) =~= seq![line]);
    }
}

} // verus!
