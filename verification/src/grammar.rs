//! What the text of an alias file means, and the text that a map of aliases
//! is written as.
//!
//! A file is a sequence of lines. A line whose first word is `alias` defines
//! an alias: the words after it, joined by single spaces, are split at the
//! first `=` into the name and the quoted command, and the command is the
//! quoted part without its first and last character. Every other line says
//! nothing.

use vstd::prelude::*;
use crate::table::listing;
use crate::text::whitespace;

verus! {

/// The number of characters of `s` that stand before the first `c`; all of
/// them where `s` holds no `c`.
pub open spec fn until(s: Seq<char>, c: char) -> nat
    decreases s.len(),
{
    if s.len() == 0 || s[0] == c {
        0
    } else {
        1 + until(s.drop_first(), c)
    }
}

/// The number of characters of `s` that stand before its first white space.
pub open spec fn word_len(s: Seq<char>) -> nat
    decreases s.len(),
{
    if s.len() == 0 || whitespace(s[0]) {
        0
    } else {
        1 + word_len(s.drop_first())
    }
}

/// `until(s, c)` is the first place of `c` in `s`, or the length of `s`.
pub proof fn lemma_until(s: Seq<char>, c: char)
    ensures
        until(s, c) <= s.len(),
        forall|i: int| 0 <= i < until(s, c) ==> s[i] != c,
        until(s, c) < s.len() ==> s[until(s, c) as int] == c,
    decreases s.len(),
{
    if s.len() > 0 && s[0] != c {
        let rest = s.drop_first();
        lemma_until(rest, c);
        assert forall|i: int| 0 <= i < until(s, c) implies s[i] != c by {
            if i > 0 {
                assert(s[i] == rest[i - 1]);
            }
        }
        if until(s, c) < s.len() {
            assert(s[until(s, c) as int] == rest[until(rest, c) as int]);
        }
    }
}

/// The place that `lemma_until` describes is the only one.
pub proof fn lemma_until_is(s: Seq<char>, c: char, n: int)
    requires
        0 <= n <= s.len(),
        forall|i: int| 0 <= i < n ==> s[i] != c,
        n < s.len() ==> s[n] == c,
    ensures
        until(s, c) == n,
{
    lemma_until(s, c);
    let u = until(s, c) as int;
    if u < n {
        assert(s[u] == c);
    } else if n < u {
        assert(s[n] != c);
    }
}

/// `word_len(s)` is the first place of white space in `s`, or the length of
/// `s`.
pub proof fn lemma_word_len(s: Seq<char>)
    ensures
        word_len(s) <= s.len(),
        forall|i: int| 0 <= i < word_len(s) ==> !whitespace(s[i]),
        word_len(s) < s.len() ==> whitespace(s[word_len(s) as int]),
    decreases s.len(),
{
    if s.len() > 0 && !whitespace(s[0]) {
        let rest = s.drop_first();
        lemma_word_len(rest);
        assert forall|i: int| 0 <= i < word_len(s) implies !whitespace(s[i]) by {
            if i > 0 {
                assert(s[i] == rest[i - 1]);
            }
        }
        if word_len(s) < s.len() {
            assert(s[word_len(s) as int] == rest[word_len(rest) as int]);
        }
    }
}

/// The place that `lemma_word_len` describes is the only one.
pub proof fn lemma_word_len_is(s: Seq<char>, n: int)
    requires
        0 <= n <= s.len(),
        forall|i: int| 0 <= i < n ==> !whitespace(s[i]),
        n < s.len() ==> whitespace(s[n]),
    ensures
        word_len(s) == n,
{
    lemma_word_len(s);
    let u = word_len(s) as int;
    if u < n {
        assert(whitespace(s[u]));
    } else if n < u {
        assert(!whitespace(s[n]));
    }
}

/// The parts of `s` that stand between the occurrences of `c`. There is one
/// part more than there are occurrences, so a text that ends in `c` has an
/// empty last part.
pub open spec fn split(s: Seq<char>, c: char) -> Seq<Seq<char>>
    decreases s.len(),
{
    let n = until(s, c);
    if n >= s.len() {
        seq![s]
    } else {
        seq![s.take(n as int)] + split(s.skip(n as int + 1), c)
    }
}

/// The lines of a text: what stands between its line feeds. A text that
/// ends in a line feed has an empty last line.
pub open spec fn lines(s: Seq<char>) -> Seq<Seq<char>> {
    split(s, '\n')
}

/// The words of a line: its longest runs of characters that are not white
/// space, in order.
pub open spec fn words(s: Seq<char>) -> Seq<Seq<char>>
    decreases s.len(),
{
    if s.len() == 0 {
        Seq::empty()
    } else if whitespace(s[0]) {
        words(s.drop_first())
    } else {
        proof {
            lemma_word_len(s);
        }
        let n = word_len(s);
        seq![s.take(n as int)] + words(s.skip(n as int))
    }
}

/// The parts in order, with `sep` between each two.
pub open spec fn join(parts: Seq<Seq<char>>, sep: Seq<char>) -> Seq<char>
    decreases parts.len(),
{
    if parts.len() == 0 {
        Seq::empty()
    } else if parts.len() == 1 {
        parts[0]
    } else {
        parts[0] + sep + join(parts.drop_first(), sep)
    }
}

/// `s` holds no `c`.
pub open spec fn free_of(s: Seq<char>, c: char) -> bool {
    forall|i: int| 0 <= i < s.len() ==> s[i] != c
}

/// A text without line feed is one line.
pub proof fn lemma_lines_single(a: Seq<char>)
    requires
        free_of(a, '\n'),
    ensures
        lines(a) == seq![a],
{
    lemma_until_is(a, '\n', a.len() as int);
}

/// The first line of a text ends at its first line feed.
pub proof fn lemma_lines_feed(a: Seq<char>, rest: Seq<char>)
    requires
        free_of(a, '\n'),
    ensures
        lines(a + seq!['\n'] + rest) == seq![a] + lines(rest),
{
    let s = a + seq!['\n'] + rest;
    lemma_until_is(s, '\n', a.len() as int);
    assert(s.take(a.len() as int) =~= a);
    assert(s.skip(a.len() as int + 1) =~= rest);
}

/// White space before a word belongs to no word.
pub proof fn lemma_words_space(s: Seq<char>, i: int)
    requires
        0 <= i < s.len(),
        whitespace(s[i]),
    ensures
        words(s.skip(i)) == words(s.skip(i + 1)),
{
    assert(s.skip(i).drop_first() =~= s.skip(i + 1));
}

/// After the end of a line no word follows.
pub proof fn lemma_words_end(s: Seq<char>)
    ensures
        words(s.skip(s.len() as int)) == Seq::<Seq<char>>::empty(),
{
}

/// A run of characters that are not white space, with white space or the
/// end of the line behind it, is the next word.
pub proof fn lemma_words_word(s: Seq<char>, i: int, j: int)
    requires
        0 <= i < j <= s.len(),
        forall|k: int| i <= k < j ==> !whitespace(s[k]),
        j < s.len() ==> whitespace(s[j]),
    ensures
        words(s.skip(i)) == seq![s.subrange(i, j)] + words(s.skip(j)),
{
    let t = s.skip(i);
    lemma_word_len_is(t, j - i);
    assert(t.take(j - i) =~= s.subrange(i, j));
    assert(t.skip(j - i) =~= s.skip(j));
}

/// The word that marks a line as the definition of an alias.
pub open spec fn keyword() -> Seq<char> {
    seq!['a', 'l', 'i', 'a', 's']
}

/// What one line of an alias file says.
pub enum Meaning {
    /// Nothing: the line's first word is not `alias`.
    Ignored,
    /// The line starts with `alias`, but fewer than two characters follow the
    /// first `=` of what comes after.
    Malformed,
    /// `name` stands for `command`.
    Definition { name: Seq<char>, command: Seq<char> },
}

/// The words of `line` after the first, joined by single spaces.
pub open spec fn payload(line: Seq<char>) -> Seq<char> {
    join(words(line).drop_first(), seq![' '])
}

/// What stands in `rest` after its first `=`: nothing where it holds none.
pub open spec fn quoted(rest: Seq<char>) -> Seq<char> {
    let n = until(rest, '=');
    if n < rest.len() {
        rest.skip(n as int + 1)
    } else {
        Seq::empty()
    }
}

/// The parts of a text, joined by what they were split at, make the text.
pub proof fn lemma_join_split(s: Seq<char>, c: char)
    ensures
        join(split(s, c), seq![c]) == s,
        split(s, c).len() > 0,
    decreases s.len(),
{
    lemma_until(s, c);
    let n = until(s, c) as int;
    if n < s.len() {
        let rest = s.skip(n + 1);
        lemma_join_split(rest, c);
        let parts = seq![s.take(n)] + split(rest, c);
        assert(parts[0] == s.take(n));
        assert(parts.drop_first() =~= split(rest, c));
        assert(join(parts, seq![c]) == s.take(n) + seq![c] + join(split(rest, c), seq![c]));
        assert(s.take(n) + seq![c] + rest =~= s);
    }
}

/// What `line` says.
pub open spec fn meaning(line: Seq<char>) -> Meaning {
    let ws = words(line);
    if ws.len() == 0 || ws[0] != keyword() {
        Meaning::Ignored
    } else {
        let rest = payload(line);
        let q = quoted(rest);
        if q.len() < 2 {
            Meaning::Malformed
        } else {
            Meaning::Definition {
                name: rest.take(until(rest, '=') as int),
                command: q.subrange(1, q.len() - 1),
            }
        }
    }
}

/// A line that starts with `alias` is malformed where fewer than three
/// characters stand from the first `=` of its payload on; else it defines
/// what stands before that `=` as what stands between the two characters
/// around the rest.
pub proof fn lemma_meaning_of_payload(line: Seq<char>, rest: Seq<char>, eq: int)
    requires
        words(line).len() > 0,
        words(line)[0] == keyword(),
        rest == payload(line),
        eq == until(rest, '='),
    ensures
        0 <= eq <= rest.len(),
        rest.len() - eq < 3 ==> meaning(line) == Meaning::Malformed,
        rest.len() - eq >= 3 ==> meaning(line) == (Meaning::Definition {
            name: rest.subrange(0, eq),
            command: rest.subrange(eq + 2, rest.len() - 1),
        }),
{
    lemma_until(rest, '=');
    let q = quoted(rest);
    if rest.len() - eq >= 3 {
        assert(q.len() == rest.len() - eq - 1);
        assert(q.subrange(1, q.len() - 1) =~= rest.subrange(eq + 2, rest.len() - 1));
        assert(rest.take(eq) =~= rest.subrange(0, eq));
    }
}

/// No line of `ls` is malformed.
pub open spec fn well_formed(ls: Seq<Seq<char>>) -> bool {
    forall|i: int| 0 <= i < ls.len() ==> !(#[trigger] meaning(ls[i]) is Malformed)
}

/// The map `m` after a line that says `what`: a definition maps its name to
/// its command, whatever the name stood for before; nothing else changes
/// the map.
pub open spec fn taken(m: Map<Seq<char>, Seq<char>>, what: Meaning) -> Map<Seq<char>, Seq<char>> {
    match what {
        Meaning::Definition { name, command } => m.insert(name, command),
        _ => m,
    }
}

/// The map `m` after the lines `ls` have been read in order, up to the first
/// malformed line. Of two definitions of one name the later one stays.
pub open spec fn loaded(m: Map<Seq<char>, Seq<char>>, ls: Seq<Seq<char>>) -> Map<
    Seq<char>,
    Seq<char>,
>
    decreases ls.len(),
{
    if ls.len() == 0 || meaning(ls[0]) is Malformed {
        m
    } else {
        loaded(taken(m, meaning(ls[0])), ls.drop_first())
    }
}

/// The aliases that `text` defines: none where a line of it is malformed.
pub open spec fn decode(text: Seq<char>) -> Option<Map<Seq<char>, Seq<char>>> {
    if well_formed(lines(text)) {
        Some(loaded(Map::empty(), lines(text)))
    } else {
        None
    }
}

/// The line that defines `name` as `command`, with its line feed. Nothing in
/// `command` is escaped.
pub open spec fn definition(name: Seq<char>, command: Seq<char>) -> Seq<char> {
    keyword() + seq![' '] + name + seq!['=', '"'] + command + seq!['"', '\n']
}

/// The definitions of the rows `es`, in order.
pub open spec fn render(es: Seq<(Seq<char>, Seq<char>)>) -> Seq<char>
    decreases es.len(),
{
    if es.len() == 0 {
        Seq::empty()
    } else {
        definition(es[0].0, es[0].1) + render(es.drop_first())
    }
}

/// The text that the aliases `m` are written as: one definition for each
/// name, in ascending order of names.
pub open spec fn encode(m: Map<Seq<char>, Seq<char>>) -> Seq<char> {
    render(listing(m))
}

} // verus!
