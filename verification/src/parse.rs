//! Reading: a text into its lines, and a line into what it says.

use vstd::prelude::*;
use crate::grammar::{
    free_of, join, keyword, lemma_lines_feed, lemma_lines_single, lemma_meaning_of_payload,
    lemma_until_is, lemma_words_end, lemma_words_space, lemma_words_word, lines, meaning, words,
    Meaning,
};
use crate::text::{from_chars, is_whitespace, to_chars, whitespace};

verus! {

/// What the strings `v` hold, each by its characters.
pub open spec fn texts(v: Seq<String>) -> Seq<Seq<char>> {
    v.map_values(|s: String| s@)
}

/// The lines of `text`.
pub fn split_lines(text: &str) -> (out: Vec<String>)
    ensures
        texts(out@) == lines(text@),
{
    let mut out: Vec<String> = Vec::new();
    let mut current = String::new();
    assert(current@ + text@.skip(0) =~= text@);
    assert(texts(out@) + lines(text@) =~= lines(text@));
    for c in it: text.chars()
        invariant
            it.seq() == text@,
            free_of(current@, '\n'),
            lines(text@) == texts(out@) + lines(current@ + text@.skip(it.index() as int)),
    {
        let ghost i = it.index() as int;
        let ghost rest = text@.skip(i + 1);
        let ghost line = current@;
        let ghost done = texts(out@);
        assert(c == text@[i]);
        assert(text@.skip(i) =~= seq![c] + rest);
        if c == '\n' {
            proof {
                assert(line + text@.skip(i) =~= line + seq!['\n'] + rest);
                lemma_lines_feed(line, rest);
                assert(texts(out@.push(current)) =~= done + seq![line]);
                assert(Seq::<char>::empty() + rest =~= rest);
                assert(done + (seq![line] + lines(rest)) =~= done + seq![line] + lines(rest));
            }
            out.push(current);
            current = String::new();
        } else {
            current.push(c);
            proof {
                assert(line.push(c) + rest =~= line + text@.skip(i));
            }
        }
    }
    proof {
        assert(current@ + text@.skip(text@.len() as int) =~= current@);
        lemma_lines_single(current@);
        assert(texts(out@.push(current)) =~= texts(out@) + seq![current@]);
    }
    out.push(current);
    out
}

/// What one line of an alias file says, as strings.
#[derive(Debug)]
pub enum Line {
    /// Nothing.
    Ignored,
    /// The line starts with `alias` and holds no quoted command.
    Malformed,
    /// `name` stands for `command`.
    Definition { name: String, command: String },
}

impl View for Line {
    type V = Meaning;

    open spec fn view(&self) -> Meaning {
        match self {
            Line::Ignored => Meaning::Ignored,
            Line::Malformed => Meaning::Malformed,
            Line::Definition { name, command } => Meaning::Definition {
                name: name@,
                command: command@,
            },
        }
    }
}

/// The next word of `v` from `from` on: where it starts and where it ends.
/// Both are the length of `v` where no word follows.
fn next_word(v: &Vec<char>, from: usize) -> (r: (usize, usize))
    requires
        from <= v.len(),
    ensures
        from <= r.0 <= r.1 <= v.len(),
        r.0 == r.1 ==> words(v@.skip(from as int)).len() == 0,
        r.0 < r.1 ==> words(v@.skip(from as int)) == seq![v@.subrange(r.0 as int, r.1 as int)]
            + words(v@.skip(r.1 as int)),
{
    let mut start: usize = from;
    while start < v.len() && is_whitespace(v[start])
        invariant
            from <= start <= v.len(),
            words(v@.skip(from as int)) == words(v@.skip(start as int)),
        decreases v.len() - start,
    {
        proof {
            lemma_words_space(v@, start as int);
        }
        start += 1;
    }
    let mut end: usize = start;
    while end < v.len() && !is_whitespace(v[end])
        invariant
            start <= end <= v.len(),
            forall|k: int| start <= k < end ==> !whitespace(v@[k]),
        decreases v.len() - end,
    {
        end += 1;
    }
    proof {
        if start < end {
            lemma_words_word(v@, start as int, end as int);
        } else if start < v.len() {
            lemma_words_space(v@, start as int);
            assert(whitespace(v@.skip(start as int)[0]));
        } else {
            lemma_words_end(v@);
        }
    }
    (start, end)
}

/// Tells whether `v[from..to]` is the word `alias`.
fn is_keyword(v: &Vec<char>, from: usize, to: usize) -> (b: bool)
    requires
        from <= to <= v.len(),
    ensures
        b == (v@.subrange(from as int, to as int) == keyword()),
{
    let ghost w = v@.subrange(from as int, to as int);
    assert(keyword().len() == 5);
    if to - from != 5 {
        return false;
    }
    let b = v[from] == 'a' && v[from + 1] == 'l' && v[from + 2] == 'i' && v[from + 3] == 'a'
        && v[from + 4] == 's';
    proof {
        assert(w[0] == v@[from as int]);
        assert(w[1] == v@[from + 1]);
        assert(w[2] == v@[from + 2]);
        assert(w[3] == v@[from + 3]);
        assert(w[4] == v@[from + 4]);
        if b {
            assert(w =~= keyword());
        }
    }
    b
}

/// What `acc` and the words `parts` make when `parts` are joined to `acc`,
/// with `sep` between each two words.
spec fn glue(acc: Seq<char>, parts: Seq<Seq<char>>, sep: Seq<char>) -> Seq<char> {
    if parts.len() == 0 {
        acc
    } else if acc.len() == 0 {
        join(parts, sep)
    } else {
        acc + sep + join(parts, sep)
    }
}

/// The words of `v` from `from` on, joined by single spaces.
fn joined_words(v: &Vec<char>, from: usize) -> (rest: Vec<char>)
    requires
        from <= v.len(),
    ensures
        rest@ == join(words(v@.skip(from as int)), seq![' ']),
{
    let ghost sep = seq![' '];
    let mut rest: Vec<char> = Vec::new();
    let mut at: usize = from;
    loop
        invariant
            sep == seq![' '],
            from <= at <= v.len(),
            join(words(v@.skip(from as int)), sep) == glue(rest@, words(v@.skip(at as int)), sep),
        decreases v.len() - at,
    {
        let (start, end) = next_word(v, at);
        if start == end {
            return rest;
        }
        let ghost before = rest@;
        let ghost word = v@.subrange(start as int, end as int);
        let ghost tail = words(v@.skip(end as int));
        if rest.len() > 0 {
            rest.push(' ');
        }
        let mut i: usize = start;
        while i < end
            invariant
                start <= i <= end <= v.len(),
                rest@ == (if before.len() == 0 {
                    before
                } else {
                    before + seq![' ']
                }) + v@.subrange(start as int, i as int),
            decreases end - i,
        {
            rest.push(v[i]);
            proof {
                let so_far = v@.subrange(start as int, i as int);
                assert(v@.subrange(start as int, i + 1) =~= so_far.push(v@[i as int]));
            }
            i += 1;
        }
        proof {
            let parts = seq![word] + tail;
            assert(parts[0] == word);
            assert(parts.drop_first() =~= tail);
            if tail.len() == 0 {
                assert(parts.len() == 1);
            } else {
                assert(join(parts, sep) == word + sep + join(tail, sep));
            }
            if before.len() == 0 {
                assert(rest@ =~= word);
            } else {
                assert(rest@ =~= before + sep + word);
                assert(before + sep + (word + sep + join(tail, sep)) =~= before + sep + word + sep
                    + join(tail, sep));
            }
        }
        at = end;
    }
}

/// What `line` says.
pub fn parse_line(line: &str) -> (r: Line)
    ensures
        r@ == meaning(line@),
{
    let v = to_chars(line);
    assert(v@.skip(0) =~= v@);
    let (start, end) = next_word(&v, 0);
    if start == end || !is_keyword(&v, start, end) {
        return Line::Ignored;
    }
    let ghost tail = words(v@.skip(end as int));
    proof {
        let first = v@.subrange(start as int, end as int);
        assert(words(line@) == seq![first] + tail);
        assert(words(line@)[0] == first);
        assert(words(line@).drop_first() =~= tail);
    }
    let rest = joined_words(&v, end);
    let mut eq: usize = 0;
    while eq < rest.len() && rest[eq] != '='
        invariant
            eq <= rest.len(),
            forall|i: int| 0 <= i < eq ==> rest@[i] != '=',
        decreases rest.len() - eq,
    {
        eq += 1;
    }
    proof {
        lemma_until_is(rest@, '=', eq as int);
        lemma_meaning_of_payload(line@, rest@, eq as int);
    }
    if rest.len() - eq < 3 {
        return Line::Malformed;
    }
    let name = from_chars(&rest, 0, eq);
    let command = from_chars(&rest, eq + 2, rest.len() - 1);
    Line::Definition { name, command }
}

} // verus!
