//! What holds of reading and writing alias files, whatever the aliases.

use vstd::prelude::*;
use vstd::utf8::{
    decode_utf8, encode_utf8, encode_utf8_decode_utf8, encode_utf8_valid_utf8, valid_utf8,
};
use crate::grammar::{
    decode, definition, encode, free_of, join, keyword, lemma_join_split, lemma_lines_feed,
    lemma_lines_single, split,
    lemma_until, lemma_until_is, lemma_word_len, lemma_words_space, lemma_words_word, lines,
    loaded, meaning, payload, quoted, render, taken, until, well_formed, word_len, words, Meaning,
};
use crate::table::{
    lemma_listing_lists, lemma_listing_unique, lemma_lists_drop_first, listing, lists,
};
use crate::text::whitespace;

verus! {

/// The only white space in `s` is single spaces: every white space
/// character is a space, and none follows another.
pub open spec fn spaced(s: Seq<char>) -> bool {
    forall|i: int|
        0 <= i < s.len() && whitespace(#[trigger] s[i]) ==> s[i] == ' ' && (i + 1 < s.len()
            ==> !whitespace(s[i + 1]))
}

/// `s` is spaced and neither starts nor ends with white space.
pub open spec fn tight(s: Seq<char>) -> bool {
    &&& spaced(s)
    &&& s.len() > 0 ==> !whitespace(s[0]) && !whitespace(s.last())
}

/// A definition of `name` as `command` is read back as it was written:
/// the only white space in either is single spaces, the name holds no `=`,
/// and the name does not start with a space. An `=` or a quote in the
/// command does no harm.
pub open spec fn survives(name: Seq<char>, command: Seq<char>) -> bool {
    &&& spaced(name)
    &&& spaced(command)
    &&& free_of(name, '=')
    &&& name.len() > 0 ==> name[0] != ' '
}

/// Every pair of `m` survives.
pub open spec fn all_survive(m: Map<Seq<char>, Seq<char>>) -> bool {
    forall|k: Seq<char>| #[trigger] m.contains_key(k) ==> survives(k, m[k])
}

/// The line that defines `name` as `command`, without its line feed.
pub open spec fn entry(name: Seq<char>, command: Seq<char>) -> Seq<char> {
    keyword() + seq![' '] + name + seq!['=', '"'] + command + seq!['"']
}

/// `w` can be a word: it is not empty and holds no white space.
pub open spec fn wordlike(w: Seq<char>) -> bool {
    &&& w.len() > 0
    &&& forall|j: int| 0 <= j < w.len() ==> !whitespace(#[trigger] w[j])
}

/// A part of a spaced text is spaced.
pub proof fn lemma_spaced_subrange(s: Seq<char>, from: int, to: int)
    requires
        spaced(s),
        0 <= from <= to <= s.len(),
    ensures
        spaced(s.subrange(from, to)),
{
    let t = s.subrange(from, to);
    assert forall|i: int| 0 <= i < t.len() && whitespace(#[trigger] t[i]) implies t[i] == ' ' && (
    i + 1 < t.len() ==> !whitespace(t[i + 1])) by {
        assert(t[i] == s[from + i]);
        if i + 1 < t.len() {
            assert(t[i + 1] == s[from + i + 1]);
        }
    }
}

/// Splitting a tight text into words and joining them by single spaces
/// gives the text back.
pub proof fn lemma_tight_is_joined_words(p: Seq<char>)
    requires
        tight(p),
    ensures
        join(words(p), seq![' ']) == p,
        p.len() > 0 ==> words(p).len() > 0,
    decreases p.len(),
{
    if p.len() > 0 {
        lemma_word_len(p);
        let n = word_len(p) as int;
        assert(n > 0);
        let w = p.take(n);
        let after = p.skip(n);
        if n == p.len() {
            assert(after.len() == 0);
            assert(words(after) =~= Seq::<Seq<char>>::empty());
            assert(w =~= p);
            assert(words(p) == seq![w] + words(after));
            assert(words(p) =~= seq![w]);
        } else {
            assert(whitespace(p[n]));
            assert(p[n] == ' ');
            assert(n + 1 < p.len()) by {
                if n + 1 == p.len() {
                    assert(p.last() == p[n]);
                }
            }
            let q = p.skip(n + 1);
            assert(after[0] == p[n]);
            assert(after.drop_first() =~= q);
            assert(words(after) == words(q));
            assert(tight(q)) by {
                lemma_spaced_subrange(p, n + 1, p.len() as int);
                assert(q =~= p.subrange(n + 1, p.len() as int));
                assert(q[0] == p[n + 1]);
                assert(q.last() == p.last());
            }
            lemma_tight_is_joined_words(q);
            let parts = seq![w] + words(q);
            assert(words(p) == parts);
            assert(parts[0] == w);
            assert(parts.drop_first() =~= words(q));
            assert(parts.len() > 1);
            assert(join(parts, seq![' ']) == w + seq![' '] + join(words(q), seq![' ']));
            assert(w + seq![' '] + q =~= p);
        }
    }
}

/// What follows `alias` in the definition of `name` as `command`.
pub open spec fn body(name: Seq<char>, command: Seq<char>) -> Seq<char> {
    name + seq!['=', '"'] + command + seq!['"']
}

/// The characters of a body, place by place.
proof fn lemma_body_index(name: Seq<char>, command: Seq<char>)
    ensures
        body(name, command).len() == name.len() + command.len() + 3,
        forall|i: int|
            0 <= i < body(name, command).len() ==> #[trigger] body(name, command)[i] == (if i
                < name.len() {
                name[i]
            } else if i == name.len() {
                '='
            } else if i == name.len() + 1 {
                '"'
            } else if i < name.len() + 2 + command.len() {
                command[i - name.len() - 2]
            } else {
                '"'
            }),
{
}

/// The body of a definition that survives is tight and holds no line feed.
proof fn lemma_body_tight(name: Seq<char>, command: Seq<char>)
    requires
        survives(name, command),
    ensures
        tight(body(name, command)),
        free_of(body(name, command), '\n'),
{
    let p = body(name, command);
    let a = name.len() as int;
    let b = command.len() as int;
    lemma_body_index(name, command);
    assert forall|i: int| 0 <= i < p.len() && whitespace(#[trigger] p[i]) implies p[i] == ' ' && (
    i + 1 < p.len() ==> !whitespace(p[i + 1])) by {
        if i < a {
            assert(whitespace(name[i]));
            if i + 1 < a {
                assert(p[i + 1] == name[i + 1]);
            } else {
                assert(p[i + 1] == '=');
            }
        } else if a + 2 <= i < a + 2 + b {
            assert(whitespace(command[i - a - 2]));
            if i + 1 < a + 2 + b {
                assert(p[i + 1] == command[i + 1 - a - 2]);
            } else {
                assert(p[i + 1] == '"');
            }
        }
    }
    if a > 0 {
        assert(p[0] == name[0]);
        if whitespace(name[0]) {
            assert(name[0] == ' ');
        }
    } else {
        assert(p[0] == '=');
    }
    assert(p.last() == p[a + b + 2]);
    assert forall|i: int| 0 <= i < p.len() implies p[i] != '\n' by {
        if p[i] == '\n' {
            assert(whitespace(p[i]));
        }
    }
}

/// The first word of a definition is `alias`, and the words after it are
/// those of its body.
proof fn lemma_entry_words(name: Seq<char>, command: Seq<char>)
    ensures
        words(entry(name, command)) == seq![keyword()] + words(body(name, command)),
        entry(name, command) == keyword() + seq![' '] + body(name, command),
{
    let p = body(name, command);
    let l = entry(name, command);
    assert(l =~= keyword() + seq![' '] + p);
    assert(l.len() == p.len() + 6);
    assert(l.skip(0) =~= l);
    assert(l.subrange(0, 5) =~= keyword());
    assert(l[5] == ' ');
    assert forall|k: int| 0 <= k < 5 implies !whitespace(l[k]) by {
        assert(l[k] == keyword()[k]);
    }
    lemma_words_word(l, 0, 5);
    lemma_words_space(l, 5);
    assert(l.skip(6) =~= p);
}

/// A definition that survives is read as what it was written from.
pub proof fn lemma_entry_meaning(name: Seq<char>, command: Seq<char>)
    requires
        survives(name, command),
    ensures
        meaning(entry(name, command)) == (Meaning::Definition { name, command }),
        free_of(entry(name, command), '\n'),
{
    let p = body(name, command);
    let l = entry(name, command);
    let a = name.len() as int;
    lemma_body_tight(name, command);
    lemma_tight_is_joined_words(p);
    lemma_entry_words(name, command);
    let ws = words(l);
    assert(ws[0] == keyword());
    assert(ws.drop_first() =~= words(p));
    assert(payload(l) == p);
    lemma_body_index(name, command);
    assert(p[a] == '=');
    assert forall|i: int| 0 <= i < a implies p[i] != '=' by {
        assert(p[i] == name[i]);
    }
    lemma_until_is(p, '=', a);
    let q = quoted(p);
    assert(q =~= seq!['"'] + command + seq!['"']);
    assert(q.subrange(1, q.len() - 1) =~= command);
    assert(p.take(a) =~= name);
    assert forall|i: int| 0 <= i < l.len() implies l[i] != '\n' by {
        if i < 5 {
            assert(l[i] == keyword()[i]);
        } else if i > 5 {
            assert(l[i] == p[i - 6]);
        }
    }
}

/// The words of a line hold no white space and are not empty.
pub proof fn lemma_words_are_words(s: Seq<char>)
    ensures
        forall|i: int| 0 <= i < words(s).len() ==> wordlike(#[trigger] words(s)[i]),
    decreases s.len(),
{
    if s.len() == 0 {
        assert(words(s).len() == 0);
    } else if whitespace(s[0]) {
        lemma_words_are_words(s.drop_first());
        assert(words(s) == words(s.drop_first()));
    } else {
        lemma_word_len(s);
        let n = word_len(s) as int;
        let w = s.take(n);
        let tail = words(s.skip(n));
        lemma_words_are_words(s.skip(n));
        assert(words(s) == seq![w] + tail);
        assert(n > 0);
        assert(wordlike(w)) by {
            assert forall|j: int| 0 <= j < w.len() implies !whitespace(#[trigger] w[j]) by {
                assert(w[j] == s[j]);
            }
        }
        assert forall|i: int| 0 <= i < words(s).len() implies wordlike(#[trigger] words(s)[i]) by {
            if i == 0 {
                assert(words(s)[0] == w);
            } else {
                assert(words(s)[i] == tail[i - 1]);
            }
        }
    }
}

/// Words joined by single spaces make a tight text.
pub proof fn lemma_joined_is_tight(parts: Seq<Seq<char>>)
    requires
        forall|i: int| 0 <= i < parts.len() ==> wordlike(#[trigger] parts[i]),
    ensures
        tight(join(parts, seq![' '])),
        parts.len() > 0 ==> join(parts, seq![' ']).len() > 0,
    decreases parts.len(),
{
    let sep = seq![' '];
    if parts.len() == 0 {
    } else if parts.len() == 1 {
        let w = parts[0];
        assert(wordlike(w));
    } else {
        let w = parts[0];
        assert(wordlike(w));
        let rest = parts.drop_first();
        assert forall|i: int| 0 <= i < rest.len() implies wordlike(#[trigger] rest[i]) by {
            assert(rest[i] == parts[i + 1]);
        }
        lemma_joined_is_tight(rest);
        let t = join(rest, sep);
        let out = w + sep + t;
        let a = w.len() as int;
        assert(join(parts, sep) == out);
        assert forall|i: int| 0 <= i < out.len() implies #[trigger] out[i] == (if i < a {
            w[i]
        } else if i == a {
            ' '
        } else {
            t[i - a - 1]
        }) by {}
        assert forall|i: int| 0 <= i < out.len() && whitespace(#[trigger] out[i]) implies out[i]
            == ' ' && (i + 1 < out.len() ==> !whitespace(out[i + 1])) by {
            if i < a {
                assert(!whitespace(w[i]));
            } else if i == a {
                assert(out[i + 1] == t[0]);
            } else {
                assert(whitespace(t[i - a - 1]));
                if i + 1 < out.len() {
                    assert(out[i + 1] == t[i - a]);
                }
            }
        }
        assert(out[0] == w[0]);
        assert(out.last() == t.last());
    }
}

/// What a line defines survives.
pub proof fn lemma_meaning_survives(line: Seq<char>)
    ensures
        meaning(line) matches Meaning::Definition { name, command } ==> survives(name, command),
{
    if let Meaning::Definition { name, command } = meaning(line) {
        let parts = words(line).drop_first();
        lemma_words_are_words(line);
        assert forall|i: int| 0 <= i < parts.len() implies wordlike(#[trigger] parts[i]) by {
            assert(parts[i] == words(line)[i + 1]);
        }
        lemma_joined_is_tight(parts);
        let rest = payload(line);
        lemma_until(rest, '=');
        let eq = until(rest, '=') as int;
        let q = quoted(rest);
        assert(name =~= rest.subrange(0, eq));
        assert(command =~= rest.subrange(eq + 2, rest.len() - 1));
        lemma_spaced_subrange(rest, 0, eq);
        lemma_spaced_subrange(rest, eq + 2, rest.len() - 1);
        if name.len() > 0 {
            assert(name[0] == rest[0]);
        }
        assert forall|i: int| 0 <= i < name.len() implies name[i] != '=' by {
            assert(name[i] == rest[i]);
        }
    }
}

/// The map `m` after each pair of `es` has been put into it, in order.
pub open spec fn put_all(m: Map<Seq<char>, Seq<char>>, es: Seq<(Seq<char>, Seq<char>)>) -> Map<
    Seq<char>,
    Seq<char>,
>
    decreases es.len(),
{
    if es.len() == 0 {
        m
    } else {
        put_all(m.insert(es[0].0, es[0].1), es.drop_first())
    }
}

/// Putting a listing of `m` into another map lays `m` over it.
pub proof fn lemma_put_all_listing(
    base: Map<Seq<char>, Seq<char>>,
    es: Seq<(Seq<char>, Seq<char>)>,
    m: Map<Seq<char>, Seq<char>>,
)
    requires
        lists(es, m),
    ensures
        put_all(base, es) == base.union_prefer_right(m),
    decreases es.len(),
{
    if es.len() == 0 {
        assert forall|k: Seq<char>| !m.contains_key(k) by {
            if m.contains_key(k) {
                assert(crate::table::names(es, k));
            }
        }
        assert(base.union_prefer_right(m) =~= base);
    } else {
        let k = es[0].0;
        let v = es[0].1;
        assert(m.contains_pair(k, v));
        lemma_lists_drop_first(es, m);
        lemma_put_all_listing(base.insert(k, v), es.drop_first(), m.remove(k));
        assert(base.insert(k, v).union_prefer_right(m.remove(k)) =~= base.union_prefer_right(m));
    }
}

/// Reading starts with the first line.
pub proof fn lemma_loaded_first(m: Map<Seq<char>, Seq<char>>, l: Seq<char>, ls: Seq<Seq<char>>)
    ensures
        loaded(m, seq![l] + ls) == (if meaning(l) is Malformed {
            m
        } else {
            loaded(taken(m, meaning(l)), ls)
        }),
        well_formed(seq![l] + ls) <==> !(meaning(l) is Malformed) && well_formed(ls),
{
    let all = seq![l] + ls;
    assert(all[0] == l);
    assert(all.drop_first() =~= ls);
    if well_formed(all) {
        assert(!(meaning(all[0]) is Malformed));
        assert forall|i: int| 0 <= i < ls.len() implies !(#[trigger] meaning(ls[i])
            is Malformed) by {
            assert(ls[i] == all[i + 1]);
        }
    }
    if !(meaning(l) is Malformed) && well_formed(ls) {
        assert forall|i: int| 0 <= i < all.len() implies !(#[trigger] meaning(all[i])
            is Malformed) by {
            if i > 0 {
                assert(all[i] == ls[i - 1]);
            }
        }
    }
}

/// The text written from rows that survive is read as those rows, put in
/// order.
pub proof fn lemma_read_rendered(base: Map<Seq<char>, Seq<char>>, es: Seq<(Seq<char>, Seq<char>)>)
    requires
        forall|i: int| 0 <= i < es.len() ==> survives((#[trigger] es[i]).0, es[i].1),
    ensures
        well_formed(lines(render(es))),
        loaded(base, lines(render(es))) == put_all(base, es),
    decreases es.len(),
{
    if es.len() == 0 {
        let none = Seq::<char>::empty();
        lemma_lines_single(none);
        assert(lines(none) == seq![none]);
        assert(words(none).len() == 0);
        assert(meaning(none) is Ignored);
        assert(seq![none] =~= seq![none] + Seq::<Seq<char>>::empty());
        lemma_loaded_first(base, none, Seq::<Seq<char>>::empty());
    } else {
        let name = es[0].0;
        let command = es[0].1;
        let rest = es.drop_first();
        assert(survives(es[0].0, es[0].1));
        lemma_entry_meaning(name, command);
        let line = entry(name, command);
        assert(definition(name, command) =~= line + seq!['\n']);
        assert(render(es) =~= line + seq!['\n'] + render(rest));
        lemma_lines_feed(line, render(rest));
        assert forall|i: int| 0 <= i < rest.len() implies survives(
            (#[trigger] rest[i]).0,
            rest[i].1,
        ) by {
            assert(rest[i] == es[i + 1]);
        }
        lemma_read_rendered(base.insert(name, command), rest);
        lemma_loaded_first(base, line, lines(render(rest)));
    }
}

/// Aliases that are written and read again are the same aliases, where each
/// of them survives.
pub proof fn law_round_trip(m: Map<Seq<char>, Seq<char>>)
    requires
        m.dom().finite(),
        all_survive(m),
    ensures
        decode(encode(m)) == Some(m),
{
    lemma_listing_lists(m);
    let es = listing(m);
    assert forall|i: int| 0 <= i < es.len() implies survives((#[trigger] es[i]).0, es[i].1) by {
        assert(m.contains_pair(es[i].0, es[i].1));
        assert(m.contains_key(es[i].0));
    }
    lemma_read_rendered(Map::empty(), es);
    lemma_put_all_listing(Map::empty(), es, m);
    assert(Map::<Seq<char>, Seq<char>>::empty().union_prefer_right(m) =~= m);
}

/// The bytes written for aliases that survive are UTF-8, and read back
/// they give the same aliases.
pub proof fn law_bytes_round_trip(m: Map<Seq<char>, Seq<char>>)
    requires
        m.dom().finite(),
        all_survive(m),
    ensures
        valid_utf8(encode_utf8(encode(m))),
        well_formed(lines(decode_utf8(encode_utf8(encode(m))))),
        loaded(Map::empty(), lines(decode_utf8(encode_utf8(encode(m))))) == m,
{
    law_round_trip(m);
    encode_utf8_valid_utf8(encode(m));
    encode_utf8_decode_utf8(encode(m));
}

/// An empty text defines no aliases, and no aliases are written as an
/// empty text.
pub proof fn law_nothing_is_nothing()
    ensures
        decode(Seq::empty()) == Some(Map::<Seq<char>, Seq<char>>::empty()),
        encode(Map::empty()) == Seq::<char>::empty(),
{
    let none = Seq::<(Seq<char>, Seq<char>)>::empty();
    let nothing = Map::<Seq<char>, Seq<char>>::empty();
    lemma_read_rendered(nothing, none);
    assert(lists(none, nothing));
    lemma_listing_unique(none, listing(nothing), nothing);
}

/// Reading keeps a map finite and adds only pairs that survive.
pub proof fn lemma_loaded_survives(m: Map<Seq<char>, Seq<char>>, ls: Seq<Seq<char>>)
    requires
        m.dom().finite(),
        all_survive(m),
    ensures
        loaded(m, ls).dom().finite(),
        all_survive(loaded(m, ls)),
    decreases ls.len(),
{
    if ls.len() > 0 && !(meaning(ls[0]) is Malformed) {
        lemma_meaning_survives(ls[0]);
        let next = taken(m, meaning(ls[0]));
        assert(all_survive(next)) by {
            assert forall|k: Seq<char>| #[trigger] next.contains_key(k) implies survives(
                k,
                next[k],
            ) by {
                if !m.contains_key(k) || next[k] != m[k] {
                    assert(meaning(ls[0]) is Definition);
                }
            }
        }
        lemma_loaded_survives(next, ls.drop_first());
    }
}

/// Only aliases that survive are read back as they were written.
pub proof fn law_round_trip_needs_survival(m: Map<Seq<char>, Seq<char>>)
    requires
        decode(encode(m)) == Some(m),
    ensures
        all_survive(m),
{
    lemma_loaded_survives(Map::empty(), lines(encode(m)));
}

/// What was read from a text, written and read again, is what was read the
/// first time.
pub proof fn law_read_write_read(text: Seq<char>)
    requires
        decode(text) is Some,
    ensures
        decode(encode(decode(text)->0)) == decode(text),
{
    lemma_loaded_survives(Map::empty(), lines(text));
    law_round_trip(decode(text)->0);
}

/// A line whose first word is not `alias` changes nothing, wherever it
/// stands and whatever it holds.
pub proof fn law_ignored_line(
    m: Map<Seq<char>, Seq<char>>,
    before: Seq<Seq<char>>,
    line: Seq<char>,
    after: Seq<Seq<char>>,
)
    requires
        meaning(line) is Ignored,
    ensures
        loaded(m, before + seq![line] + after) == loaded(m, before + after),
        well_formed(before + seq![line] + after) == well_formed(before + after),
    decreases before.len(),
{
    if before.len() == 0 {
        assert(before + seq![line] + after =~= seq![line] + after);
        assert(before + after =~= after);
        lemma_loaded_first(m, line, after);
    } else {
        let first = before[0];
        let rest = before.drop_first();
        assert(before + seq![line] + after =~= seq![first] + (rest + seq![line] + after));
        assert(before + after =~= seq![first] + (rest + after));
        lemma_loaded_first(m, first, rest + seq![line] + after);
        lemma_loaded_first(m, first, rest + after);
        law_ignored_line(taken(m, meaning(first)), rest, line, after);
    }
}

/// Splitting what follows `alias` at every `=`, taking the first part as
/// the name and joining the other parts by `=` again gives the name and
/// what is quoted.
pub proof fn law_split_and_rejoin(rest: Seq<char>)
    ensures
        split(rest, '=')[0] == rest.take(until(rest, '=') as int),
        join(split(rest, '=').drop_first(), seq!['=']) == quoted(rest),
{
    lemma_until(rest, '=');
    let n = until(rest, '=') as int;
    if n < rest.len() {
        let after = rest.skip(n + 1);
        lemma_join_split(after, '=');
        let parts = seq![rest.take(n)] + split(after, '=');
        assert(parts[0] == rest.take(n));
        assert(parts.drop_first() =~= split(after, '='));
    } else {
        assert(rest.take(n) =~= rest);
        assert(seq![rest].drop_first() =~= Seq::<Seq<char>>::empty());
    }
}

/// `line` defines `name`.
pub open spec fn defines(line: Seq<char>, name: Seq<char>) -> bool {
    meaning(line) matches Meaning::Definition { name: n, .. } && n == name
}

/// Lines that do not define `name` leave what it stands for as it was.
pub proof fn lemma_loaded_keeps(m: Map<Seq<char>, Seq<char>>, ls: Seq<Seq<char>>, name: Seq<char>)
    requires
        forall|j: int| 0 <= j < ls.len() ==> !defines(#[trigger] ls[j], name),
    ensures
        loaded(m, ls).contains_key(name) == m.contains_key(name),
        loaded(m, ls)[name] == m[name],
    decreases ls.len(),
{
    if ls.len() > 0 && !(meaning(ls[0]) is Malformed) {
        assert(!defines(ls[0], name));
        let rest = ls.drop_first();
        assert forall|j: int| 0 <= j < rest.len() implies !defines(#[trigger] rest[j], name) by {
            assert(rest[j] == ls[j + 1]);
        }
        lemma_loaded_keeps(taken(m, meaning(ls[0])), rest, name);
    }
}

/// Of the definitions of one name the last one that is read stays: where
/// reading reaches line `at`, which defines `name` as `command`, and no
/// later line defines `name`, `name` stands for `command` in the end.
pub proof fn law_last_definition_wins(
    m: Map<Seq<char>, Seq<char>>,
    ls: Seq<Seq<char>>,
    at: int,
    name: Seq<char>,
    command: Seq<char>,
)
    requires
        0 <= at < ls.len(),
        forall|j: int| 0 <= j < at ==> !(#[trigger] meaning(ls[j]) is Malformed),
        meaning(ls[at]) == (Meaning::Definition { name, command }),
        forall|j: int| at < j < ls.len() ==> !defines(#[trigger] ls[j], name),
    ensures
        loaded(m, ls).contains_key(name),
        loaded(m, ls)[name] == command,
    decreases at,
{
    let rest = ls.drop_first();
    if at == 0 {
        assert forall|j: int| 0 <= j < rest.len() implies !defines(#[trigger] rest[j], name) by {
            assert(rest[j] == ls[j + 1]);
        }
        lemma_loaded_keeps(m.insert(name, command), rest, name);
    } else {
        assert(!(meaning(ls[0]) is Malformed));
        assert forall|j: int| 0 <= j < at - 1 implies !(#[trigger] meaning(rest[j])
            is Malformed) by {
            assert(rest[j] == ls[j + 1]);
        }
        assert(rest[at - 1] == ls[at]);
        assert forall|j: int| at - 1 < j < rest.len() implies !defines(
            #[trigger] rest[j],
            name,
        ) by {
            assert(rest[j] == ls[j + 1]);
        }
        law_last_definition_wins(taken(m, meaning(ls[0])), rest, at - 1, name, command);
    }
}

} // verus!
