//! Aliases from the bytes of an alias file, and back to bytes.

use vstd::prelude::*;
use vstd::utf8::{decode_utf8, encode_utf8, encode_utf8_decode_utf8, valid_utf8};
use crate::config::{pairs, AliasConfig};
use crate::error::AliasError;
use crate::grammar::{
    definition, encode, keyword, lines, loaded, meaning, render, taken, well_formed,
};
use crate::parse::{parse_line, split_lines, texts, Line};

verus! {

impl AliasConfig {
    /// Takes in what `line` says.
    fn take_in(&mut self, line: Line) -> (r: Result<(), AliasError>)
        ensures
            final(self).location() == old(self).location(),
            final(self)@ == taken(old(self)@, line@),
            line@ is Malformed <==> r is Err,
            r is Err ==> r == Err::<(), AliasError>(AliasError::MalformedLine),
    {
        match line {
            Line::Ignored => Ok(()),
            Line::Malformed => Err(AliasError::MalformedLine),
            Line::Definition { name, command } => {
                self.add_alias(name, command);
                Ok(())
            },
        }
    }

    /// Reads one line of an alias file. A line that defines an alias makes
    /// its name stand for its command; a malformed line is refused; any other
    /// line changes nothing.
    pub fn handle_line(&mut self, line: String) -> (r: Result<(), AliasError>)
        ensures
            final(self).location() == old(self).location(),
            final(self)@ == taken(old(self)@, meaning(line@)),
            r is Ok <==> !(meaning(line@) is Malformed),
            r is Err ==> r == Err::<(), AliasError>(AliasError::MalformedLine),
    {
        let parsed = parse_line(line.as_str());
        self.take_in(parsed)
    }

    /// Reads the bytes of an alias file, line by line, on top of the aliases
    /// already held. Bytes that are not UTF-8 are refused and change
    /// nothing. Reading stops at the first malformed line, which is refused;
    /// what the lines before it define stays.
    pub fn load_from_reader(&mut self, reader: &[u8]) -> (r: Result<(), AliasError>)
        ensures
            final(self).location() == old(self).location(),
            !valid_utf8(reader@) ==> r == Err::<(), AliasError>(AliasError::InvalidEncoding)
                && final(self)@ == old(self)@,
            valid_utf8(reader@) ==> final(self)@ == loaded(
                old(self)@,
                lines(decode_utf8(reader@)),
            ),
            valid_utf8(reader@) && !well_formed(lines(decode_utf8(reader@))) ==> r == Err::<
                (),
                AliasError,
            >(AliasError::MalformedLine),
            r is Ok <==> valid_utf8(reader@) && well_formed(lines(decode_utf8(reader@))),
    {
        let text = match core::str::from_utf8(reader) {
            Ok(text) => text,
            Err(_) => {
                return Err(AliasError::InvalidEncoding);
            },
        };
        proof {
            encode_utf8_decode_utf8(text@);
        }
        self.load_text(text)
    }

    /// Reads the text of an alias file, line by line, on top of the aliases
    /// already held. Reading stops at the first malformed line, which is
    /// refused; what the lines before it define stays.
    pub fn load_text(&mut self, text: &str) -> (r: Result<(), AliasError>)
        ensures
            final(self).location() == old(self).location(),
            final(self)@ == loaded(old(self)@, lines(text@)),
            r is Ok <==> well_formed(lines(text@)),
            r is Err ==> r == Err::<(), AliasError>(AliasError::MalformedLine),
    {
        let all = split_lines(text);
        let ghost ls = lines(text@);
        let mut i: usize = 0;
        assert(ls.skip(0) =~= ls);
        while i < all.len()
            invariant
                i <= all.len(),
                ls == texts(all@),
                ls == lines(text@),
                self.location() == old(self).location(),
                loaded(old(self)@, ls) == loaded(self@, ls.skip(i as int)),
                forall|j: int| 0 <= j < i ==> !(#[trigger] meaning(ls[j]) is Malformed),
            decreases all.len() - i,
        {
            let ghost rest = ls.skip(i as int);
            assert(rest[0] == ls[i as int] && ls[i as int] == all@[i as int]@);
            assert(rest.drop_first() =~= ls.skip(i + 1));
            let parsed = parse_line(all[i].as_str());
            match self.take_in(parsed) {
                Ok(()) => {},
                Err(e) => {
                    assert(meaning(ls[i as int]) is Malformed);
                    return Err(e);
                },
            }
            i += 1;
        }
        Ok(())
    }

    /// The text of the alias file that holds these aliases: one definition
    /// for each name, in ascending order of names.
    pub fn to_text(&self) -> (text: String)
        ensures
            text@ == encode(self@),
    {
        let rows = self.all();
        let ghost es = pairs(rows@);
        let mut text = String::new();
        let mut i: usize = 0;
        assert(es.skip(0) =~= es);
        while i < rows.len()
            invariant
                i <= rows.len(),
                es == pairs(rows@),
                encode(self@) == text@ + render(es.skip(i as int)),
            decreases rows.len() - i,
        {
            let ghost before = text@;
            let ghost rest = es.skip(i as int);
            assert(rest[0] == es[i as int]);
            assert(es[i as int] == (rows@[i as int].0@, rows@[i as int].1@));
            assert(rest.drop_first() =~= es.skip(i + 1));
            text.append("alias ");
            text.append(rows[i].0.as_str());
            text.append("=\"");
            text.append(rows[i].1.as_str());
            text.append("\"\n");
            proof {
                reveal_strlit("alias ");
                reveal_strlit("=\"");
                reveal_strlit("\"\n");
                assert("alias "@ =~= keyword() + seq![' ']);
                assert("=\""@ =~= seq!['=', '"']);
                assert("\"\n"@ =~= seq!['"', '\n']);
                let d = definition(es[i as int].0, es[i as int].1);
                assert(text@ =~= before + d);
                assert(before + (d + render(es.skip(i + 1))) =~= before + d + render(
                    es.skip(i + 1),
                ));
            }
            i += 1;
        }
        assert(text@ + Seq::<char>::empty() =~= text@);
        text
    }

    /// Writes the text of the alias file that holds these aliases to the end
    /// of `writer`, as UTF-8.
    pub fn dump_aliases_to_writer(&self, writer: &mut Vec<u8>)
        ensures
            final(writer)@ == old(writer)@ + encode_utf8(encode(self@)),
    {
        let text = self.to_text();
        writer.extend_from_slice(text.as_str().as_bytes());
    }
}

} // verus!
