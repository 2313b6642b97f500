//! The aliases of one alias file, held in memory.

use std::path::PathBuf;
use vstd::prelude::*;
use crate::table::{
    lemma_listing_unique, lemma_lists_map_values, listing, lists, rows_of, Table,
};

verus! {

/// What rows of strings stand for: names and commands by their characters.
pub open spec fn pairs(rows: Seq<(String, String)>) -> Seq<(Seq<char>, Seq<char>)> {
    rows.map_values(|e: (String, String)| (e.0@, e.1@))
}

/// The aliases of the file at a given place: a map from names to commands.
pub struct AliasConfig {
    config_location: PathBuf,
    aliases: Table<String>,
}

impl View for AliasConfig {
    type V = Map<Seq<char>, Seq<char>>;

    closed spec fn view(&self) -> Map<Seq<char>, Seq<char>> {
        self.aliases@.map_values(|c: String| c@)
    }
}

impl AliasConfig {
    /// The place of the file that these aliases belong to.
    pub closed spec fn location(&self) -> PathBuf {
        self.config_location
    }

    /// No aliases, for the file at `config_location`.
    pub fn new(config_location: PathBuf) -> (config: AliasConfig)
        ensures
            config@ == Map::<Seq<char>, Seq<char>>::empty(),
            config.location() == config_location,
    {
        let config = AliasConfig { config_location, aliases: Table::new() };
        assert(config@ =~= Map::<Seq<char>, Seq<char>>::empty());
        config
    }

    /// The place of the file that these aliases belong to.
    pub fn config_location(&self) -> (path: &PathBuf)
        ensures
            *path == self.location(),
    {
        &self.config_location
    }

    /// Makes `alias` stand for `command`, whatever it stood for before.
    pub fn add_alias(&mut self, alias: String, command: String)
        ensures
            final(self)@ == old(self)@.insert(alias@, command@),
            final(self).location() == old(self).location(),
    {
        self.aliases.insert(alias, command);
        assert(self@ =~= old(self)@.insert(alias@, command@));
    }

    /// Takes `alias` out and returns the command that it stood for. Where it
    /// stood for none, nothing changes.
    pub fn remove_alias(&mut self, alias: String) -> (command: Option<String>)
        ensures
            final(self)@ == old(self)@.remove(alias@),
            !old(self)@.contains_key(alias@) ==> final(self)@ == old(self)@,
            final(self).location() == old(self).location(),
            command is Some <==> old(self)@.contains_key(alias@),
            command matches Some(c) ==> c@ == old(self)@[alias@],
    {
        let command = self.aliases.remove(alias.as_str());
        proof {
            assert(self@ =~= old(self)@.remove(alias@));
            if !old(self)@.contains_key(alias@) {
                assert(old(self)@.remove(alias@) =~= old(self)@);
            }
        }
        command
    }

    /// The command that `alias` stands for, if it stands for any.
    pub fn get(&self, alias: &str) -> (command: Option<&String>)
        ensures
            command is Some <==> self@.contains_key(alias@),
            command matches Some(c) ==> c@ == self@[alias@],
    {
        self.aliases.get(alias)
    }

    /// The number of aliases.
    pub fn len(&self) -> (n: usize)
        ensures
            self@.dom().finite(),
            n == self@.dom().len(),
    {
        assert(self@.dom() =~= self.aliases@.dom());
        self.aliases.len()
    }

    /// All aliases with their commands, in ascending order of names.
    pub fn all(&self) -> (rows: &Vec<(String, String)>)
        ensures
            lists(pairs(rows@), self@),
            pairs(rows@) == listing(self@),
    {
        let rows = self.aliases.rows();
        proof {
            let f = |c: String| c@;
            lemma_lists_map_values(rows_of(rows@), self.aliases@, f);
            assert(rows_of(rows@).map_values(|e: (Seq<char>, String)| (e.0, f(e.1))) =~= pairs(
                rows@,
            ));
            lemma_listing_unique(pairs(rows@), listing(self@), self@);
        }
        rows
    }
}

} // verus!
