//! The alias table: which command an alias stands for.

use super::parser::{CommandExpr, CommandView};
use vstd::hash_map::StringHashMap;
use vstd::prelude::*;
use vstd::string::StringExecFns;

verus! {

/// The aliases of a session: name to command. There are finitely many.
pub struct AliasTable {
    commands: StringHashMap<CommandExpr>,
}

impl View for AliasTable {
    type V = Map<Seq<char>, CommandView>;

    closed spec fn view(&self) -> Map<Seq<char>, CommandView> {
        self.commands@.map_values(|command: CommandExpr| command@)
    }
}

impl Default for AliasTable {
    /// The empty table.
    fn default() -> (table: Self)
        ensures
            table@ == Map::<Seq<char>, CommandView>::empty(),
    {
        AliasTable::new()
    }
}

impl AliasTable {
    #[verifier::type_invariant]
    spec fn inv(self) -> bool {
        self.commands@.dom().finite()
    }

    /// The empty table.
    pub fn new() -> (table: Self)
        ensures
            table@ == Map::<Seq<char>, CommandView>::empty(),
            table@.dom().finite(),
    {
        let table = AliasTable { commands: StringHashMap::new() };
        assert(table@ =~= Map::<Seq<char>, CommandView>::empty());
        table
    }

    /// The command that an alias stands for.
    pub fn get(&self, name: &str) -> (found: Option<&CommandExpr>)
        ensures
            self@.dom().finite(),
            match found {
                Some(command) => self@.contains_key(name@) && command@ == self@[name@],
                None => !self@.contains_key(name@),
            },
    {
        proof {
            use_type_invariant(self);
            assert(self@.dom() =~= self.commands@.dom());
        }
        self.commands.get(name)
    }

    /// Binds an alias to a command, in place of what it was bound to.
    pub fn insert(&mut self, name: &str, command: CommandExpr)
        ensures
            final(self)@ == old(self)@.insert(name@, command@),
            final(self)@.dom().finite(),
    {
        proof {
            use_type_invariant(&*self);
        }
        let mut commands: StringHashMap<CommandExpr> = StringHashMap::new();
        core::mem::swap(&mut self.commands, &mut commands);
        commands.insert(String::from_str(name), command);
        core::mem::swap(&mut self.commands, &mut commands);
        assert(self@ =~= old(self)@.insert(name@, command@));
        assert(self@.dom() =~= self.commands@.dom());
    }
}

} // verus!
