//! The interactive player's record. Prompting a person for keeps and
//! categories is input handling and lives with the program around the
//! library; only the name is kept here.

use vstd::prelude::*;

verus! {

/// An interactive participant, known to the engine only by name.
pub struct Human {
    name: String,
}

impl Human {
    /// The player's display name, abstractly.
    pub closed spec fn spec_name(self) -> Seq<char> {
        self.name@
    }

    /// A named interactive player.
    pub fn new(name: &str) -> (r: Human)
        ensures
            r.spec_name() == name@,
    {
        Human { name: <String as vstd::string::StringExecFns>::from_str(name) }
    }

    /// The player's display name.
    pub fn player_name(&self) -> (r: &str)
        ensures
            r@ == self.spec_name(),
    {
        self.name.as_str()
    }
}

} // verus!
