//! The client's connection settings.
use vstd::prelude::*;
use crate::command_args::CommandOption;

verus! {

/// A client of the board server, holding where it connects.
pub struct Client {
    option: CommandOption,
}

impl Client {
    /// A client that connects where `option` says.
    pub fn new(option: CommandOption) -> (c: Client)
        ensures
            c.option() == option,
    {
        Client { option }
    }

    /// Where the client connects.
    pub closed spec fn option(&self) -> CommandOption {
        self.option
    }

    /// Where the client connects.
    pub fn command_option(&self) -> (r: &CommandOption)
        ensures
            *r == self.option(),
    {
        &self.option
    }
}

} // verus!
