//! Applications that a command line can start by name.

use vstd::prelude::*;

verus! {

/// An application that is started from its configuration.
pub trait FunctionApplication: Sized {
    /// The name of the subcommand that starts the application.
    const APP_NAME: &'static str;

    /// What the command line's help says of the application.
    const DESCRIPTION: &'static str;

    /// What the runtime hands to an application that it starts.
    type Context;

    /// Starts the application on the runtime behind `context`.
    fn spawn(self, context: Self::Context);
}

} // verus!
