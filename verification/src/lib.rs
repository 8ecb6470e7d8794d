//! A command-line argument binder: string flags on a command line are bound
//! to typed destinations owned by a registry, and a single left-to-right pass
//! over the tokens writes each flag's value into its destination, returning
//! the unmatched tokens or a structured error.

pub mod strutil;

pub mod convert;

pub mod flag;

pub mod flagset;

pub mod laws;

pub use strutil::{bare_name, is_flag_token};
pub use convert::FromFlagStr;
pub use flag::{FlagValue, Flaggable, Preset};
pub use flagset::{FlagSet, ParseError, ParseErrorView, spec_parse};
