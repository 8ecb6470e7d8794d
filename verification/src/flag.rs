//! The flaggable capability: destinations a flag can write into, and the
//! built-in destination shapes.

use vstd::prelude::*;
use crate::convert::FromFlagStr;

verus! {

/// A destination that a flag can write into. A destination reports whether a
/// following token is consumed as its value, and mutates itself from that
/// value's text.
pub trait Flaggable: Sized {
    /// Whether a token after the flag is consumed as its value.
    spec fn expects_value_spec(&self) -> bool;

    /// The destination's next value after seeing the text `s`, or `None` if
    /// the text cannot be converted.
    spec fn parse_from_spec(&self, s: Seq<char>) -> Option<Self>;

    /// Reports whether this destination consumes a following token.
    fn expects_value(&self) -> (b: bool)
        ensures
            b == self.expects_value_spec(),
    ;

    /// Interprets `s` and mutates the destination in place; on failure the
    /// prior value is left untouched and the offending text is returned.
    fn parse_from(&mut self, s: &str) -> (r: Result<(), String>)
        ensures
            match old(self).parse_from_spec(s@) {
                Some(v) => r is Ok && *final(self) == v,
                None => *final(self) == *old(self) && match r {
                    Result::Ok(_) => false,
                    Result::Err(m) => m@ == s@,
                },
            },
    ;
}

/// An optional destination: starts (or stays) empty until a flag's value
/// parses, and then holds that value.
impl<T: FromFlagStr> Flaggable for Option<T> {
    open spec fn expects_value_spec(&self) -> bool {
        true
    }

    open spec fn parse_from_spec(&self, s: Seq<char>) -> Option<Option<T>> {
        match T::from_flag_spec(s) {
            Some(v) => Some(Some(v)),
            None => None,
        }
    }

    fn expects_value(&self) -> (b: bool) {
        true
    }

    fn parse_from(&mut self, s: &str) -> (r: Result<(), String>) {
        match T::from_flag_str(s) {
            Some(v) => {
                *self = Some(v);
                Ok(())
            },
            None => Err(s.to_owned()),
        }
    }
}

/// A destination that always holds a value: it starts at a caller-chosen
/// default, and a successful parse overwrites it.
#[derive(Clone, Copy, Debug, PartialEq, Eq)]
pub struct Preset<T>(pub T);

impl<T> Preset<T> {
    /// Returns the held value.
    #[inline]
    pub fn into_inner(self) -> (r: T)
        ensures
            r == self.0,
    {
        self.0
    }
}

impl<T> From<T> for Preset<T> {
    fn from(t: T) -> (r: Preset<T>) {
        Preset(t)
    }
}

impl<T> vstd::std_specs::convert::FromSpecImpl<T> for Preset<T> {
    open spec fn obeys_from_spec() -> bool {
        true
    }

    open spec fn from_spec(t: T) -> Preset<T> {
        Preset(t)
    }
}

impl<T: FromFlagStr> Flaggable for Preset<T> {
    open spec fn expects_value_spec(&self) -> bool {
        true
    }

    open spec fn parse_from_spec(&self, s: Seq<char>) -> Option<Preset<T>> {
        match T::from_flag_spec(s) {
            Some(v) => Some(Preset(v)),
            None => None,
        }
    }

    fn expects_value(&self) -> (b: bool) {
        true
    }

    fn parse_from(&mut self, s: &str) -> (r: Result<(), String>) {
        match T::from_flag_str(s) {
            Some(v) => {
                self.0 = v;
                Ok(())
            },
            None => Err(s.to_owned()),
        }
    }
}

/// A toggle destination: a match flips the boolean and consumes no token;
/// the input text is ignored and the flip cannot fail.
impl Flaggable for bool {
    open spec fn expects_value_spec(&self) -> bool {
        false
    }

    open spec fn parse_from_spec(&self, s: Seq<char>) -> Option<bool> {
        Some(!*self)
    }

    fn expects_value(&self) -> (b: bool) {
        false
    }

    fn parse_from(&mut self, _s: &str) -> (r: Result<(), String>) {
        *self = !*self;
        Ok(())
    }
}

/// A ready-made destination covering the built-in shapes, so that one
/// registry can hold destinations of different underlying types.
#[derive(Clone, Copy, Debug, PartialEq, Eq)]
pub enum FlagValue {
    /// An optional boolean, filled by a parsed `true`/`false` value.
    OptBool(Option<bool>),
    /// An optional integer, filled by a parsed decimal value.
    OptInt(Option<i64>),
    /// An integer that starts at a default and is overwritten on a parse.
    PresetInt(Preset<i64>),
    /// A boolean flipped by each occurrence of its flag, consuming no value.
    Toggle(bool),
}

impl Flaggable for FlagValue {
    open spec fn expects_value_spec(&self) -> bool {
        !(self is Toggle)
    }

    open spec fn parse_from_spec(&self, s: Seq<char>) -> Option<FlagValue> {
        match *self {
            FlagValue::OptBool(o) => match o.parse_from_spec(s) {
                Some(v) => Some(FlagValue::OptBool(v)),
                None => None,
            },
            FlagValue::OptInt(o) => match o.parse_from_spec(s) {
                Some(v) => Some(FlagValue::OptInt(v)),
                None => None,
            },
            FlagValue::PresetInt(p) => match p.parse_from_spec(s) {
                Some(v) => Some(FlagValue::PresetInt(v)),
                None => None,
            },
            FlagValue::Toggle(t) => Some(FlagValue::Toggle(!t)),
        }
    }

    fn expects_value(&self) -> (b: bool) {
        match *self {
            FlagValue::Toggle(_) => false,
            _ => true,
        }
    }

    fn parse_from(&mut self, s: &str) -> (r: Result<(), String>) {
        match *self {
            FlagValue::OptBool(mut o) => {
                let r = o.parse_from(s);
                *self = FlagValue::OptBool(o);
                r
            },
            FlagValue::OptInt(mut o) => {
                let r = o.parse_from(s);
                *self = FlagValue::OptInt(o);
                r
            },
            FlagValue::PresetInt(mut p) => {
                let r = p.parse_from(s);
                *self = FlagValue::PresetInt(p);
                r
            },
            FlagValue::Toggle(t) => {
                *self = FlagValue::Toggle(!t);
                Ok(())
            },
        }
    }
}

} // verus!
