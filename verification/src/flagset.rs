//! The flag registry: named bindings to flaggable destinations, and the
//! left-to-right tokenizing parse over an argument sequence.

use vstd::prelude::*;
use crate::flag::Flaggable;
use crate::strutil::{bare_name, is_flag_token, strip_marker, str_eq, token_is_flag};

verus! {

/// The bindings of a registry as a map, built from parallel sequences of
/// names and values; a later entry for a repeated name shadows the earlier.
pub open spec fn map_of<V>(keys: Seq<Seq<char>>, vals: Seq<V>) -> Map<Seq<char>, V>
    decreases keys.len(),
{
    if keys.len() == 0 || vals.len() == 0 {
        Map::empty()
    } else {
        map_of(keys.drop_last(), vals.drop_last()).insert(keys.last(), vals.last())
    }
}

/// No name occurs twice.
pub open spec fn distinct_names(keys: Seq<Seq<char>>) -> bool {
    forall|i: int, j: int| 0 <= i < j < keys.len() ==> keys[i] != keys[j]
}

proof fn lemma_map_of_dom<V>(keys: Seq<Seq<char>>, vals: Seq<V>)
    requires
        keys.len() == vals.len(),
    ensures
        forall|k: Seq<char>| #[trigger] map_of(keys, vals).contains_key(k)
            <==> exists|i: int| 0 <= i < keys.len() && keys[i] == k,
    decreases keys.len(),
{
    if keys.len() > 0 {
        lemma_map_of_dom(keys.drop_last(), vals.drop_last());
        assert forall|k: Seq<char>| #[trigger] map_of(keys, vals).contains_key(k)
            implies exists|i: int| 0 <= i < keys.len() && keys[i] == k by {
            if k == keys.last() {
                assert(0 <= keys.len() - 1 < keys.len() && keys[keys.len() - 1] == k);
            } else {
                assert(map_of(keys.drop_last(), vals.drop_last()).contains_key(k));
                let i = choose|i: int| 0 <= i < keys.drop_last().len() && keys.drop_last()[i] == k;
                assert(0 <= i < keys.len() && keys[i] == k);
            }
        }
        assert forall|k: Seq<char>| (exists|i: int| 0 <= i < keys.len() && keys[i] == k)
            implies #[trigger] map_of(keys, vals).contains_key(k) by {
            let i = choose|i: int| 0 <= i < keys.len() && keys[i] == k;
            if i < keys.len() - 1 {
                assert(keys.drop_last()[i] == k);
                assert(map_of(keys.drop_last(), vals.drop_last()).contains_key(k));
            }
        }
    }
}

proof fn lemma_map_of_index<V>(keys: Seq<Seq<char>>, vals: Seq<V>, i: int)
    requires
        keys.len() == vals.len(),
        distinct_names(keys),
        0 <= i < keys.len(),
    ensures
        map_of(keys, vals).contains_key(keys[i]),
        map_of(keys, vals)[keys[i]] == vals[i],
    decreases keys.len(),
{
    if i == keys.len() - 1 {
    } else {
        lemma_map_of_index(keys.drop_last(), vals.drop_last(), i);
        assert(keys[i] != keys.last());
    }
}

proof fn lemma_map_of_update<V>(keys: Seq<Seq<char>>, vals: Seq<V>, i: int, v: V)
    requires
        keys.len() == vals.len(),
        distinct_names(keys),
        0 <= i < keys.len(),
    ensures
        map_of(keys, vals.update(i, v)) == map_of(keys, vals).insert(keys[i], v),
    decreases keys.len(),
{
    if i == keys.len() - 1 {
        assert(vals.update(i, v).drop_last() =~= vals.drop_last());
        assert(vals.update(i, v).last() == v);
        assert(map_of(keys, vals.update(i, v))
            == map_of(keys.drop_last(), vals.drop_last()).insert(keys.last(), v));
        assert(map_of(keys, vals).insert(keys[i], v)
            =~= map_of(keys.drop_last(), vals.drop_last()).insert(keys.last(), v));
    } else {
        lemma_map_of_update(keys.drop_last(), vals.drop_last(), i, v);
        assert(vals.update(i, v).drop_last() =~= vals.drop_last().update(i, v));
        assert(vals.update(i, v).last() == vals.last());
        assert(keys[i] != keys.last());
        assert(map_of(keys, vals.update(i, v))
            == map_of(keys.drop_last(), vals.drop_last()).insert(keys[i], v).insert(
            keys.last(),
            vals.last(),
        ));
        assert(map_of(keys, vals).insert(keys[i], v)
            =~= map_of(keys.drop_last(), vals.drop_last()).insert(keys[i], v).insert(
            keys.last(),
            vals.last(),
        ));
    }
}

proof fn lemma_map_of_push<V>(keys: Seq<Seq<char>>, vals: Seq<V>, k: Seq<char>, v: V)
    requires
        keys.len() == vals.len(),
    ensures
        map_of(keys.push(k), vals.push(v)) == map_of(keys, vals).insert(k, v),
{
    assert(keys.push(k).drop_last() =~= keys);
    assert(vals.push(v).drop_last() =~= vals);
    assert(keys.push(k).last() == k);
    assert(vals.push(v).last() == v);
}

/// The model of a parse error, over character sequences.
pub enum ParseErrorView {
    /// A value token could not be converted; carries the flag name and the
    /// offending text.
    ParseFromFailure(Seq<char>, Seq<char>),
    /// A flag expected a value but the input ended; carries the flag name.
    MissingValue(Seq<char>),
    /// The reserved help name was encountered.
    HelpRequested,
    /// A bare name with no binding that is not the reserved help name.
    UnknownFlag(Seq<char>),
}

/// Errors that end a parse pass; the first one aborts the remaining tokens.
#[derive(Clone, Debug, PartialEq, Eq)]
pub enum ParseError {
    /// A value token could not be converted into the destination's type;
    /// carries the flag name and the converter's message.
    ParseFromFailure(String, String),
    /// A flag that expects a value stood last in the input; carries the name.
    MissingValue(String),
    /// The reserved help name (`help` or `h`) was encountered unregistered.
    HelpRequested,
    /// A bare name with no registered binding that is not the help name.
    UnknownFlag(String),
}

impl View for ParseError {
    type V = ParseErrorView;

    open spec fn view(&self) -> ParseErrorView {
        match self {
            ParseError::ParseFromFailure(n, m) => ParseErrorView::ParseFromFailure(n@, m@),
            ParseError::MissingValue(n) => ParseErrorView::MissingValue(n@),
            ParseError::HelpRequested => ParseErrorView::HelpRequested,
            ParseError::UnknownFlag(n) => ParseErrorView::UnknownFlag(n@),
        }
    }
}

/// One pass of the parsing algorithm over a registry of bindings: the
/// registry after all mutations, together with the unmatched tokens in input
/// order, or the error that ended the pass. A non-flag token is unmatched; a
/// flag token is looked up by its bare name, and a registered destination
/// either flips in place or consumes the next token as its value. An
/// unregistered bare name is the reserved help request if it is `help` or
/// `h`, and unknown otherwise.
pub open spec fn spec_parse<F: Flaggable>(
    b: Map<Seq<char>, F>,
    tokens: Seq<Seq<char>>,
) -> (Map<Seq<char>, F>, Result<Seq<Seq<char>>, ParseErrorView>)
    decreases tokens.len(),
{
    if tokens.len() == 0 {
        (b, Ok(Seq::empty()))
    } else {
        let t = tokens[0];
        let rest = tokens.drop_first();
        if !is_flag_token(t) {
            let sub = spec_parse(b, rest);
            (
                sub.0,
                match sub.1 {
                    Ok(u) => Ok(seq![t] + u),
                    Err(e) => Err(e),
                },
            )
        } else {
            let name = bare_name(t);
            if b.contains_key(name) {
                let d = b[name];
                if !d.expects_value_spec() {
                    match d.parse_from_spec(""@) {
                        Some(v) => spec_parse(b.insert(name, v), rest),
                        None => (b, Err(ParseErrorView::ParseFromFailure(name, ""@))),
                    }
                } else if rest.len() == 0 {
                    (b, Err(ParseErrorView::MissingValue(name)))
                } else {
                    match d.parse_from_spec(rest[0]) {
                        Some(v) => spec_parse(b.insert(name, v), rest.drop_first()),
                        None => (b, Err(ParseErrorView::ParseFromFailure(name, rest[0]))),
                    }
                }
            } else if name == "help"@ || name == "h"@ {
                (b, Err(ParseErrorView::HelpRequested))
            } else {
                (b, Err(ParseErrorView::UnknownFlag(name)))
            }
        }
    }
}

/// The registry: named bindings to destinations plus parallel help text.
pub struct FlagSet<F> {
    names: Vec<String>,
    helps: Vec<String>,
    dests: Vec<F>,
}

impl<F> FlagSet<F> {
    /// The registry's internal shape: parallel columns and distinct names.
    pub closed spec fn well_formed(&self) -> bool {
        &&& self.names@.len() == self.helps@.len()
        &&& self.names@.len() == self.dests@.len()
        &&& distinct_names(self.names.deep_view())
    }

    /// The bindings: each registered name mapped to its destination.
    pub closed spec fn bindings(&self) -> Map<Seq<char>, F> {
        map_of(self.names.deep_view(), self.dests@)
    }

    /// The help text: each registered name mapped to its description.
    pub closed spec fn help_map(&self) -> Map<Seq<char>, Seq<char>> {
        map_of(self.names.deep_view(), self.helps.deep_view())
    }

    /// Creates an empty registry: no bindings, no help entries.
    pub fn new() -> (r: FlagSet<F>)
        ensures
            r.well_formed(),
            r.bindings() == Map::<Seq<char>, F>::empty(),
            r.help_map() == Map::<Seq<char>, Seq<char>>::empty(),
    {
        FlagSet { names: Vec::new(), helps: Vec::new(), dests: Vec::new() }
    }

    /// The index of a registered name, if any.
    fn find_name(&self, bare: &str) -> (r: Option<usize>)
        requires
            self.well_formed(),
        ensures
            match r {
                Some(j) => j < self.names@.len() && self.names@[j as int]@ == bare@,
                None => forall|i: int|
                    0 <= i < self.names@.len() ==> self.names@[i]@ != bare@,
            },
    {
        let owned = bare.to_owned();
        let mut j: usize = 0;
        while j < self.names.len()
            invariant
                j <= self.names@.len(),
                owned@ == bare@,
                forall|i: int| 0 <= i < j ==> self.names@[i]@ != bare@,
            decreases self.names@.len() - j,
        {
            if owned == self.names[j] {
                return Some(j);
            }
            j += 1;
        }
        None
    }

    /// Registers a binding of a name to a destination, with its help text.
    /// A later registration for the same name silently replaces the earlier
    /// binding and help text.
    pub fn add(&mut self, name: String, help: String, dest: F)
        requires
            old(self).well_formed(),
        ensures
            final(self).well_formed(),
            final(self).bindings() == old(self).bindings().insert(name@, dest),
            final(self).help_map() == old(self).help_map().insert(name@, help@),
    {
        let found = self.find_name(name.as_str());
        match found {
            Some(j) => {
                proof {
                    assert(self.names.deep_view()[j as int] == name@);
                    lemma_map_of_update(self.names.deep_view(), self.dests@, j as int, dest);
                    lemma_map_of_update(
                        self.names.deep_view(),
                        self.helps.deep_view(),
                        j as int,
                        help@,
                    );
                }
                self.dests[j] = dest;
                self.helps[j] = help;
                proof {
                    assert(self.helps.deep_view()
                        =~= old(self).helps.deep_view().update(j as int, help@));
                }
            },
            None => {
                proof {
                    lemma_map_of_push(self.names.deep_view(), self.dests@, name@, dest);
                    lemma_map_of_push(self.names.deep_view(), self.helps.deep_view(), name@, help@);
                }
                let ghost old_names = self.names.deep_view();
                let ghost old_helps = self.helps.deep_view();
                self.names.push(name);
                self.helps.push(help);
                self.dests.push(dest);
                proof {
                    assert(self.names.deep_view() =~= old_names.push(name@));
                    assert(self.helps.deep_view() =~= old_helps.push(help@));
                }
            },
        }
    }

    /// The destination registered under a name, if any.
    pub fn get(&self, name: &str) -> (r: Option<&F>)
        requires
            self.well_formed(),
        ensures
            match r {
                Some(d) => self.bindings().contains_key(name@) && *d == self.bindings()[name@],
                None => !self.bindings().contains_key(name@),
            },
    {
        let found = self.find_name(name);
        match found {
            Some(j) => {
                proof {
                    lemma_map_of_index(self.names.deep_view(), self.dests@, j as int);
                }
                Some(&self.dests[j])
            },
            None => {
                proof {
                    lemma_map_of_dom(self.names.deep_view(), self.dests@);
                }
                None
            },
        }
    }

    /// The number of registered bindings.
    pub closed spec fn entry_count(&self) -> nat {
        self.names@.len()
    }

    /// Returns the number of registered bindings.
    pub fn len(&self) -> (n: usize)
        ensures
            n == self.entry_count(),
    {
        self.names.len()
    }

    /// The name and help text of the binding at an index, for rendering
    /// usage text.
    pub fn entry_at(&self, i: usize) -> (r: (&String, &String))
        requires
            self.well_formed(),
            i < self.entry_count(),
        ensures
            self.help_map().contains_key(r.0@),
            self.help_map()[r.0@] == r.1@,
            self.bindings().contains_key(r.0@),
    {
        proof {
            lemma_map_of_index(self.names.deep_view(), self.helps.deep_view(), i as int);
            lemma_map_of_index(self.names.deep_view(), self.dests@, i as int);
        }
        (&self.names[i], &self.helps[i])
    }
}

impl<F: Flaggable> FlagSet<F> {
    /// Parses a token sequence left to right against this registry, mutating
    /// registered destinations in place. Returns the unmatched tokens in
    /// input order, or the first error; destinations mutated before an error
    /// keep their new values.
    pub fn parse(&mut self, tokens: Vec<String>) -> (r: Result<Vec<String>, ParseError>)
        requires
            old(self).well_formed(),
        ensures
            final(self).well_formed(),
            final(self).help_map() == old(self).help_map(),
            final(self).bindings() == spec_parse(old(self).bindings(), tokens.deep_view()).0,
            match r {
                Ok(out) => spec_parse(old(self).bindings(), tokens.deep_view()).1
                    == Ok::<Seq<Seq<char>>, ParseErrorView>(out.deep_view()),
                Err(e) => spec_parse(old(self).bindings(), tokens.deep_view()).1
                    == Err::<Seq<Seq<char>>, ParseErrorView>(e@),
            },
    {
        let ghost b0 = old(self).bindings();
        let ghost dv = tokens.deep_view();
        let mut out: Vec<String> = Vec::new();
        let mut i: usize = 0;
        proof {
            assert(dv.skip(0) =~= dv);
            assert(out.deep_view() =~= Seq::<Seq<char>>::empty());
            let full = spec_parse(b0, dv);
            match full.1 {
                Ok(u) => {
                    assert(out.deep_view() + u =~= u);
                },
                Err(_) => {},
            }
        }
        while i < tokens.len()
            invariant
                self.well_formed(),
                self.help_map() == old(self).help_map(),
                i <= tokens@.len(),
                b0 == old(self).bindings(),
                dv == tokens.deep_view(),
                dv.len() == tokens@.len(),
                ({
                    let cur = spec_parse(self.bindings(), dv.skip(i as int));
                    let full = spec_parse(b0, dv);
                    &&& full.0 == cur.0
                    &&& match (full.1, cur.1) {
                        (Ok(u), Ok(u2)) => u == out.deep_view() + u2,
                        (Err(e1), Err(e2)) => e1 == e2,
                        (Ok(_), Err(_)) => false,
                        (Err(_), Ok(_)) => false,
                    }
                }),
            decreases tokens@.len() - i,
        {
            let ghost bcur = self.bindings();
            let ghost toks = dv.skip(i as int);
            proof {
                assert(toks.len() == dv.len() - i);
                assert(toks[0] == dv[i as int]);
                assert(toks.drop_first() =~= dv.skip(i as int + 1));
            }
            let t = &tokens[i];
            if !token_is_flag(t.as_str()) {
                let ghost out0 = out.deep_view();
                out.push(t.clone());
                proof {
                    assert(out.deep_view() =~= out0.push(toks[0]));
                    let sub = spec_parse(bcur, toks.drop_first());
                    match sub.1 {
                        Ok(u) => {
                            assert(out0 + (seq![toks[0]] + u) =~= out0.push(toks[0]) + u);
                        },
                        Err(_) => {},
                    }
                }
                i += 1;
            } else {
                let bare = strip_marker(t.as_str());
                let found = self.find_name(bare);
                match found {
                    Some(j) => {
                        proof {
                            assert(self.names.deep_view()[j as int] == bare@);
                            lemma_map_of_index(self.names.deep_view(), self.dests@, j as int);
                            assert(bcur.contains_key(bare@));
                            assert(bcur[bare@] == self.dests@[j as int]);
                        }
                        let expects = self.dests[j].expects_value();
                        if !expects {
                            let ghost dests0 = self.dests@;
                            let d = &mut self.dests[j];
                            let res = d.parse_from("");
                            match res {
                                Ok(_) => {
                                    proof {
                                        let v = self.dests@[j as int];
                                        lemma_map_of_update(
                                            self.names.deep_view(),
                                            dests0,
                                            j as int,
                                            v,
                                        );
                                        assert(self.bindings() == bcur.insert(bare@, v));
                                    }
                                    i += 1;
                                },
                                Err(m) => {
                                    proof {
                                        assert(self.dests@ =~= dests0);
                                    }
                                    return Err(ParseError::ParseFromFailure(bare.to_owned(), m));
                                },
                            }
                        } else if i + 1 == tokens.len() {
                            proof {
                                assert(toks.drop_first().len() == 0);
                            }
                            return Err(ParseError::MissingValue(bare.to_owned()));
                        } else {
                            let ghost dests0 = self.dests@;
                            let val = &tokens[i + 1];
                            proof {
                                assert(val@ == toks.drop_first()[0]);
                            }
                            let d = &mut self.dests[j];
                            let res = d.parse_from(val.as_str());
                            match res {
                                Ok(_) => {
                                    proof {
                                        let v = self.dests@[j as int];
                                        lemma_map_of_update(
                                            self.names.deep_view(),
                                            dests0,
                                            j as int,
                                            v,
                                        );
                                        assert(self.bindings() == bcur.insert(bare@, v));
                                        assert(toks.drop_first().drop_first() =~= dv.skip(
                                            i as int + 2,
                                        ));
                                    }
                                    i += 2;
                                },
                                Err(m) => {
                                    proof {
                                        assert(self.dests@ =~= dests0);
                                    }
                                    return Err(ParseError::ParseFromFailure(bare.to_owned(), m));
                                },
                            }
                        }
                    },
                    None => {
                        proof {
                            lemma_map_of_dom(self.names.deep_view(), self.dests@);
                            assert(!bcur.contains_key(bare@));
                        }
                        if str_eq(bare, "help") || str_eq(bare, "h") {
                            return Err(ParseError::HelpRequested);
                        } else {
                            return Err(ParseError::UnknownFlag(bare.to_owned()));
                        }
                    },
                }
            }
        }
        proof {
            assert(dv.skip(tokens@.len() as int) =~= Seq::<Seq<char>>::empty());
            let full = spec_parse(b0, dv);
            match full.1 {
                Ok(u) => {
                    assert(out.deep_view() + Seq::<Seq<char>>::empty() =~= out.deep_view());
                },
                Err(_) => {},
            }
        }
        Ok(out)
    }
}

} // verus!
