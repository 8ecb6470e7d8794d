//! Laws of the parse pass, stated over the registry model and proved once
//! for every registry and every input.

use vstd::prelude::*;
use crate::convert::FromFlagStr;
use crate::flag::{Flaggable, Preset};
use crate::flagset::{spec_parse, ParseErrorView};
use crate::strutil::{bare_name, is_flag_token};

verus! {

/// A pass never adds or removes bindings: the registered names after it are
/// exactly those before it.
pub proof fn lemma_parse_preserves_dom<F: Flaggable>(b: Map<Seq<char>, F>, tokens: Seq<Seq<char>>)
    ensures
        spec_parse(b, tokens).0.dom() == b.dom(),
    decreases tokens.len(),
{
    if tokens.len() > 0 {
        let t = tokens[0];
        let rest = tokens.drop_first();
        if !is_flag_token(t) {
            lemma_parse_preserves_dom(b, rest);
        } else {
            let name = bare_name(t);
            if b.contains_key(name) {
                let d = b[name];
                if !d.expects_value_spec() {
                    match d.parse_from_spec(""@) {
                        Some(v) => {
                            lemma_parse_preserves_dom(b.insert(name, v), rest);
                            assert(b.insert(name, v).dom() =~= b.dom());
                        },
                        None => {},
                    }
                } else if rest.len() > 0 {
                    match d.parse_from_spec(rest[0]) {
                        Some(v) => {
                            lemma_parse_preserves_dom(b.insert(name, v), rest.drop_first());
                            assert(b.insert(name, v).dom() =~= b.dom());
                        },
                        None => {},
                    }
                }
            }
        }
    }
}

/// A binding whose flag never occurs in the input is untouched: a
/// destination never targeted keeps its value, whatever else is parsed.
pub proof fn lemma_untargeted_unchanged<F: Flaggable>(
    b: Map<Seq<char>, F>,
    tokens: Seq<Seq<char>>,
    name: Seq<char>,
)
    requires
        b.contains_key(name),
        forall|i: int|
            0 <= i < tokens.len() ==> !(is_flag_token(#[trigger] tokens[i]) && bare_name(tokens[i])
                == name),
    ensures
        spec_parse(b, tokens).0.contains_key(name),
        spec_parse(b, tokens).0[name] == b[name],
    decreases tokens.len(),
{
    if tokens.len() > 0 {
        let t = tokens[0];
        let rest = tokens.drop_first();
        assert(forall|i: int| 0 <= i < rest.len() ==> rest[i] == tokens[i + 1]);
        if !is_flag_token(t) {
            lemma_untargeted_unchanged(b, rest, name);
        } else {
            let n2 = bare_name(t);
            assert(n2 != name);
            if b.contains_key(n2) {
                let d = b[n2];
                if !d.expects_value_spec() {
                    match d.parse_from_spec(""@) {
                        Some(v) => {
                            lemma_untargeted_unchanged(b.insert(n2, v), rest, name);
                        },
                        None => {},
                    }
                } else if rest.len() > 0 {
                    match d.parse_from_spec(rest[0]) {
                        Some(v) => {
                            let rest2 = rest.drop_first();
                            assert(forall|i: int| 0 <= i < rest2.len() ==> rest2[i] == tokens[i + 2]);
                            lemma_untargeted_unchanged(b.insert(n2, v), rest2, name);
                        },
                        None => {},
                    }
                }
            }
        }
    }
}

/// An optional destination never targeted by a flag stays empty.
pub proof fn lemma_untargeted_optional_stays_empty<T: FromFlagStr>(
    b: Map<Seq<char>, Option<T>>,
    tokens: Seq<Seq<char>>,
    name: Seq<char>,
)
    requires
        b.contains_key(name),
        b[name] is None,
        forall|i: int|
            0 <= i < tokens.len() ==> !(is_flag_token(#[trigger] tokens[i]) && bare_name(tokens[i])
                == name),
    ensures
        spec_parse(b, tokens).0.contains_key(name),
        spec_parse(b, tokens).0[name] is None,
{
    lemma_untargeted_unchanged(b, tokens, name);
}

/// A preset destination holds its default until a flag overwrites it: never
/// targeted, it still holds the default after the pass.
pub proof fn lemma_untargeted_preset_keeps_default<T: FromFlagStr>(
    b: Map<Seq<char>, Preset<T>>,
    tokens: Seq<Seq<char>>,
    name: Seq<char>,
)
    requires
        b.contains_key(name),
        forall|i: int|
            0 <= i < tokens.len() ==> !(is_flag_token(#[trigger] tokens[i]) && bare_name(tokens[i])
                == name),
    ensures
        spec_parse(b, tokens).0.contains_key(name),
        spec_parse(b, tokens).0[name] == b[name],
{
    lemma_untargeted_unchanged(b, tokens, name);
}

/// The number of tokens that name a given flag.
pub open spec fn occ_count(tokens: Seq<Seq<char>>, name: Seq<char>) -> nat
    decreases tokens.len(),
{
    if tokens.len() == 0 {
        0nat
    } else {
        (if is_flag_token(tokens[0]) && bare_name(tokens[0]) == name {
            1nat
        } else {
            0nat
        }) + occ_count(tokens.drop_first(), name)
    }
}

/// In a registry of toggles, a completed pass flips each toggle exactly once
/// per occurrence of its flag: the final state equals the initial state
/// exactly when the flag occurred an even number of times.
pub proof fn lemma_toggle_parity(b: Map<Seq<char>, bool>, tokens: Seq<Seq<char>>, name: Seq<char>)
    requires
        b.contains_key(name),
        spec_parse(b, tokens).1 is Ok,
    ensures
        spec_parse(b, tokens).0.contains_key(name),
        spec_parse(b, tokens).0[name] == if occ_count(tokens, name) % 2 == 0 {
            b[name]
        } else {
            !b[name]
        },
    decreases tokens.len(),
{
    if tokens.len() > 0 {
        let t = tokens[0];
        let rest = tokens.drop_first();
        if !is_flag_token(t) {
            lemma_toggle_parity(b, rest, name);
        } else {
            let n2 = bare_name(t);
            if b.contains_key(n2) {
                let b2 = b.insert(n2, !b[n2]);
                lemma_toggle_parity(b2, rest, name);
            } else {
                assert(false);
            }
        }
    }
}

/// Two occurrences of a toggle's flag return it to its original state.
pub proof fn lemma_toggle_twice_restores(
    b: Map<Seq<char>, bool>,
    tokens: Seq<Seq<char>>,
    name: Seq<char>,
)
    requires
        b.contains_key(name),
        spec_parse(b, tokens).1 is Ok,
        occ_count(tokens, name) == 2,
    ensures
        spec_parse(b, tokens).0[name] == b[name],
{
    lemma_toggle_parity(b, tokens, name);
}

/// A pass over concatenated inputs is the pass over the first part followed,
/// when that part succeeds, by a pass over the second from the registry the
/// first produced; the unmatched tokens concatenate in input order.
pub proof fn lemma_parse_append<F: Flaggable>(
    b: Map<Seq<char>, F>,
    t1: Seq<Seq<char>>,
    t2: Seq<Seq<char>>,
)
    requires
        spec_parse(b, t1).1 is Ok,
    ensures
        spec_parse(b, t1 + t2).0 == spec_parse(spec_parse(b, t1).0, t2).0,
        (match (
            spec_parse(b, t1).1,
            spec_parse(spec_parse(b, t1).0, t2).1,
            spec_parse(b, t1 + t2).1,
        ) {
            (Ok(u1), Ok(u2), Ok(u)) => u == u1 + u2,
            (Ok(_), Err(e2), Err(e)) => e == e2,
            _ => false,
        }),
    decreases t1.len(),
{
    if t1.len() == 0 {
        assert(t1 + t2 =~= t2);
        match spec_parse(b, t2).1 {
            Ok(u2) => {
                assert(Seq::<Seq<char>>::empty() + u2 =~= u2);
            },
            Err(_) => {},
        }
    } else {
        let t = t1[0];
        let rest1 = t1.drop_first();
        assert((t1 + t2)[0] == t);
        assert((t1 + t2).drop_first() =~= rest1 + t2);
        if !is_flag_token(t) {
            lemma_parse_append(b, rest1, t2);
            match (spec_parse(b, rest1).1, spec_parse(spec_parse(b, rest1).0, t2).1) {
                (Ok(u1r), Ok(u2)) => {
                    assert((seq![t] + u1r) + u2 =~= seq![t] + (u1r + u2));
                },
                _ => {},
            }
        } else {
            let name = bare_name(t);
            if b.contains_key(name) {
                let d = b[name];
                if !d.expects_value_spec() {
                    match d.parse_from_spec(""@) {
                        Some(v) => {
                            lemma_parse_append(b.insert(name, v), rest1, t2);
                        },
                        None => {
                            assert(false);
                        },
                    }
                } else if rest1.len() == 0 {
                    assert(false);
                } else {
                    match d.parse_from_spec(rest1[0]) {
                        Some(v) => {
                            assert((rest1 + t2)[0] == rest1[0]);
                            assert((rest1 + t2).drop_first() =~= rest1.drop_first() + t2);
                            lemma_parse_append(b.insert(name, v), rest1.drop_first(), t2);
                        },
                        None => {
                            assert(false);
                        },
                    }
                }
            } else {
                assert(false);
            }
        }
    }
}

/// After any successful prefix, a flag followed by a token its destination
/// can convert leaves that destination holding exactly the parsed value: the
/// last successfully parsed value wins, whatever came before.
pub proof fn lemma_last_value_wins<F: Flaggable>(
    b: Map<Seq<char>, F>,
    head: Seq<Seq<char>>,
    flag_tok: Seq<char>,
    val_tok: Seq<char>,
    name: Seq<char>,
    w: F,
)
    requires
        is_flag_token(flag_tok),
        bare_name(flag_tok) == name,
        spec_parse(b, head).1 is Ok,
        spec_parse(b, head).0.contains_key(name),
        spec_parse(b, head).0[name].expects_value_spec(),
        spec_parse(b, head).0[name].parse_from_spec(val_tok) == Some(w),
    ensures
        spec_parse(b, head + seq![flag_tok, val_tok]).1 is Ok,
        spec_parse(b, head + seq![flag_tok, val_tok]).0.contains_key(name),
        spec_parse(b, head + seq![flag_tok, val_tok]).0[name] == w,
{
    let tail = seq![flag_tok, val_tok];
    lemma_parse_append(b, head, tail);
    let b1 = spec_parse(b, head).0;
    assert(tail[0] == flag_tok);
    assert(tail.drop_first() =~= seq![val_tok]);
    assert(tail.drop_first()[0] == val_tok);
    assert(tail.drop_first().drop_first() =~= Seq::<Seq<char>>::empty());
    let b2 = b1.insert(name, w);
    assert(spec_parse(b2, tail.drop_first().drop_first()) == (
        b2,
        Ok::<Seq<Seq<char>>, ParseErrorView>(Seq::empty()),
    ));
    assert(spec_parse(b1, tail).0 == b2);
}

/// An unregistered `help` or `h` flag token, after any successfully parsed
/// prefix, ends the pass with a help request and no further mutation; this
/// holds of an empty registry and a non-empty one alike.
pub proof fn lemma_help_requested<F: Flaggable>(
    b: Map<Seq<char>, F>,
    head: Seq<Seq<char>>,
    help_tok: Seq<char>,
)
    requires
        is_flag_token(help_tok),
        bare_name(help_tok) == "help"@ || bare_name(help_tok) == "h"@,
        !b.contains_key(bare_name(help_tok)),
        spec_parse(b, head).1 is Ok,
    ensures
        spec_parse(b, head + seq![help_tok]).0 == spec_parse(b, head).0,
        spec_parse(b, head + seq![help_tok]).1 == Err::<Seq<Seq<char>>, ParseErrorView>(
            ParseErrorView::HelpRequested,
        ),
{
    let tail = seq![help_tok];
    lemma_parse_append(b, head, tail);
    lemma_parse_preserves_dom(b, head);
    let b1 = spec_parse(b, head).0;
    assert(!b1.contains_key(bare_name(help_tok)));
    assert(tail[0] == help_tok);
    assert(spec_parse(b1, tail) == (
        b1,
        Err::<Seq<Seq<char>>, ParseErrorView>(ParseErrorView::HelpRequested),
    ));
}

/// The first sequence occurs inside the second with its order kept.
pub open spec fn subsequence_of(u: Seq<Seq<char>>, t: Seq<Seq<char>>) -> bool
    decreases t.len(),
{
    if u.len() == 0 {
        true
    } else if t.len() == 0 {
        false
    } else if u[0] == t[0] {
        subsequence_of(u.drop_first(), t.drop_first())
    } else {
        subsequence_of(u, t.drop_first())
    }
}

proof fn lemma_subsequence_drop_first(u: Seq<Seq<char>>, t: Seq<Seq<char>>)
    requires
        subsequence_of(u, t),
        u.len() > 0,
    ensures
        subsequence_of(u.drop_first(), t),
    decreases t.len(), 0int,
{
    if u[0] == t[0] {
        lemma_subsequence_extend(u.drop_first(), t.drop_first(), t[0]);
        assert(seq![t[0]] + t.drop_first() =~= t);
    } else {
        lemma_subsequence_drop_first(u, t.drop_first());
        lemma_subsequence_extend(u.drop_first(), t.drop_first(), t[0]);
        assert(seq![t[0]] + t.drop_first() =~= t);
    }
}

proof fn lemma_subsequence_extend(u: Seq<Seq<char>>, s: Seq<Seq<char>>, x: Seq<char>)
    requires
        subsequence_of(u, s),
    ensures
        subsequence_of(u, seq![x] + s),
    decreases s.len(), 1int,
{
    let t = seq![x] + s;
    if u.len() > 0 {
        assert(t[0] == x);
        assert(t.drop_first() =~= s);
        if u[0] == x {
            lemma_subsequence_drop_first(u, s);
        }
    }
}

/// The unmatched tokens of any successful pass are a subsequence of the
/// input — in input-relative order — and none of them is a flag token.
pub proof fn lemma_unmatched_subsequence<F: Flaggable>(
    b: Map<Seq<char>, F>,
    tokens: Seq<Seq<char>>,
)
    requires
        spec_parse(b, tokens).1 is Ok,
    ensures
        (match spec_parse(b, tokens).1 {
            Ok(u) => subsequence_of(u, tokens) && forall|i: int|
                0 <= i < u.len() ==> !is_flag_token(#[trigger] u[i]),
            Err(_) => false,
        }),
    decreases tokens.len(),
{
    if tokens.len() > 0 {
        let t = tokens[0];
        let rest = tokens.drop_first();
        assert(seq![t] + rest =~= tokens);
        if !is_flag_token(t) {
            lemma_unmatched_subsequence(b, rest);
            match spec_parse(b, rest).1 {
                Ok(u2) => {
                    let u = seq![t] + u2;
                    assert(u[0] == tokens[0]);
                    assert(u.drop_first() =~= u2);
                    assert(forall|i: int| 1 <= i < u.len() ==> u[i] == u2[i - 1]);
                },
                Err(_) => {},
            }
        } else {
            let name = bare_name(t);
            let d = b[name];
            if !d.expects_value_spec() {
                match d.parse_from_spec(""@) {
                    Some(v) => {
                        lemma_unmatched_subsequence(b.insert(name, v), rest);
                        match spec_parse(b.insert(name, v), rest).1 {
                            Ok(u) => {
                                lemma_subsequence_extend(u, rest, t);
                            },
                            Err(_) => {},
                        }
                    },
                    None => {
                        assert(false);
                    },
                }
            } else {
                match d.parse_from_spec(rest[0]) {
                    Some(v) => {
                        let rest2 = rest.drop_first();
                        assert(seq![rest[0]] + rest2 =~= rest);
                        lemma_unmatched_subsequence(b.insert(name, v), rest2);
                        match spec_parse(b.insert(name, v), rest2).1 {
                            Ok(u) => {
                                lemma_subsequence_extend(u, rest2, rest[0]);
                                lemma_subsequence_extend(u, rest, t);
                            },
                            Err(_) => {},
                        }
                    },
                    None => {
                        assert(false);
                    },
                }
            }
        }
    }
}

/// The non-flag tokens of an input, in input order.
pub open spec fn non_flag_tokens(tokens: Seq<Seq<char>>) -> Seq<Seq<char>>
    decreases tokens.len(),
{
    if tokens.len() == 0 {
        Seq::empty()
    } else if !is_flag_token(tokens[0]) {
        seq![tokens[0]] + non_flag_tokens(tokens.drop_first())
    } else {
        non_flag_tokens(tokens.drop_first())
    }
}

/// In a registry of toggles no token is consumed as a value, and a completed
/// pass returns exactly the non-flag tokens, in input order, unaffected by
/// the interleaved flags.
pub proof fn lemma_unmatched_in_order(b: Map<Seq<char>, bool>, tokens: Seq<Seq<char>>)
    requires
        spec_parse(b, tokens).1 is Ok,
    ensures
        spec_parse(b, tokens).1 == Ok::<Seq<Seq<char>>, ParseErrorView>(non_flag_tokens(tokens)),
    decreases tokens.len(),
{
    if tokens.len() > 0 {
        let t = tokens[0];
        let rest = tokens.drop_first();
        if !is_flag_token(t) {
            lemma_unmatched_in_order(b, rest);
        } else {
            let n2 = bare_name(t);
            if b.contains_key(n2) {
                lemma_unmatched_in_order(b.insert(n2, !b[n2]), rest);
            } else {
                assert(false);
            }
        }
    }
}

} // verus!
