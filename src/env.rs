use vstd::prelude::*;

use crate::text::{chars_of, concat3, replace_all, replace_all_chars, slice, string_of};
use crate::token::{
    lemma_scan_placed, placed, scan, scan_tokens, spans_view, Found, Span, TokenKind,
};

verus! {

broadcast use vstd::seq::group_seq_axioms;

/// A snapshot of environment variables, taken once and read by name.
#[derive(Clone, Debug)]
pub struct Environment {
    vars: Vec<(String, String)>,
}

/// The value of `name` among `vars`; a later entry hides an earlier one.
pub open spec fn var_in(vars: Seq<(String, String)>, name: Seq<char>) -> Option<Seq<char>>
    decreases vars.len(),
{
    if vars.len() == 0 {
        None
    } else if vars.last().0@ == name {
        Some(vars.last().1@)
    } else {
        var_in(vars.drop_last(), name)
    }
}

impl Environment {
    /// The value of the variable `name`, if it is set.
    pub closed spec fn var(&self, name: Seq<char>) -> Option<Seq<char>> {
        var_in(self.vars@, name)
    }

    /// An environment in which no variable is set.
    pub fn new() -> (r: Environment)
        ensures
            forall|name: Seq<char>| #[trigger] r.var(name) is None,
    {
        Environment { vars: Vec::new() }
    }

    /// Sets `name` to `value`.
    pub fn set(&mut self, name: &str, value: &str)
        ensures
            final(self).var(name@) == Some(value@),
            forall|other: Seq<char>| other != name@ ==> #[trigger] final(self).var(other) == old(self).var(other),
    {
        let n = name.to_owned();
        let v = value.to_owned();
        self.vars.push((n, v));
        proof {
            assert(self.vars@.drop_last() =~= old(self).vars@);
        }
    }

    /// This environment with `name` set to `value`.
    pub fn with_var(self, name: &str, value: &str) -> (r: Environment)
        ensures
            r.var(name@) == Some(value@),
            forall|other: Seq<char>| other != name@ ==> #[trigger] r.var(other) == self.var(other),
    {
        let mut e = self;
        e.set(name, value);
        e
    }

    /// The value of the variable `name`, if it is set.
    pub fn get(&self, name: &String) -> (r: Option<&String>)
        ensures
            match r {
                Some(v) => self.var(name@) == Some(v@),
                None => self.var(name@) is None,
            },
    {
        let mut k = self.vars.len();
        proof {
            assert(self.vars@.take(k as int) =~= self.vars@);
        }
        while k > 0
            invariant
                k <= self.vars@.len(),
                var_in(self.vars@.take(k as int), name@) == var_in(self.vars@, name@),
            decreases k,
        {
            let ghost pre = self.vars@.take(k as int);
            proof {
                assert(pre.drop_last() =~= self.vars@.take(k - 1));
            }
            if self.vars[k - 1].0 == *name {
                return Some(&self.vars[k - 1].1);
            }
            k -= 1;
        }
        proof {
            assert(self.vars@.take(k as int) =~= self.vars@.take(0));
        }
        None
    }

    fn lookup_chars(&self, name: &Vec<char>) -> (r: Option<Vec<char>>)
        ensures
            match r {
                Some(v) => self.var(name@) == Some(v@),
                None => self.var(name@) is None,
            },
    {
        let n = string_of(name);
        match self.get(&n) {
            Some(v) => Some(chars_of(v.as_str())),
            None => None,
        }
    }
}

/// The text that `f` covers in `s`.
pub open spec fn whole(s: Seq<char>, f: Found) -> Seq<char> {
    s.subrange(f.start, f.end)
}

/// The name or path that `f` refers to.
pub open spec fn key_of(s: Seq<char>, f: Found) -> Seq<char> {
    s.subrange(f.key_start, f.key_end)
}

/// The default that `f` carries.
pub open spec fn default_of(s: Seq<char>, f: Found) -> Seq<char> {
    s.subrange(f.default_start, f.default_end)
}

/// What `${NAME:DEFAULT}` becomes: the variable's value, or else the default.
pub open spec fn fallback_value(env: Environment, s: Seq<char>, f: Found) -> Seq<char> {
    match env.var(key_of(s, f)) {
        Some(v) => v,
        None => default_of(s, f),
    }
}

/// The error for a `${NAME}` whose variable is not set.
pub open spec fn missing_variable_message(name: Seq<char>) -> Seq<char> {
    "environment variable '"@ + name + "' not found"@
}

/// `r` after each reference of `toks` (found in `s`), in order, has had every
/// occurrence of its text replaced by its fallback value.
pub open spec fn substitute_fallbacks(
    r: Seq<char>,
    s: Seq<char>,
    toks: Seq<Found>,
    env: Environment,
) -> Seq<char>
    decreases toks.len(),
{
    if toks.len() == 0 {
        r
    } else {
        let f = toks.last();
        replace_all(
            substitute_fallbacks(r, s, toks.drop_last(), env),
            whole(s, f),
            fallback_value(env, s, f),
        )
    }
}

/// `r` after each `${NAME}` of `toks` (found in `s`), in order, has had every
/// occurrence of its text replaced by the variable's value; the first one whose
/// variable is not set is the error.
pub open spec fn substitute_braced(
    r: Seq<char>,
    s: Seq<char>,
    toks: Seq<Found>,
    env: Environment,
) -> Result<Seq<char>, Seq<char>>
    decreases toks.len(),
{
    if toks.len() == 0 {
        Ok(r)
    } else {
        let f = toks.last();
        match substitute_braced(r, s, toks.drop_last(), env) {
            Err(e) => Err(e),
            Ok(p) => match env.var(key_of(s, f)) {
                Some(v) => Ok(replace_all(p, whole(s, f), v)),
                None => Err(missing_variable_message(key_of(s, f))),
            },
        }
    }
}

/// The text after `${NAME:DEFAULT}` references, then `${NAME}` references, are
/// substituted from `env`.
pub open spec fn expand_env(s: Seq<char>, env: Environment) -> Result<Seq<char>, Seq<char>> {
    let r = substitute_fallbacks(s, s, scan(TokenKind::EnvFallback, s, 0), env);
    substitute_braced(r, r, scan(TokenKind::EnvBraced, r, 0), env)
}

fn substitute_fallbacks_exec(s: &Vec<char>, toks: &Vec<Span>, env: &Environment) -> (r: Vec<char>)
    requires
        forall|k: int| 0 <= k < toks@.len() ==> placed(#[trigger] toks@[k]@, s@.len() as int),
    ensures
        r@ == substitute_fallbacks(s@, s@, spans_view(toks@), *env),
{
    let mut out = s.clone();
    let mut k: usize = 0;
    proof {
        assert(spans_view(toks@).take(0) =~= Seq::<Found>::empty());
    }
    while k < toks.len()
        invariant
            k <= toks@.len(),
            forall|m: int| 0 <= m < toks@.len() ==> placed(#[trigger] toks@[m]@, s@.len() as int),
            out@ == substitute_fallbacks(s@, s@, spans_view(toks@).take(k as int), *env),
        decreases toks.len() - k,
    {
        let sp = toks[k];
        proof {
            assert(toks@[k as int]@ == sp@);
        }
        let text = slice(s, sp.start, sp.end);
        let name = slice(s, sp.key_start, sp.key_end);
        let rep = match env.lookup_chars(&name) {
            Some(v) => v,
            None => slice(s, sp.default_start, sp.default_end),
        };
        out = replace_all_chars(&out, &text, &rep);
        proof {
            let t = spans_view(toks@).take(k + 1);
            assert(t.drop_last() =~= spans_view(toks@).take(k as int));
            assert(t.last() == sp@);
        }
        k += 1;
    }
    proof {
        assert(spans_view(toks@).take(k as int) =~= spans_view(toks@));
    }
    out
}

fn substitute_braced_exec(s: &Vec<char>, toks: &Vec<Span>, env: &Environment) -> (r: Result<
    Vec<char>,
    Vec<char>,
>)
    requires
        forall|k: int| 0 <= k < toks@.len() ==> placed(#[trigger] toks@[k]@, s@.len() as int),
    ensures
        match r {
            Ok(v) => substitute_braced(s@, s@, spans_view(toks@), *env) == Ok::<Seq<char>, Seq<char>>(v@),
            Err(e) => substitute_braced(s@, s@, spans_view(toks@), *env) == Err::<Seq<char>, Seq<char>>(e@),
        },
{
    let mut out = s.clone();
    let mut k: usize = 0;
    proof {
        assert(spans_view(toks@).take(0) =~= Seq::<Found>::empty());
    }
    while k < toks.len()
        invariant
            k <= toks@.len(),
            forall|m: int| 0 <= m < toks@.len() ==> placed(#[trigger] toks@[m]@, s@.len() as int),
            substitute_braced(s@, s@, spans_view(toks@).take(k as int), *env) == Ok::<Seq<char>, Seq<char>>(out@),
        decreases toks.len() - k,
    {
        let sp = toks[k];
        proof {
            assert(toks@[k as int]@ == sp@);
            let t = spans_view(toks@).take(k + 1);
            assert(t.drop_last() =~= spans_view(toks@).take(k as int));
            assert(t.last() == sp@);
        }
        let text = slice(s, sp.start, sp.end);
        let name = slice(s, sp.key_start, sp.key_end);
        match env.lookup_chars(&name) {
            Some(v) => {
                out = replace_all_chars(&out, &text, &v);
            },
            None => {
                let pre = chars_of("environment variable '");
                let post = chars_of("' not found");
                let msg = concat3(&pre, &name, &post);
                proof {
                    lemma_error_stays(s@, spans_view(toks@), *env, k + 1);
                    assert(spans_view(toks@).take(toks@.len() as int) =~= spans_view(toks@));
                }
                return Err(msg);
            },
        }
        k += 1;
    }
    proof {
        assert(spans_view(toks@).take(k as int) =~= spans_view(toks@));
    }
    Ok(out)
}

/// Once a prefix of the references fails, every longer prefix fails the same way.
proof fn lemma_error_stays(s: Seq<char>, toks: Seq<Found>, env: Environment, k: int)
    requires
        0 <= k <= toks.len(),
        substitute_braced(s, s, toks.take(k), env) is Err,
    ensures
        substitute_braced(s, s, toks.take(toks.len() as int), env) == substitute_braced(
            s,
            s,
            toks.take(k),
            env,
        ),
    decreases toks.len() - k,
{
    if k < toks.len() {
        assert(toks.take(k + 1).drop_last() =~= toks.take(k));
        lemma_error_stays(s, toks, env, k + 1);
    }
}

/// Substitutes environment references in `content`: first every
/// `${NAME:DEFAULT}` (the variable's value, or the default when it is not set),
/// then every `${NAME}` (the variable's value; an error naming the first one that
/// is not set). A `$` not followed by `{` is left as it is.
pub fn expand_env_variables(content: &str, env: &Environment) -> (r: Result<String, String>)
    ensures
        match r {
            Ok(v) => expand_env(content@, *env) == Ok::<Seq<char>, Seq<char>>(v@),
            Err(e) => expand_env(content@, *env) == Err::<Seq<char>, Seq<char>>(e@),
        },
{
    let s = chars_of(content);
    let toks = scan_tokens(TokenKind::EnvFallback, &s);
    proof {
        lemma_scan_placed(TokenKind::EnvFallback, s@, 0);
        assert forall|k: int| 0 <= k < toks@.len() implies placed(#[trigger] toks@[k]@, s@.len() as int) by {
            assert(spans_view(toks@)[k] == toks@[k]@);
        }
    }
    let r1 = substitute_fallbacks_exec(&s, &toks, env);
    let toks2 = scan_tokens(TokenKind::EnvBraced, &r1);
    proof {
        lemma_scan_placed(TokenKind::EnvBraced, r1@, 0);
        assert forall|k: int| 0 <= k < toks2@.len() implies placed(#[trigger] toks2@[k]@, r1@.len() as int) by {
            assert(spans_view(toks2@)[k] == toks2@[k]@);
        }
    }
    match substitute_braced_exec(&r1, &toks2, env) {
        Ok(v) => Ok(string_of(&v)),
        Err(e) => Err(string_of(&e)),
    }
}

} // verus!
