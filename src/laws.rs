use vstd::prelude::*;

use crate::env::{
    default_of, expand_env, fallback_value, key_of, missing_variable_message, substitute_braced,
    substitute_fallbacks, whole, Environment,
};
use crate::interpolation::{
    escaped, lemma_escape_plain, needs_no_escape, expand_file_fallbacks, expand_files, file_fallback_value, interpolation,
    substitute_file_fallbacks, substitute_files, FileContents,
};
use crate::text::replace_all;
use crate::token::{find_char, in_class, is_name_start, run_end, scan, token_at, CharClass, TokenKind};

verus! {

broadcast use vstd::seq::group_seq_axioms;

/// A variable name: `[A-Za-z_][A-Za-z0-9_]*`.
pub open spec fn is_name(x: Seq<char>) -> bool {
    x.len() > 0 && is_name_start(x[0]) && forall|i: int| 0 <= i < x.len() ==> #[trigger] in_class(CharClass::Name, x[i])
}

/// Every character of `x` is of class `cls`.
pub open spec fn all_in(x: Seq<char>, cls: CharClass) -> bool {
    forall|i: int| 0 <= i < x.len() ==> #[trigger] in_class(cls, x[i])
}

/// `x` holds no `c`.
pub open spec fn lacks(x: Seq<char>, c: char) -> bool {
    forall|i: int| 0 <= i < x.len() ==> #[trigger] x[i] != c
}

/// A run of class `cls` that starts at `i` and is `n` long ends at `i + n`.
proof fn lemma_run_of(s: Seq<char>, i: int, n: int, cls: CharClass)
    requires
        0 <= i,
        0 <= n,
        i + n <= s.len(),
        forall|j: int| i <= j < i + n ==> #[trigger] in_class(cls, s[j]),
        i + n == s.len() || !in_class(cls, s[i + n]),
    ensures
        run_end(s, i, cls) == i + n,
    decreases n,
{
    if n > 0 {
        lemma_run_of(s, i + 1, n - 1, cls);
    }
}

/// The first `ch` at or after `j` is at `c`.
proof fn lemma_find_of(s: Seq<char>, j: int, c: int, ch: char)
    requires
        0 <= j <= c < s.len(),
        s[c] == ch,
        forall|m: int| j <= m < c ==> #[trigger] s[m] != ch,
    ensures
        find_char(s, j, ch) == c,
    decreases c - j,
{
    if j < c {
        lemma_find_of(s, j + 1, c, ch);
    }
}

/// Where no reference starts at or after `i`, the scan from `i` finds nothing.
proof fn lemma_scan_none(kind: TokenKind, s: Seq<char>, i: int)
    requires
        0 <= i,
        forall|j: int| i <= j < s.len() ==> #[trigger] token_at(kind, s, j) is None,
    ensures
        scan(kind, s, i) == Seq::<crate::token::Found>::empty(),
    decreases s.len() - i,
{
    if i < s.len() {
        lemma_scan_none(kind, s, i + 1);
    }
}

/// Replacing a whole text by `v` gives `v`.
proof fn lemma_replace_whole(s: Seq<char>, v: Seq<char>)
    requires
        s.len() > 0,
    ensures
        replace_all(s, s, v) == v,
{
    assert(s.subrange(0, s.len() as int) =~= s);
    assert(s.skip(s.len() as int) =~= Seq::<char>::empty());
    assert(replace_all(Seq::<char>::empty(), s, v) == Seq::<char>::empty());
    assert(v + Seq::<char>::empty() =~= v);
}

/// Text without `:` holds no file reference.
proof fn lemma_no_file_refs(s: Seq<char>, files: FileContents)
    requires
        lacks(s, ':'),
    ensures
        expand_file_fallbacks(s, files) == s,
        expand_files(s, files) == Ok::<Seq<char>, Seq<char>>(s),
{
    assert forall|j: int| 0 <= j < s.len() implies #[trigger] token_at(TokenKind::FileFallback, s, j) is None by {
        if j + 5 <= s.len() {
            assert(s[j + 4] != ':');
        }
    }
    assert forall|j: int| 0 <= j < s.len() implies #[trigger] token_at(TokenKind::FileSimple, s, j) is None by {
        if j + 5 <= s.len() {
            assert(s[j + 4] != ':');
        }
    }
    lemma_scan_none(TokenKind::FileFallback, s, 0);
    lemma_scan_none(TokenKind::FileSimple, s, 0);
}

/// `${NAME:DEFAULT}` never fails: it becomes the variable's value when it is
/// set and the default otherwise, the empty default included (where what it
/// becomes holds no `${NAME}` of its own).
pub proof fn lemma_env_fallback(name: Seq<char>, default: Seq<char>, env: Environment)
    requires
        is_name(name),
        lacks(default, '}'),
        ({
            let v = match env.var(name) {
                Some(v) => v,
                None => default,
            };
            scan(TokenKind::EnvBraced, v, 0).len() == 0
        }),
    ensures
        expand_env(seq!['$', '{'] + name + seq![':'] + default + seq!['}'], env) == Ok::<
            Seq<char>,
            Seq<char>,
        >(
            match env.var(name) {
                Some(v) => v,
                None => default,
            },
        ),
{
    let s = seq!['$', '{'] + name + seq![':'] + default + seq!['}'];
    let n: int = 2 + name.len() as int;
    let c: int = n + 1 + default.len() as int;
    assert(s[n] == ':');
    assert(s[c] == '}');
    assert forall|j: int| 2 <= j < n implies #[trigger] in_class(CharClass::Name, s[j]) by {
        assert(s[j] == name[j - 2]);
    }
    lemma_run_of(s, 2, name.len() as int, CharClass::Name);
    assert forall|m: int| n + 1 <= m < c implies #[trigger] s[m] != '}' by {
        assert(s[m] == default[m - n - 1]);
    }
    lemma_find_of(s, n + 1, c, '}');
    assert(s[2] == name[0]);
    let f = token_at(TokenKind::EnvFallback, s, 0)->0;
    assert(token_at(TokenKind::EnvFallback, s, 0) is Some);
    assert(f.end == s.len());
    assert(scan(TokenKind::EnvFallback, s, s.len() as int) == Seq::<crate::token::Found>::empty());
    assert(scan(TokenKind::EnvFallback, s, 0) =~= seq![f]);
    assert(s.subrange(f.key_start, f.key_end) =~= name);
    assert(s.subrange(f.default_start, f.default_end) =~= default);
    assert(s.subrange(f.start, f.end) =~= s);
    let v = match env.var(name) {
        Some(v) => v,
        None => default,
    };
    assert(seq![f].drop_last() =~= Seq::<crate::token::Found>::empty());
    lemma_replace_whole(s, v);
    assert(substitute_fallbacks(s, s, seq![f].drop_last(), env) == s);
    assert(whole(s, f) == s);
    assert(key_of(s, f) == name);
    assert(fallback_value(env, s, f) == v);
    assert(substitute_fallbacks(s, s, seq![f], env) == v);
    assert(scan(TokenKind::EnvBraced, v, 0) =~= Seq::<crate::token::Found>::empty());
    assert(substitute_braced(v, v, Seq::<crate::token::Found>::empty(), env) == Ok::<
        Seq<char>,
        Seq<char>,
    >(v));
}

/// `${NAME}` is strict: with the variable unset the whole interpolation fails
/// naming it; with it set it becomes exactly its value (where the value holds
/// no `${NAME}` of its own).
pub proof fn lemma_env_braced(name: Seq<char>, env: Environment, files: FileContents)
    requires
        is_name(name),
        env.var(name) matches Some(v) ==> scan(TokenKind::EnvBraced, v, 0).len() == 0,
    ensures
        env.var(name) is None ==> interpolation(seq!['$', '{'] + name + seq!['}'], env, files)
            == Err::<Seq<char>, Seq<char>>(missing_variable_message(name)),
        env.var(name) matches Some(v) ==> expand_env(seq!['$', '{'] + name + seq!['}'], env)
            == Ok::<Seq<char>, Seq<char>>(v),
{
    let s = seq!['$', '{'] + name + seq!['}'];
    let n: int = 2 + name.len() as int;
    assert(s[n] == '}');
    assert forall|j: int| 2 <= j < n implies #[trigger] in_class(CharClass::Name, s[j]) by {
        assert(s[j] == name[j - 2]);
    }
    lemma_run_of(s, 2, name.len() as int, CharClass::Name);
    assert(s[2] == name[0]);
    assert forall|j: int| 1 <= j < s.len() implies s[j] != '$' by {
        if 2 <= j < n {
            assert(s[j] == name[j - 2]);
            assert(in_class(CharClass::Name, name[j - 2]));
        }
    }
    assert forall|j: int| 0 <= j < s.len() implies #[trigger] token_at(TokenKind::EnvFallback, s, j) is None by {
        if j == 0 {
            assert(s[n] != ':');
        }
    }
    lemma_scan_none(TokenKind::EnvFallback, s, 0);
    assert(substitute_fallbacks(s, s, Seq::<crate::token::Found>::empty(), env) == s);
    let f = token_at(TokenKind::EnvBraced, s, 0)->0;
    assert(token_at(TokenKind::EnvBraced, s, 0) is Some);
    assert(f.end == s.len());
    assert(scan(TokenKind::EnvBraced, s, s.len() as int) == Seq::<crate::token::Found>::empty());
    assert(scan(TokenKind::EnvBraced, s, 0) =~= seq![f]);
    assert(s.subrange(f.key_start, f.key_end) =~= name);
    assert(s.subrange(f.start, f.end) =~= s);
    assert(seq![f].drop_last() =~= Seq::<crate::token::Found>::empty());
    assert(whole(s, f) == s);
    assert(key_of(s, f) == name);
    assert(substitute_braced(s, s, seq![f].drop_last(), env) == Ok::<Seq<char>, Seq<char>>(s));
    match env.var(name) {
        Some(v) => {
            lemma_replace_whole(s, v);
        },
        None => {},
    }
}

/// A `$` not followed by `{` is left as it is: `$NAME` goes through the whole
/// interpolation unchanged, whatever the environment holds.
pub proof fn lemma_dollar_passthrough(name: Seq<char>, env: Environment, files: FileContents)
    requires
        is_name(name),
    ensures
        interpolation(seq!['$'] + name, env, files) == Ok::<Seq<char>, Seq<char>>(seq!['$'] + name),
{
    let s = seq!['$'] + name;
    assert forall|j: int| 0 <= j < s.len() implies !(s[j] == '{' || s[j] == ':' || (j > 0 && s[j] == '$')) by {
        if j > 0 {
            assert(s[j] == name[j - 1]);
            assert(in_class(CharClass::Name, name[j - 1]));
        }
    }
    assert forall|j: int| 0 <= j < s.len() implies #[trigger] token_at(TokenKind::EnvFallback, s, j) is None by {
        if j + 2 < s.len() {
            assert(s[j + 1] != '{');
        }
    }
    assert forall|j: int| 0 <= j < s.len() implies #[trigger] token_at(TokenKind::EnvBraced, s, j) is None by {
        if j + 2 < s.len() {
            assert(s[j + 1] != '{');
        }
    }
    lemma_scan_none(TokenKind::EnvFallback, s, 0);
    lemma_scan_none(TokenKind::EnvBraced, s, 0);
    assert(substitute_fallbacks(s, s, Seq::<crate::token::Found>::empty(), env) == s);
    assert(lacks(s, ':'));
    lemma_no_file_refs(s, files);
}

/// `file:PATH:DEFAULT` becomes the default when the file cannot be read.
pub proof fn lemma_file_fallback(path: Seq<char>, default: Seq<char>, files: FileContents)
    requires
        path.len() > 0,
        all_in(path, CharClass::Path),
        default.len() > 0,
        all_in(default, CharClass::Bare),
        files.outcome(path) is Err,
    ensures
        expand_files(seq!['f', 'i', 'l', 'e', ':'] + path + seq![':'] + default, files) == Ok::<
            Seq<char>,
            Seq<char>,
        >(default),
{
    let s = seq!['f', 'i', 'l', 'e', ':'] + path + seq![':'] + default;
    let p: int = 5 + path.len() as int;
    assert(s[p] == ':');
    assert forall|j: int| 5 <= j < p implies #[trigger] in_class(CharClass::Path, s[j]) by {
        assert(s[j] == path[j - 5]);
    }
    lemma_run_of(s, 5, path.len() as int, CharClass::Path);
    assert forall|j: int| p + 1 <= j < s.len() implies #[trigger] in_class(CharClass::Bare, s[j]) by {
        assert(s[j] == default[j - p - 1]);
    }
    lemma_run_of(s, p + 1, default.len() as int, CharClass::Bare);
    let f = token_at(TokenKind::FileFallback, s, 0)->0;
    assert(token_at(TokenKind::FileFallback, s, 0) is Some);
    assert(f.end == s.len());
    assert(scan(TokenKind::FileFallback, s, s.len() as int) == Seq::<crate::token::Found>::empty());
    assert(scan(TokenKind::FileFallback, s, 0) =~= seq![f]);
    assert(s.subrange(f.key_start, f.key_end) =~= path);
    assert(s.subrange(f.default_start, f.default_end) =~= default);
    assert(s.subrange(f.start, f.end) =~= s);
    assert(seq![f].drop_last() =~= Seq::<crate::token::Found>::empty());
    lemma_replace_whole(s, default);
    assert(substitute_file_fallbacks(s, s, seq![f].drop_last(), files) == s);
    assert(whole(s, f) == s);
    assert(key_of(s, f) == path);
    assert(default_of(s, f) == default);
    assert(file_fallback_value(files, s, f) == default);
    assert(substitute_file_fallbacks(s, s, seq![f], files) == default);
    assert forall|j: int| 0 <= j < default.len() implies #[trigger] default[j] != ':' by {
        assert(in_class(CharClass::Bare, default[j]));
    }
    lemma_no_file_refs(default, files);
    assert(expand_file_fallbacks(s, files) == default);
}


/// `file:PATH` becomes the escaped text of the file when it can be read: the
/// text itself when it holds no quote, backslash, tab or other control character.
pub proof fn lemma_file_read(path: Seq<char>, files: FileContents)
    requires
        path.len() > 0,
        all_in(path, CharClass::Bare),
        files.outcome(path) is Ok,
    ensures
        expand_files(seq!['f', 'i', 'l', 'e', ':'] + path, files) == Ok::<Seq<char>, Seq<char>>(
            escaped(files.outcome(path)->Ok_0),
        ),
        needs_no_escape(files.outcome(path)->Ok_0) ==> expand_files(
            seq!['f', 'i', 'l', 'e', ':'] + path,
            files,
        ) == Ok::<Seq<char>, Seq<char>>(files.outcome(path)->Ok_0),
{
    if needs_no_escape(files.outcome(path)->Ok_0) {
        lemma_escape_plain(files.outcome(path)->Ok_0);
    }
    let s = seq!['f', 'i', 'l', 'e', ':'] + path;
    assert forall|j: int| 5 <= j < s.len() implies #[trigger] in_class(CharClass::Bare, s[j]) by {
        assert(s[j] == path[j - 5]);
        assert(in_class(CharClass::Bare, path[j - 5]));
    }
    assert forall|j: int| 5 <= j < s.len() implies #[trigger] in_class(CharClass::Path, s[j]) by {
        assert(in_class(CharClass::Bare, s[j]));
    }
    lemma_run_of(s, 5, path.len() as int, CharClass::Path);
    lemma_run_of(s, 5, path.len() as int, CharClass::Bare);
    assert forall|j: int| 0 <= j < s.len() implies #[trigger] token_at(TokenKind::FileFallback, s, j)
        is None by {
        if j > 0 && j + 5 <= s.len() {
            assert(s[j + 4] == path[j - 1]);
            assert(in_class(CharClass::Bare, path[j - 1]));
        }
    }
    lemma_scan_none(TokenKind::FileFallback, s, 0);
    assert(substitute_file_fallbacks(s, s, Seq::<crate::token::Found>::empty(), files) == s);
    assert(expand_file_fallbacks(s, files) == s);
    let f = token_at(TokenKind::FileSimple, s, 0)->0;
    assert(token_at(TokenKind::FileSimple, s, 0) is Some);
    assert(f.end == s.len());
    assert(scan(TokenKind::FileSimple, s, s.len() as int) == Seq::<crate::token::Found>::empty());
    assert(scan(TokenKind::FileSimple, s, 0) =~= seq![f]);
    assert(s.subrange(f.key_start, f.key_end) =~= path);
    assert(s.subrange(f.start, f.end) =~= s);
    assert(seq![f].drop_last() =~= Seq::<crate::token::Found>::empty());
    assert(whole(s, f) == s);
    assert(key_of(s, f) == path);
    assert(substitute_files(s, s, seq![f].drop_last(), files) == Ok::<Seq<char>, Seq<char>>(s));
    lemma_replace_whole(s, escaped(files.outcome(path)->Ok_0));
}

} // verus!
