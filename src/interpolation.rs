use vstd::prelude::*;

use crate::env::{default_of, expand_env, expand_env_variables, key_of, whole, Environment};
use crate::text::{chars_of, concat3, push_all, replace_all, replace_all_chars, slice, string_of};
use crate::token::{
    lemma_scan_placed, placed, scan, scan_tokens, spans_view, Found, Span, TokenKind,
};

verus! {

broadcast use vstd::seq::group_seq_axioms;

/// A snapshot of file reads: for each path that was read, its text or the reason
/// it could not be read.
#[derive(Clone, Debug)]
pub struct FileContents {
    files: Vec<(String, Result<String, String>)>,
}

/// The recorded read of `path` among `files`; a later record hides an earlier one.
pub open spec fn read_in(files: Seq<(String, Result<String, String>)>, path: Seq<char>) -> Option<
    Result<Seq<char>, Seq<char>>,
>
    decreases files.len(),
{
    if files.len() == 0 {
        None
    } else if files.last().0@ == path {
        Some(
            match files.last().1 {
                Ok(c) => Ok(c@),
                Err(e) => Err(e@),
            },
        )
    } else {
        read_in(files.drop_last(), path)
    }
}

impl FileContents {
    /// The recorded read of `path`, if it was read.
    pub closed spec fn read(&self, path: Seq<char>) -> Option<Result<Seq<char>, Seq<char>>> {
        read_in(self.files@, path)
    }

    /// What reading `path` gives: a path that was not read reads as an error
    /// with an empty reason.
    pub open spec fn outcome(&self, path: Seq<char>) -> Result<Seq<char>, Seq<char>> {
        match self.read(path) {
            Some(o) => o,
            None => Err(Seq::empty()),
        }
    }

    /// A snapshot in which no file was read.
    pub fn new() -> (r: FileContents)
        ensures
            forall|path: Seq<char>| #[trigger] r.read(path) is None,
    {
        FileContents { files: Vec::new() }
    }

    /// Records the read of `path`.
    pub fn record(&mut self, path: &str, outcome: Result<String, String>)
        ensures
            final(self).read(path@) == Some(
                match outcome {
                    Ok(c) => Ok::<Seq<char>, Seq<char>>(c@),
                    Err(e) => Err::<Seq<char>, Seq<char>>(e@),
                },
            ),
            forall|other: Seq<char>|
                other != path@ ==> #[trigger] final(self).read(other) == old(self).read(other),
    {
        let p = path.to_owned();
        self.files.push((p, outcome));
        proof {
            assert(self.files@.drop_last() =~= old(self).files@);
        }
    }

    /// This snapshot with the read of `path` recorded.
    pub fn with(self, path: &str, outcome: Result<String, String>) -> (r: FileContents)
        ensures
            r.read(path@) == Some(
                match outcome {
                    Ok(c) => Ok::<Seq<char>, Seq<char>>(c@),
                    Err(e) => Err::<Seq<char>, Seq<char>>(e@),
                },
            ),
            forall|other: Seq<char>| other != path@ ==> #[trigger] r.read(other) == self.read(other),
    {
        let mut f = self;
        f.record(path, outcome);
        f
    }

    /// Whether `path` was read.
    pub fn contains(&self, path: &String) -> (r: bool)
        ensures
            r == self.read(path@) is Some,
    {
        self.get(path).is_some()
    }

    /// The recorded read of `path`.
    pub fn get(&self, path: &String) -> (r: Option<&Result<String, String>>)
        ensures
            match r {
                Some(o) => self.read(path@) == Some(
                    match *o {
                        Ok(c) => Ok::<Seq<char>, Seq<char>>(c@),
                        Err(e) => Err::<Seq<char>, Seq<char>>(e@),
                    },
                ),
                None => self.read(path@) is None,
            },
    {
        let mut k = self.files.len();
        proof {
            assert(self.files@.take(k as int) =~= self.files@);
        }
        while k > 0
            invariant
                k <= self.files@.len(),
                read_in(self.files@.take(k as int), path@) == read_in(self.files@, path@),
            decreases k,
        {
            let ghost pre = self.files@.take(k as int);
            proof {
                assert(pre.drop_last() =~= self.files@.take(k - 1));
            }
            if self.files[k - 1].0 == *path {
                return Some(&self.files[k - 1].1);
            }
            k -= 1;
        }
        proof {
            assert(self.files@.take(k as int) =~= self.files@.take(0));
        }
        None
    }

    fn outcome_chars(&self, path: &Vec<char>) -> (r: Result<Vec<char>, Vec<char>>)
        ensures
            match r {
                Ok(c) => self.outcome(path@) == Ok::<Seq<char>, Seq<char>>(c@),
                Err(e) => self.outcome(path@) == Err::<Seq<char>, Seq<char>>(e@),
            },
    {
        let p = string_of(path);
        match self.get(&p) {
            Some(Ok(c)) => Ok(chars_of(c.as_str())),
            Some(Err(e)) => Err(chars_of(e.as_str())),
            None => Err(Vec::new()),
        }
    }
}

/// The hexadecimal digit for `n`, in upper case.
pub open spec fn hex_digit(n: u32) -> char {
    match n {
        0 => '0',
        1 => '1',
        2 => '2',
        3 => '3',
        4 => '4',
        5 => '5',
        6 => '6',
        7 => '7',
        8 => '8',
        9 => '9',
        10 => 'A',
        11 => 'B',
        12 => 'C',
        13 => 'D',
        14 => 'E',
        _ => 'F',
    }
}

/// A character that a TOML basic string cannot hold as it is: a control
/// character other than tab.
pub open spec fn is_control(c: char) -> bool {
    ((c as u32) <= 0x1F && c != '\t') || c == '\x7F'
}

/// How one character is written inside a TOML basic string.
pub open spec fn escape_char(c: char) -> Seq<char> {
    if c == '"' {
        seq!['\\', '"']
    } else if c == '\\' {
        seq!['\\', '\\']
    } else if c == '\x08' {
        seq!['\\', 'b']
    } else if c == '\t' {
        seq!['\\', 't']
    } else if c == '\n' {
        seq!['\\', 'n']
    } else if c == '\x0C' {
        seq!['\\', 'f']
    } else if c == '\r' {
        seq!['\\', 'r']
    } else if is_control(c) {
        seq!['\\', 'u', '0', '0', hex_digit((c as u32) / 16), hex_digit((c as u32) % 16)]
    } else {
        seq![c]
    }
}

/// The text of `c` escaped so that it can stand inside a TOML basic
/// (double-quoted) string: `"` and `\` and control characters are escaped,
/// everything else is kept.
pub open spec fn escaped(c: Seq<char>) -> Seq<char>
    decreases c.len(),
{
    if c.len() == 0 {
        Seq::empty()
    } else {
        escape_char(c[0]) + escaped(c.skip(1))
    }
}

/// The character that the escape `\d` stands for, for the one-letter escapes.
pub open spec fn simple_escape(d: char) -> Option<char> {
    if d == '"' {
        Some('"')
    } else if d == '\\' {
        Some('\\')
    } else if d == 'b' {
        Some('\x08')
    } else if d == 't' {
        Some('\t')
    } else if d == 'n' {
        Some('\n')
    } else if d == 'f' {
        Some('\x0C')
    } else if d == 'r' {
        Some('\r')
    } else {
        None
    }
}

/// The value of a hexadecimal digit.
pub open spec fn hex_value(d: char) -> Option<u32> {
    if '0' <= d && d <= '9' {
        Some((d as u32 - '0' as u32) as u32)
    } else if 'A' <= d && d <= 'F' {
        Some((d as u32 - 'A' as u32 + 10) as u32)
    } else if 'a' <= d && d <= 'f' {
        Some((d as u32 - 'a' as u32 + 10) as u32)
    } else {
        None
    }
}

/// The value of four hexadecimal digits.
pub open spec fn hex4(e: Seq<char>) -> Option<u32> {
    match (hex_value(e[0]), hex_value(e[1]), hex_value(e[2]), hex_value(e[3])) {
        (Some(a), Some(b), Some(c), Some(d)) => Some((a * 4096 + b * 256 + c * 16 + d) as u32),
        _ => None,
    }
}

/// What the text between the quotes of a TOML basic string stands for, read
/// left to right: `\"`, `\\`, `\b`, `\t`, `\n`, `\f`, `\r` and `\uXXXX` are
/// escapes; a bare `"` or control character, or any other backslash, is not
/// well-formed.
pub open spec fn unescape(e: Seq<char>) -> Option<Seq<char>>
    decreases e.len(),
{
    if e.len() == 0 {
        Some(Seq::empty())
    } else if e[0] == '\\' {
        if e.len() < 2 {
            None
        } else {
            match simple_escape(e[1]) {
                Some(c) => match unescape(e.skip(2)) {
                    Some(r) => Some(seq![c] + r),
                    None => None,
                },
                None => if e[1] == 'u' && e.len() >= 6 {
                    match hex4(e.subrange(2, 6)) {
                        Some(v) => if v < 0xD800 || v > 0xDFFF {
                            match unescape(e.skip(6)) {
                                Some(r) => Some(seq![v as char] + r),
                                None => None,
                            }
                        } else {
                            None
                        },
                        None => None,
                    }
                } else {
                    None
                },
            }
        }
    } else if e[0] == '"' || is_control(e[0]) {
        None
    } else {
        match unescape(e.skip(1)) {
            Some(r) => Some(seq![e[0]] + r),
            None => None,
        }
    }
}

fn hex_digit_exec(n: u32) -> (r: char)
    ensures
        r == hex_digit(n),
{
    match n {
        0 => '0',
        1 => '1',
        2 => '2',
        3 => '3',
        4 => '4',
        5 => '5',
        6 => '6',
        7 => '7',
        8 => '8',
        9 => '9',
        10 => 'A',
        11 => 'B',
        12 => 'C',
        13 => 'D',
        14 => 'E',
        _ => 'F',
    }
}

/// Appends how `c` is written inside a TOML basic string.
fn push_escaped(out: &mut Vec<char>, c: char)
    ensures
        final(out)@ == old(out)@ + escape_char(c),
{
    let v = c as u32;
    if c == '"' {
        out.push('\\');
        out.push('"');
    } else if c == '\\' {
        out.push('\\');
        out.push('\\');
    } else if c == '\x08' {
        out.push('\\');
        out.push('b');
    } else if c == '\t' {
        out.push('\\');
        out.push('t');
    } else if c == '\n' {
        out.push('\\');
        out.push('n');
    } else if c == '\x0C' {
        out.push('\\');
        out.push('f');
    } else if c == '\r' {
        out.push('\\');
        out.push('r');
    } else if (v <= 0x1F && c != '\t') || c == '\x7F' {
        out.push('\\');
        out.push('u');
        out.push('0');
        out.push('0');
        out.push(hex_digit_exec(v / 16));
        out.push(hex_digit_exec(v % 16));
    } else {
        out.push(c);
    }
    proof {
        assert(final(out)@ =~= old(out)@ + escape_char(c));
    }
}

fn escape_chars(c: &Vec<char>) -> (r: Vec<char>)
    ensures
        r@ == escaped(c@),
{
    let mut out: Vec<char> = Vec::new();
    let mut i: usize = 0;
    proof {
        assert(c@.skip(0) =~= c@);
    }
    while i < c.len()
        invariant
            i <= c@.len(),
            out@ + escaped(c@.skip(i as int)) == escaped(c@),
        decreases c.len() - i,
    {
        proof {
            assert(c@.skip(i as int).skip(1) =~= c@.skip(i + 1));
            assert(out@ + escape_char(c@[i as int]) + escaped(c@.skip(i + 1)) =~= out@ + escaped(
                c@.skip(i as int),
            ));
        }
        push_escaped(&mut out, c[i]);
        i += 1;
    }
    proof {
        assert(c@.skip(i as int) =~= Seq::<char>::empty());
        assert(out@ + Seq::<char>::empty() =~= out@);
    }
    out
}

/// Escapes `s` for a TOML basic (double-quoted) string: `"` and `\` become
/// `\"` and `\\`; backspace, tab, newline, form feed and carriage return
/// become `\b`, `\t`, `\n`, `\f` and `\r`; other control characters become
/// `\u00XX`; everything else is kept.
pub fn escape_toml_string(s: &str) -> (r: String)
    ensures
        r@ == escaped(s@),
        unescape(r@) == Some(s@),
{
    proof {
        lemma_escape_round_trip(s@);
    }
    string_of(&escape_chars(&chars_of(s)))
}

/// No character of `c` needs escaping in a TOML basic string: no quote,
/// backslash, tab or other control character.
pub open spec fn needs_no_escape(c: Seq<char>) -> bool {
    forall|i: int| 0 <= i < c.len() ==> !(#[trigger] c[i] == '"' || c[i] == '\\' || c[i] == '\t' || is_control(c[i]))
}

/// Text without quotes, backslashes or control characters escapes to itself.
pub proof fn lemma_escape_plain(c: Seq<char>)
    requires
        needs_no_escape(c),
    ensures
        escaped(c) == c,
    decreases c.len(),
{
    if c.len() > 0 {
        assert(needs_no_escape(c.skip(1))) by {
            assert forall|i: int| 0 <= i < c.skip(1).len() implies !(#[trigger] c.skip(1)[i] == '"'
                || c.skip(1)[i] == '\\' || c.skip(1)[i] == '\t' || is_control(c.skip(1)[i])) by {
                assert(c.skip(1)[i] == c[i + 1]);
            }
        }
        lemma_escape_plain(c.skip(1));
        assert(!(c[0] == '"' || c[0] == '\\' || c[0] == '\t' || is_control(c[0])));
        assert(seq![c[0]] + c.skip(1) =~= c);
    }
}

/// A control character is the character of its own code.
proof fn lemma_control_code(c: char)
    requires
        is_control(c),
    ensures
        ((c as u32) as char) == c,
        (c as u32) < 0xD800,
{
}

/// Escaping round-trips: the escaped text, read back as the inside of a TOML
/// basic string, is the text itself.
pub proof fn lemma_escape_round_trip(s: Seq<char>)
    ensures
        unescape(escaped(s)) == Some(s),
    decreases s.len(),
{
    if s.len() > 0 {
        let c = s[0];
        let rest = s.skip(1);
        lemma_escape_round_trip(rest);
        let er = escaped(rest);
        let e = escape_char(c) + er;
        assert(escaped(s) == e);
        if c == '"' || c == '\\' || c == '\x08' || c == '\t' || c == '\n' || c == '\x0C' || c == '\r' {
            assert(e.skip(2) =~= er);
        } else if is_control(c) {
            assert(e.skip(6) =~= er);
            let v = c as u32;
            assert(e.subrange(2, 6) =~= seq!['0', '0', hex_digit(v / 16), hex_digit(v % 16)]);
            assert(hex4(e.subrange(2, 6)) == Some(v)) by {
                assert(v / 16 <= 7);
            }
            lemma_control_code(c);
        } else {
            assert(e.skip(1) =~= er);
        }
        assert(s =~= seq![c] + rest);
    }
}

/// What `file:PATH:DEFAULT` becomes: the escaped text of the file, or else the default.
pub open spec fn file_fallback_value(files: FileContents, s: Seq<char>, f: Found) -> Seq<char> {
    match files.outcome(key_of(s, f)) {
        Ok(c) => escaped(c),
        Err(_) => default_of(s, f),
    }
}

/// The error for a `file:PATH` that could not be read.
pub open spec fn unreadable_message(path: Seq<char>, reason: Seq<char>) -> Seq<char> {
    "Failed to read file '"@ + path + "': "@ + reason
}

/// `r` after each `file:PATH:DEFAULT` of `toks` (found in `s`), in order, has had
/// every occurrence of its text replaced by its value.
pub open spec fn substitute_file_fallbacks(
    r: Seq<char>,
    s: Seq<char>,
    toks: Seq<Found>,
    files: FileContents,
) -> Seq<char>
    decreases toks.len(),
{
    if toks.len() == 0 {
        r
    } else {
        let f = toks.last();
        replace_all(
            substitute_file_fallbacks(r, s, toks.drop_last(), files),
            whole(s, f),
            file_fallback_value(files, s, f),
        )
    }
}

/// `r` after each `file:PATH` of `toks` (found in `s`), in order, has had every
/// occurrence of its text replaced by the escaped text of the file; the first one
/// that cannot be read is the error.
pub open spec fn substitute_files(
    r: Seq<char>,
    s: Seq<char>,
    toks: Seq<Found>,
    files: FileContents,
) -> Result<Seq<char>, Seq<char>>
    decreases toks.len(),
{
    if toks.len() == 0 {
        Ok(r)
    } else {
        let f = toks.last();
        match substitute_files(r, s, toks.drop_last(), files) {
            Err(e) => Err(e),
            Ok(p) => match files.outcome(key_of(s, f)) {
                Ok(c) => Ok(replace_all(p, whole(s, f), escaped(c))),
                Err(e) => Err(unreadable_message(key_of(s, f), e)),
            },
        }
    }
}

/// The text after its `file:PATH:DEFAULT` references have been substituted.
pub open spec fn expand_file_fallbacks(s: Seq<char>, files: FileContents) -> Seq<char> {
    substitute_file_fallbacks(s, s, scan(TokenKind::FileFallback, s, 0), files)
}

/// The text after `file:PATH:DEFAULT`, then `file:PATH` references, are
/// substituted from `files`.
pub open spec fn expand_files(s: Seq<char>, files: FileContents) -> Result<Seq<char>, Seq<char>> {
    let r = expand_file_fallbacks(s, files);
    substitute_files(r, r, scan(TokenKind::FileSimple, r, 0), files)
}

/// The whole interpolation: environment references first, then file references
/// in what that gave.
pub open spec fn interpolation(s: Seq<char>, env: Environment, files: FileContents) -> Result<
    Seq<char>,
    Seq<char>,
> {
    match expand_env(s, env) {
        Ok(t) => expand_files(t, files),
        Err(e) => Err(e),
    }
}


fn substitute_file_fallbacks_exec(s: &Vec<char>, toks: &Vec<Span>, files: &FileContents) -> (r:
    Vec<char>)
    requires
        forall|k: int| 0 <= k < toks@.len() ==> placed(#[trigger] toks@[k]@, s@.len() as int),
    ensures
        r@ == substitute_file_fallbacks(s@, s@, spans_view(toks@), *files),
{
    let mut out = s.clone();
    let mut k: usize = 0;
    proof {
        assert(spans_view(toks@).take(0) =~= Seq::<Found>::empty());
    }
    while k < toks.len()
        invariant
            k <= toks@.len(),
            forall|m: int| 0 <= m < toks@.len() ==> placed(#[trigger] toks@[m]@, s@.len() as int),
            out@ == substitute_file_fallbacks(s@, s@, spans_view(toks@).take(k as int), *files),
        decreases toks.len() - k,
    {
        let sp = toks[k];
        proof {
            assert(toks@[k as int]@ == sp@);
        }
        let text = slice(s, sp.start, sp.end);
        let path = slice(s, sp.key_start, sp.key_end);
        let rep = match files.outcome_chars(&path) {
            Ok(c) => escape_chars(&c),
            Err(_) => slice(s, sp.default_start, sp.default_end),
        };
        out = replace_all_chars(&out, &text, &rep);
        proof {
            let t = spans_view(toks@).take(k + 1);
            assert(t.drop_last() =~= spans_view(toks@).take(k as int));
            assert(t.last() == sp@);
        }
        k += 1;
    }
    proof {
        assert(spans_view(toks@).take(k as int) =~= spans_view(toks@));
    }
    out
}

/// Once a prefix of the references fails, every longer prefix fails the same way.
proof fn lemma_file_error_stays(s: Seq<char>, toks: Seq<Found>, files: FileContents, k: int)
    requires
        0 <= k <= toks.len(),
        substitute_files(s, s, toks.take(k), files) is Err,
    ensures
        substitute_files(s, s, toks.take(toks.len() as int), files) == substitute_files(
            s,
            s,
            toks.take(k),
            files,
        ),
    decreases toks.len() - k,
{
    if k < toks.len() {
        assert(toks.take(k + 1).drop_last() =~= toks.take(k));
        lemma_file_error_stays(s, toks, files, k + 1);
    }
}

fn substitute_files_exec(s: &Vec<char>, toks: &Vec<Span>, files: &FileContents) -> (r: Result<
    Vec<char>,
    Vec<char>,
>)
    requires
        forall|k: int| 0 <= k < toks@.len() ==> placed(#[trigger] toks@[k]@, s@.len() as int),
    ensures
        match r {
            Ok(v) => substitute_files(s@, s@, spans_view(toks@), *files) == Ok::<Seq<char>, Seq<char>>(v@),
            Err(e) => substitute_files(s@, s@, spans_view(toks@), *files) == Err::<Seq<char>, Seq<char>>(e@),
        },
{
    let mut out = s.clone();
    let mut k: usize = 0;
    proof {
        assert(spans_view(toks@).take(0) =~= Seq::<Found>::empty());
    }
    while k < toks.len()
        invariant
            k <= toks@.len(),
            forall|m: int| 0 <= m < toks@.len() ==> placed(#[trigger] toks@[m]@, s@.len() as int),
            substitute_files(s@, s@, spans_view(toks@).take(k as int), *files) == Ok::<Seq<char>, Seq<char>>(out@),
        decreases toks.len() - k,
    {
        let sp = toks[k];
        proof {
            assert(toks@[k as int]@ == sp@);
            let t = spans_view(toks@).take(k + 1);
            assert(t.drop_last() =~= spans_view(toks@).take(k as int));
            assert(t.last() == sp@);
        }
        let text = slice(s, sp.start, sp.end);
        let path = slice(s, sp.key_start, sp.key_end);
        match files.outcome_chars(&path) {
            Ok(c) => {
                let rep = escape_chars(&c);
                out = replace_all_chars(&out, &text, &rep);
            },
            Err(reason) => {
                let pre = chars_of("Failed to read file '");
                let mid = chars_of("': ");
                let mut msg = concat3(&pre, &path, &mid);
                push_all(&mut msg, &reason);
                proof {
                    lemma_file_error_stays(s@, spans_view(toks@), *files, k + 1);
                    assert(spans_view(toks@).take(toks@.len() as int) =~= spans_view(toks@));
                }
                return Err(msg);
            },
        }
        k += 1;
    }
    proof {
        assert(spans_view(toks@).take(k as int) =~= spans_view(toks@));
    }
    Ok(out)
}

fn expand_file_fallbacks_exec(s: &Vec<char>, files: &FileContents) -> (r: Vec<char>)
    ensures
        r@ == expand_file_fallbacks(s@, *files),
{
    let toks = scan_tokens(TokenKind::FileFallback, s);
    proof {
        lemma_scan_placed(TokenKind::FileFallback, s@, 0);
        assert forall|k: int| 0 <= k < toks@.len() implies placed(#[trigger] toks@[k]@, s@.len() as int) by {
            assert(spans_view(toks@)[k] == toks@[k]@);
        }
    }
    substitute_file_fallbacks_exec(s, &toks, files)
}

fn expand_files_exec(s: &Vec<char>, files: &FileContents) -> (r: Result<Vec<char>, Vec<char>>)
    ensures
        match r {
            Ok(v) => expand_files(s@, *files) == Ok::<Seq<char>, Seq<char>>(v@),
            Err(e) => expand_files(s@, *files) == Err::<Seq<char>, Seq<char>>(e@),
        },
{
    let r1 = expand_file_fallbacks_exec(s, files);
    let toks = scan_tokens(TokenKind::FileSimple, &r1);
    proof {
        lemma_scan_placed(TokenKind::FileSimple, r1@, 0);
        assert forall|k: int| 0 <= k < toks@.len() implies placed(#[trigger] toks@[k]@, r1@.len() as int) by {
            assert(spans_view(toks@)[k] == toks@[k]@);
        }
    }
    substitute_files_exec(&r1, &toks, files)
}

/// The paths of the references `toks` (found in `s`) that `files` has no read of,
/// in order.
pub open spec fn unread_paths(s: Seq<char>, toks: Seq<Found>, files: FileContents) -> Seq<
    Seq<char>,
>
    decreases toks.len(),
{
    if toks.len() == 0 {
        Seq::empty()
    } else {
        let rest = unread_paths(s, toks.drop_last(), files);
        let p = key_of(s, toks.last());
        if files.read(p) is None {
            rest.push(p)
        } else {
            rest
        }
    }
}

/// The files that interpolating `s` reads next and that `files` lacks: those of
/// `file:PATH:DEFAULT` references first; once all of those are read, those of
/// `file:PATH` references in the text they give.
pub open spec fn pending_reads(s: Seq<char>, env: Environment, files: FileContents) -> Seq<
    Seq<char>,
> {
    match expand_env(s, env) {
        Err(_) => Seq::empty(),
        Ok(t) => {
            let first = unread_paths(t, scan(TokenKind::FileFallback, t, 0), files);
            if first.len() > 0 {
                first
            } else {
                let r = expand_file_fallbacks(t, files);
                unread_paths(r, scan(TokenKind::FileSimple, r, 0), files)
            }
        },
    }
}

/// The models of a sequence of strings.
pub open spec fn strings_view(v: Seq<String>) -> Seq<Seq<char>> {
    v.map_values(|x: String| x@)
}

fn unread_paths_exec(s: &Vec<char>, toks: &Vec<Span>, files: &FileContents) -> (r: Vec<String>)
    requires
        forall|k: int| 0 <= k < toks@.len() ==> placed(#[trigger] toks@[k]@, s@.len() as int),
    ensures
        strings_view(r@) == unread_paths(s@, spans_view(toks@), *files),
{
    let mut out: Vec<String> = Vec::new();
    let mut k: usize = 0;
    proof {
        assert(spans_view(toks@).take(0) =~= Seq::<Found>::empty());
    }
    while k < toks.len()
        invariant
            k <= toks@.len(),
            forall|m: int| 0 <= m < toks@.len() ==> placed(#[trigger] toks@[m]@, s@.len() as int),
            strings_view(out@) == unread_paths(s@, spans_view(toks@).take(k as int), *files),
        decreases toks.len() - k,
    {
        let sp = toks[k];
        proof {
            assert(toks@[k as int]@ == sp@);
            let t = spans_view(toks@).take(k + 1);
            assert(t.drop_last() =~= spans_view(toks@).take(k as int));
            assert(t.last() == sp@);
        }
        let path = string_of(&slice(s, sp.key_start, sp.key_end));
        if !files.contains(&path) {
            let ghost before = strings_view(out@);
            out.push(path);
            proof {
                assert(strings_view(out@) =~= before.push(path@));
            }
        }
        k += 1;
    }
    proof {
        assert(spans_view(toks@).take(k as int) =~= spans_view(toks@));
    }
    out
}

/// Resolves the references in configuration text before it is parsed.
pub struct Interpolator;

impl Interpolator {
    /// Substitutes environment references in `content` (see
    /// `expand_env_variables`), then file references in the result: every
    /// `file:PATH:DEFAULT` becomes the escaped text of the file or else the
    /// default, then every `file:PATH` becomes the escaped text of the file, and
    /// the first that cannot be read is the error. No partial result is returned.
    pub fn interpolate(content: &str, env: &Environment, files: &FileContents) -> (r: Result<
        String,
        String,
    >)
        ensures
            match r {
                Ok(v) => interpolation(content@, *env, *files) == Ok::<Seq<char>, Seq<char>>(v@),
                Err(e) => interpolation(content@, *env, *files) == Err::<Seq<char>, Seq<char>>(e@),
            },
    {
        let expanded = Self::interpolate_env_variables(content, env)?;
        Self::interpolate_files(expanded.as_str(), files)
    }

    /// The files that interpolating `content` reads next and that `files` has no
    /// read of: those of `file:PATH:DEFAULT` references first and, once all of
    /// those are read, those of `file:PATH` references in the text they give.
    pub fn pending_reads(content: &str, env: &Environment, files: &FileContents) -> (r: Vec<String>)
        ensures
            strings_view(r@) == pending_reads(content@, *env, *files),
    {
        match expand_env_variables(content, env) {
            Err(_) => Vec::new(),
            Ok(t) => {
                let s = chars_of(t.as_str());
                let toks = scan_tokens(TokenKind::FileFallback, &s);
                proof {
                    lemma_scan_placed(TokenKind::FileFallback, s@, 0);
                    assert forall|k: int| 0 <= k < toks@.len() implies placed(
                        #[trigger] toks@[k]@,
                        s@.len() as int,
                    ) by {
                        assert(spans_view(toks@)[k] == toks@[k]@);
                    }
                }
                let first = unread_paths_exec(&s, &toks, files);
                if first.len() > 0 {
                    return first;
                }
                let r1 = substitute_file_fallbacks_exec(&s, &toks, files);
                let toks2 = scan_tokens(TokenKind::FileSimple, &r1);
                proof {
                    lemma_scan_placed(TokenKind::FileSimple, r1@, 0);
                    assert forall|k: int| 0 <= k < toks2@.len() implies placed(
                        #[trigger] toks2@[k]@,
                        r1@.len() as int,
                    ) by {
                        assert(spans_view(toks2@)[k] == toks2@[k]@);
                    }
                }
                unread_paths_exec(&r1, &toks2, files)
            },
        }
    }

    /// The environment phase alone.
    pub fn interpolate_env_variables(content: &str, env: &Environment) -> (r: Result<String, String>)
        ensures
            match r {
                Ok(v) => expand_env(content@, *env) == Ok::<Seq<char>, Seq<char>>(v@),
                Err(e) => expand_env(content@, *env) == Err::<Seq<char>, Seq<char>>(e@),
            },
    {
        expand_env_variables(content, env)
    }

    /// The file phase alone.
    pub fn interpolate_files(content: &str, files: &FileContents) -> (r: Result<String, String>)
        ensures
            match r {
                Ok(v) => expand_files(content@, *files) == Ok::<Seq<char>, Seq<char>>(v@),
                Err(e) => expand_files(content@, *files) == Err::<Seq<char>, Seq<char>>(e@),
            },
    {
        let s = chars_of(content);
        match expand_files_exec(&s, files) {
            Ok(v) => Ok(string_of(&v)),
            Err(e) => Err(string_of(&e)),
        }
    }
}

} // verus!
