use vstd::prelude::*;

verus! {

broadcast use vstd::seq::group_seq_axioms;

/// The characters that may form one part of a reference.
#[derive(Clone, Copy, PartialEq, Eq, Debug)]
pub enum CharClass {
    /// A variable name after its first letter: `[A-Za-z0-9_]`.
    Name,
    /// The path of `file:PATH:DEFAULT`: anything but `:`, quotes and whitespace.
    Path,
    /// The default of `file:PATH:DEFAULT` and the path of `file:PATH`: anything but
    /// `:`, quotes, a backquote, whitespace, `]` and `)`.
    Bare,
}

/// The four shapes of reference, in the order in which interpolation looks for them.
#[derive(Clone, Copy, PartialEq, Eq, Debug)]
pub enum TokenKind {
    /// `${NAME:DEFAULT}`
    EnvFallback,
    /// `${NAME}`
    EnvBraced,
    /// `file:PATH:DEFAULT`
    FileFallback,
    /// `file:PATH`
    FileSimple,
}

pub open spec fn is_name_start(c: char) -> bool {
    ('A' <= c && c <= 'Z') || ('a' <= c && c <= 'z') || c == '_'
}

pub open spec fn is_space(c: char) -> bool {
    c == ' ' || c == '\t' || c == '\n' || c == '\r' || c == '\x0B' || c == '\x0C'
}

pub open spec fn in_class(cls: CharClass, c: char) -> bool {
    match cls {
        CharClass::Name => is_name_start(c) || ('0' <= c && c <= '9'),
        CharClass::Path => !(c == ':' || c == '"' || c == '\'' || is_space(c)),
        CharClass::Bare => !(c == ':' || c == '"' || c == '\'' || c == '`' || c == ']' || c == ')'
            || is_space(c)),
    }
}

fn is_name_start_exec(c: char) -> (r: bool)
    ensures
        r == is_name_start(c),
{
    ('A' <= c && c <= 'Z') || ('a' <= c && c <= 'z') || c == '_'
}

fn in_class_exec(cls: CharClass, c: char) -> (r: bool)
    ensures
        r == in_class(cls, c),
{
    let space = c == ' ' || c == '\t' || c == '\n' || c == '\r' || c == '\x0B' || c == '\x0C';
    match cls {
        CharClass::Name => is_name_start_exec(c) || ('0' <= c && c <= '9'),
        CharClass::Path => !(c == ':' || c == '"' || c == '\'' || space),
        CharClass::Bare => !(c == ':' || c == '"' || c == '\'' || c == '`' || c == ']' || c == ')'
            || space),
    }
}

/// The end of the longest run of characters of class `cls` that starts at `i`.
pub open spec fn run_end(s: Seq<char>, i: int, cls: CharClass) -> int
    decreases s.len() - i,
{
    if 0 <= i < s.len() && in_class(cls, s[i]) {
        run_end(s, i + 1, cls)
    } else {
        i
    }
}

/// The first position at or after `j` that holds `ch`, or the length of `s`.
pub open spec fn find_char(s: Seq<char>, j: int, ch: char) -> int
    decreases s.len() - j,
{
    if 0 <= j < s.len() && s[j] != ch {
        find_char(s, j + 1, ch)
    } else if 0 <= j < s.len() {
        j
    } else {
        s.len() as int
    }
}

/// Where a reference was found: the whole of it is `start..end`; the name or path
/// is `key_start..key_end`; the default, where the shape has one, is
/// `default_start..default_end`.
pub ghost struct Found {
    pub start: int,
    pub end: int,
    pub key_start: int,
    pub key_end: int,
    pub default_start: int,
    pub default_end: int,
}

/// A found reference, as positions in the scanned text.
#[derive(Clone, Copy, Debug)]
pub struct Span {
    pub start: usize,
    pub end: usize,
    pub key_start: usize,
    pub key_end: usize,
    pub default_start: usize,
    pub default_end: usize,
}

impl View for Span {
    type V = Found;

    open spec fn view(&self) -> Found {
        Found {
            start: self.start as int,
            end: self.end as int,
            key_start: self.key_start as int,
            key_end: self.key_end as int,
            default_start: self.default_start as int,
            default_end: self.default_end as int,
        }
    }
}

pub open spec fn has_file_prefix(s: Seq<char>, i: int) -> bool {
    0 <= i && i + 5 <= s.len() && s[i] == 'f' && s[i + 1] == 'i' && s[i + 2] == 'l' && s[i + 3]
        == 'e' && s[i + 4] == ':'
}

pub open spec fn has_env_prefix(s: Seq<char>, i: int) -> bool {
    0 <= i && i + 2 < s.len() && s[i] == '$' && s[i + 1] == '{' && is_name_start(s[i + 2])
}

/// The reference of shape `kind` that starts at position `i` of `s`, if one does.
pub open spec fn token_at(kind: TokenKind, s: Seq<char>, i: int) -> Option<Found> {
    match kind {
        TokenKind::EnvFallback => {
            let n = run_end(s, i + 2, CharClass::Name);
            let c = find_char(s, n + 1, '}');
            if has_env_prefix(s, i) && n < s.len() && s[n] == ':' && c < s.len() {
                Some(
                    Found {
                        start: i,
                        end: c + 1,
                        key_start: i + 2,
                        key_end: n,
                        default_start: n + 1,
                        default_end: c,
                    },
                )
            } else {
                None
            }
        },
        TokenKind::EnvBraced => {
            let n = run_end(s, i + 2, CharClass::Name);
            if has_env_prefix(s, i) && n < s.len() && s[n] == '}' {
                Some(
                    Found {
                        start: i,
                        end: n + 1,
                        key_start: i + 2,
                        key_end: n,
                        default_start: n,
                        default_end: n,
                    },
                )
            } else {
                None
            }
        },
        TokenKind::FileFallback => {
            let p = run_end(s, i + 5, CharClass::Path);
            let d = run_end(s, p + 1, CharClass::Bare);
            if has_file_prefix(s, i) && p > i + 5 && p < s.len() && s[p] == ':' && d > p + 1 {
                Some(
                    Found {
                        start: i,
                        end: d,
                        key_start: i + 5,
                        key_end: p,
                        default_start: p + 1,
                        default_end: d,
                    },
                )
            } else {
                None
            }
        },
        TokenKind::FileSimple => {
            let e = run_end(s, i + 5, CharClass::Bare);
            if has_file_prefix(s, i) && e > i + 5 {
                Some(
                    Found {
                        start: i,
                        end: e,
                        key_start: i + 5,
                        key_end: e,
                        default_start: e,
                        default_end: e,
                    },
                )
            } else {
                None
            }
        },
    }
}

/// The references of shape `kind` in `s` from position `i` on: the leftmost one,
/// then the leftmost after its end, and so on.
pub open spec fn scan(kind: TokenKind, s: Seq<char>, i: int) -> Seq<Found>
    decreases s.len() - i,
{
    if 0 <= i < s.len() {
        match token_at(kind, s, i) {
            Some(f) => if i < f.end <= s.len() {
                seq![f] + scan(kind, s, f.end)
            } else {
                Seq::empty()
            },
            None => scan(kind, s, i + 1),
        }
    } else {
        Seq::empty()
    }
}

/// The positions of a found reference lie in order inside the text.
pub open spec fn placed(f: Found, len: int) -> bool {
    0 <= f.start < f.key_start <= f.key_end <= f.default_start <= f.default_end <= f.end <= len
}

proof fn lemma_run_end(s: Seq<char>, i: int, cls: CharClass)
    requires
        0 <= i <= s.len(),
    ensures
        i <= run_end(s, i, cls) <= s.len(),
    decreases s.len() - i,
{
    if i < s.len() && in_class(cls, s[i]) {
        lemma_run_end(s, i + 1, cls);
    }
}

proof fn lemma_find_char(s: Seq<char>, j: int, ch: char)
    requires
        0 <= j <= s.len(),
    ensures
        j <= find_char(s, j, ch) <= s.len(),
    decreases s.len() - j,
{
    if j < s.len() && s[j] != ch {
        lemma_find_char(s, j + 1, ch);
    }
}

proof fn lemma_token_at_placed(kind: TokenKind, s: Seq<char>, i: int)
    requires
        0 <= i < s.len(),
    ensures
        token_at(kind, s, i) matches Some(f) ==> placed(f, s.len() as int) && f.start == i,
{
    if has_env_prefix(s, i) {
        lemma_run_end(s, i + 2, CharClass::Name);
        let n = run_end(s, i + 2, CharClass::Name);
        if n < s.len() {
            lemma_find_char(s, n + 1, '}');
        }
    }
    if has_file_prefix(s, i) {
        lemma_run_end(s, i + 5, CharClass::Path);
        lemma_run_end(s, i + 5, CharClass::Bare);
        let p = run_end(s, i + 5, CharClass::Path);
        if p < s.len() {
            lemma_run_end(s, p + 1, CharClass::Bare);
        }
    }
}

/// Every reference that `scan` finds lies inside the text, at or after `i`.
pub proof fn lemma_scan_placed(kind: TokenKind, s: Seq<char>, i: int)
    requires
        0 <= i,
    ensures
        forall|k: int|
            0 <= k < scan(kind, s, i).len() ==> placed(#[trigger] scan(kind, s, i)[k], s.len() as int)
                && scan(kind, s, i)[k].start >= i,
    decreases s.len() - i,
{
    if 0 <= i < s.len() {
        lemma_token_at_placed(kind, s, i);
        match token_at(kind, s, i) {
            Some(f) => if i < f.end <= s.len() {
                lemma_scan_placed(kind, s, f.end);
                assert(scan(kind, s, i) == seq![f] + scan(kind, s, f.end));
                assert forall|k: int| 0 <= k < scan(kind, s, i).len() implies placed(
                    #[trigger] scan(kind, s, i)[k],
                    s.len() as int,
                ) && scan(kind, s, i)[k].start >= i by {
                    if k > 0 {
                        assert(scan(kind, s, i)[k] == scan(kind, s, f.end)[k - 1]);
                    } else {
                        assert(scan(kind, s, i)[k] == f);
                    }
                }
            },
            None => {
                lemma_scan_placed(kind, s, i + 1);
                assert(scan(kind, s, i) == scan(kind, s, i + 1));
            },
        }
    }
}


fn run_end_exec(s: &Vec<char>, i: usize, cls: CharClass) -> (r: usize)
    requires
        i <= s@.len(),
    ensures
        r == run_end(s@, i as int, cls),
{
    let mut j = i;
    while j < s.len() && in_class_exec(cls, s[j])
        invariant
            i <= j <= s@.len(),
            run_end(s@, j as int, cls) == run_end(s@, i as int, cls),
        decreases s.len() - j,
    {
        j += 1;
    }
    j
}

fn find_char_exec(s: &Vec<char>, j: usize, ch: char) -> (r: usize)
    requires
        j <= s@.len(),
    ensures
        r == find_char(s@, j as int, ch),
{
    let mut k = j;
    while k < s.len() && s[k] != ch
        invariant
            j <= k <= s@.len(),
            find_char(s@, k as int, ch) == find_char(s@, j as int, ch),
        decreases s.len() - k,
    {
        k += 1;
    }
    k
}

fn has_file_prefix_exec(s: &Vec<char>, i: usize) -> (r: bool)
    requires
        i <= s@.len(),
    ensures
        r == has_file_prefix(s@, i as int),
{
    s.len() - i >= 5 && s[i] == 'f' && s[i + 1] == 'i' && s[i + 2] == 'l' && s[i + 3] == 'e' && s[i
        + 4] == ':'
}

fn has_env_prefix_exec(s: &Vec<char>, i: usize) -> (r: bool)
    requires
        i <= s@.len(),
    ensures
        r == has_env_prefix(s@, i as int),
{
    s.len() - i > 2 && s[i] == '$' && s[i + 1] == '{' && is_name_start_exec(s[i + 2])
}

/// The reference of shape `kind` that starts at position `i` of `s`, if one does.
pub fn token_at_exec(kind: TokenKind, s: &Vec<char>, i: usize) -> (r: Option<Span>)
    requires
        i < s@.len(),
    ensures
        match r {
            Some(sp) => token_at(kind, s@, i as int) == Some(sp@),
            None => token_at(kind, s@, i as int) is None,
        },
{
    proof {
        lemma_token_at_placed(kind, s@, i as int);
    }
    let len = s.len();
    assert(len == s@.len());
    match kind {
        TokenKind::EnvFallback | TokenKind::EnvBraced => {
            if !has_env_prefix_exec(s, i) {
                return None;
            }
            let n = run_end_exec(s, i + 2, CharClass::Name);
            proof {
                lemma_run_end(s@, i + 2, CharClass::Name);
            }
            if n >= s.len() {
                return None;
            }
            match kind {
                TokenKind::EnvFallback => {
                    if s[n] != ':' {
                        return None;
                    }
                    let c = find_char_exec(s, n + 1, '}');
                    if c >= s.len() {
                        return None;
                    }
                    Some(
                        Span {
                            start: i,
                            end: c + 1,
                            key_start: i + 2,
                            key_end: n,
                            default_start: n + 1,
                            default_end: c,
                        },
                    )
                },
                _ => {
                    if s[n] != '}' {
                        return None;
                    }
                    Some(
                        Span {
                            start: i,
                            end: n + 1,
                            key_start: i + 2,
                            key_end: n,
                            default_start: n,
                            default_end: n,
                        },
                    )
                },
            }
        },
        TokenKind::FileFallback => {
            if !has_file_prefix_exec(s, i) {
                return None;
            }
            let p = run_end_exec(s, i + 5, CharClass::Path);
            proof {
                lemma_run_end(s@, i + 5, CharClass::Path);
            }
            if p <= i + 5 || p >= s.len() || s[p] != ':' {
                return None;
            }
            let d = run_end_exec(s, p + 1, CharClass::Bare);
            if d <= p + 1 {
                return None;
            }
            Some(
                Span {
                    start: i,
                    end: d,
                    key_start: i + 5,
                    key_end: p,
                    default_start: p + 1,
                    default_end: d,
                },
            )
        },
        TokenKind::FileSimple => {
            if !has_file_prefix_exec(s, i) {
                return None;
            }
            let e = run_end_exec(s, i + 5, CharClass::Bare);
            if e <= i + 5 {
                return None;
            }
            Some(Span { start: i, end: e, key_start: i + 5, key_end: e, default_start: e, default_end: e })
        },
    }
}

/// The models of a sequence of spans.
pub open spec fn spans_view(v: Seq<Span>) -> Seq<Found> {
    v.map_values(|sp: Span| sp@)
}

/// Every reference of shape `kind` in `s`, leftmost first, without overlap.
pub fn scan_tokens(kind: TokenKind, s: &Vec<char>) -> (r: Vec<Span>)
    ensures
        spans_view(r@) == scan(kind, s@, 0),
{
    let mut out: Vec<Span> = Vec::new();
    let mut i: usize = 0;
    while i < s.len()
        invariant
            i <= s@.len(),
            spans_view(out@) + scan(kind, s@, i as int) == scan(kind, s@, 0),
        decreases s.len() - i,
    {
        let ghost before = spans_view(out@);
        match token_at_exec(kind, s, i) {
            Some(sp) => {
                proof {
                    lemma_token_at_placed(kind, s@, i as int);
                }
                out.push(sp);
                proof {
                    assert(spans_view(out@) =~= before.push(sp@));
                    assert(before + scan(kind, s@, i as int) =~= spans_view(out@) + scan(
                        kind,
                        s@,
                        sp.end as int,
                    ));
                }
                i = sp.end;
            },
            None => {
                i += 1;
            },
        }
    }
    proof {
        assert(spans_view(out@) + Seq::<Found>::empty() =~= spans_view(out@));
    }
    out
}

} // verus!
