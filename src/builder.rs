use vstd::prelude::*;

use crate::config::Config;
use crate::env::{expand_env, Environment};
use crate::error::ConfigError;
use crate::interpolation::{
    interpolation, pending_reads, read_in, strings_view, FileContents, Interpolator,
};
use crate::value::{
    lemma_merge_into_empty, merge_all, merge_entries, merge_tables, unique_keys, Node, Table,
};

verus! {

/// One origin of configuration text.
#[derive(Debug)]
pub enum Source {
    /// A file; a missing required file fails the build, a missing optional one is skipped.
    File { path: String, required: bool },
    /// TOML text given directly.
    TomlString { content: String },
}

/// The model of a source.
pub ghost enum SourceView {
    File(Seq<char>, bool),
    Text(Seq<char>),
}

impl View for Source {
    type V = SourceView;

    open spec fn view(&self) -> SourceView {
        match self {
            Source::File { path, required } => SourceView::File(path@, *required),
            Source::TomlString { content } => SourceView::Text(content@),
        }
    }
}

/// The models of a sequence of sources.
pub open spec fn sources_view(v: Seq<Source>) -> Seq<SourceView> {
    v.map_values(|s: Source| s@)
}

/// Gathers sources in order; `build` hands them to a `Loader`.
#[derive(Debug)]
pub struct ConfigBuilder {
    sources: Vec<Source>,
}

impl ConfigBuilder {
    /// The sources added so far, in order.
    pub closed spec fn sources(&self) -> Seq<SourceView> {
        sources_view(self.sources@)
    }

    /// A builder with no sources.
    pub fn new() -> (r: ConfigBuilder)
        ensures
            r.sources() == Seq::<SourceView>::empty(),
    {
        let r = ConfigBuilder { sources: Vec::new() };
        proof {
            assert(r.sources() =~= Seq::<SourceView>::empty());
        }
        r
    }

    fn add(self, s: Source) -> (r: ConfigBuilder)
        ensures
            r.sources() == self.sources().push(s@),
    {
        let mut b = self;
        b.sources.push(s);
        proof {
            assert(b.sources() =~= self.sources().push(s@));
        }
        b
    }

    /// Adds an optional file source: skipped when the file does not exist.
    pub fn add_file(self, path: &str) -> (r: ConfigBuilder)
        ensures
            r.sources() == self.sources().push(SourceView::File(path@, false)),
    {
        self.add(Source::File { path: path.to_owned(), required: false })
    }

    /// Adds a required file source: the build fails when the file does not exist.
    pub fn add_required_file(self, path: &str) -> (r: ConfigBuilder)
        ensures
            r.sources() == self.sources().push(SourceView::File(path@, true)),
    {
        self.add(Source::File { path: path.to_owned(), required: true })
    }

    /// Adds TOML text as a source.
    pub fn add_toml_str(self, toml: &str) -> (r: ConfigBuilder)
        ensures
            r.sources() == self.sources().push(SourceView::Text(toml@)),
    {
        self.add(Source::TomlString { content: toml.to_owned() })
    }

    /// Ends the gathering: fails when no source was added, and otherwise hands the
    /// sources, in order, to a loader that reads environment variables from `env`.
    pub fn build(self, env: Environment) -> (r: Result<Loader, ConfigError>)
        ensures
            self.sources().len() == 0 <==> r matches Err(ConfigError::NoSourcesConfigured),
            self.sources().len() > 0 ==> (r matches Ok(l) && l.wf() && l.sources() == self.sources()
                && l.next() == 0 && l.stage() == Stage::Ready && l.merged() == Seq::<
                (Seq<char>, Node),
            >::empty() && l.env() == env && forall|p: Seq<char>| #[trigger] l.files().read(p) is None),
    {
        if self.sources.len() == 0 {
            return Err(ConfigError::NoSourcesConfigured);
        }
        Ok(
            Loader {
                sources: self.sources,
                next: 0,
                stage: Stage::Ready,
                env,
                files: FileContents::new(),
                merged: Table::new(),
            },
        )
    }
}

impl Default for ConfigBuilder {
    fn default() -> (r: ConfigBuilder)
        ensures
            r.sources() == Seq::<SourceView>::empty(),
    {
        ConfigBuilder::new()
    }
}

/// Where a loader stands.
#[derive(Debug)]
pub enum Stage {
    /// Not started.
    Ready,
    /// Waiting for the text of the current file source.
    AwaitSource,
    /// Waiting for file reads that interpolating this text needs.
    AwaitFiles(String),
    /// Waiting for the interpolated text to be parsed.
    AwaitParse,
    /// Done or failed; nothing more is accepted.
    Finished,
}

/// What a loader asks for next, or how loading ended.
#[derive(Debug)]
pub enum Step {
    /// Read the source file at `path`; answer with `SourceMissing`, `SourceText`
    /// or `SourceUnreadable`.
    ReadSource { path: String },
    /// Read each of these files; answer with `FilesRead`.
    ReadFiles { paths: Vec<String> },
    /// Parse this TOML text into a table; answer with `Parsed` or `ParseFailed`.
    Parse { text: String },
    /// Every source was loaded and merged.
    Done(Config),
    /// Loading failed; nothing was built.
    Failed(ConfigError),
}

/// The answer to a step.
#[derive(Debug)]
pub enum Event {
    /// The source file does not exist.
    SourceMissing,
    /// The text of the source file.
    SourceText(String),
    /// The source file exists but could not be read; the reason.
    SourceUnreadable(String),
    /// Each path asked for, with its text or the reason it could not be read.
    FilesRead(Vec<(String, Result<String, String>)>),
    /// The table that the text parsed into.
    Parsed(Table),
    /// The text is not well-formed TOML; the parser's message.
    ParseFailed(String),
}

/// Loads the sources of a builder one by one: read, interpolate, parse, merge.
/// The outside work is asked for by `Step`s and answered by `Event`s.
#[derive(Debug)]
pub struct Loader {
    sources: Vec<Source>,
    next: usize,
    stage: Stage,
    env: Environment,
    files: FileContents,
    merged: Table,
}

/// The read of `path` once the reads `list` are recorded on top of `files`.
pub open spec fn read_with(
    files: FileContents,
    list: Seq<(String, Result<String, String>)>,
    path: Seq<char>,
) -> Option<Result<Seq<char>, Seq<char>>> {
    match read_in(list, path) {
        Some(o) => Some(o),
        None => files.read(path),
    }
}

/// Whether `event` answers what a loader at `stage` waits for.
pub open spec fn accepts(stage: Stage, event: Event) -> bool {
    match stage {
        Stage::AwaitSource => event is SourceMissing || event is SourceText || event is SourceUnreadable,
        Stage::AwaitFiles(_) => event is FilesRead,
        Stage::AwaitParse => event is Parsed || event is ParseFailed,
        _ => false,
    }
}

/// `b` keeps the sources, environment and position given.
pub open spec fn kept(b: Loader, srcs: Seq<SourceView>, next: int, env: Environment) -> bool {
    b.sources() == srcs && b.next() == next && b.env() == env
}

/// What interpolating `text` gives, for a loader that held `files` and `merged`
/// and is now `b` with step `r`: the reads still missing, else the text to
/// parse, else the interpolation error.
pub open spec fn interpolated(
    env: Environment,
    files: FileContents,
    merged: Seq<(Seq<char>, Node)>,
    text: Seq<char>,
    b: Loader,
    r: Step,
) -> bool {
    let pending = pending_reads(text, env, files);
    b.files() == files && if pending.len() > 0 {
        (b.stage() matches Stage::AwaitFiles(t) && t@ == text) && b.merged() == merged
            && (r matches Step::ReadFiles { paths } && strings_view(paths@) == pending)
    } else {
        match interpolation(text, env, files) {
            Ok(t) => b.stage() == Stage::AwaitParse && b.merged() == merged
                && (r matches Step::Parse { text: p } && p@ == t),
            Err(m) => b.stage() == Stage::Finished
                && (r matches Step::Failed(ConfigError::InterpolationError { message }) && message@ == m),
        }
    }
}

/// What starting source `next` gives: the merged table once every source is
/// loaded, a request for a file source, or the interpolation of a text source.
pub open spec fn began(
    srcs: Seq<SourceView>,
    next: int,
    env: Environment,
    files: FileContents,
    merged: Seq<(Seq<char>, Node)>,
    b: Loader,
    r: Step,
) -> bool {
    kept(b, srcs, next, env) && if next >= srcs.len() {
        b.stage() == Stage::Finished && (r matches Step::Done(c) && c.table() == merged)
    } else {
        match srcs[next] {
            SourceView::File(p, _) => b.stage() == Stage::AwaitSource && b.files() == files
                && b.merged() == merged && (r matches Step::ReadSource { path } && path@ == p),
            SourceView::Text(c) => interpolated(env, files, merged, c, b, r),
        }
    }
}

/// What answering loader `a` with `event` gives: a missing required file fails,
/// a missing optional one is skipped, a file's text is interpolated, file reads
/// are recorded and interpolation goes on, a parsed table is merged and the next
/// source begins, and a read or parse failure ends loading.
pub open spec fn resumed(a: Loader, event: Event, b: Loader, r: Step) -> bool {
    let srcs = a.sources();
    let n = a.next();
    match event {
        Event::SourceMissing => match srcs[n] {
            SourceView::File(p, true) => kept(b, srcs, n, a.env())
                && b.stage() == Stage::Finished
                && (r matches Step::Failed(ConfigError::FileNotFound(q)) && q@ == p),
            _ => began(srcs, n + 1, a.env(), a.files(), a.merged(), b, r),
        },
        Event::SourceText(t) => kept(b, srcs, n, a.env()) && interpolated(
            a.env(),
            a.files(),
            a.merged(),
            t@,
            b,
            r,
        ),
        Event::SourceUnreadable(m) => kept(b, srcs, n, a.env())
            && b.stage() == Stage::Finished
            && (r matches Step::Failed(ConfigError::ReadError { message }) && message@ == m@),
        Event::FilesRead(list) => kept(b, srcs, n, a.env())
            && (forall|p: Seq<char>| #[trigger] b.files().read(p) == read_with(a.files(), list@, p))
            && (a.stage() matches Stage::AwaitFiles(text) && interpolated(
            a.env(),
            b.files(),
            a.merged(),
            text@,
            b,
            r,
        )),
        Event::Parsed(t) => began(
            srcs,
            n + 1,
            a.env(),
            a.files(),
            merge_entries(a.merged(), t@),
            b,
            r,
        ),
        Event::ParseFailed(m) => kept(b, srcs, n, a.env())
            && b.stage() == Stage::Finished
            && (r matches Step::Failed(ConfigError::DeserializeError { message }) && message@ == m@),
    }
}

impl Loader {
    pub closed spec fn sources(&self) -> Seq<SourceView> {
        sources_view(self.sources@)
    }

    /// The position of the source being loaded.
    pub closed spec fn next(&self) -> int {
        self.next as int
    }

    pub closed spec fn stage(&self) -> Stage {
        self.stage
    }

    pub closed spec fn env(&self) -> Environment {
        self.env
    }

    /// The file reads gathered so far.
    pub closed spec fn files(&self) -> FileContents {
        self.files
    }

    /// The model of what the loaded sources merged into.
    pub closed spec fn merged(&self) -> Seq<(Seq<char>, Node)> {
        self.merged@
    }

    /// A loader that waits for an answer is at one of its sources.
    pub closed spec fn wf(&self) -> bool {
        match self.stage {
            Stage::AwaitSource | Stage::AwaitFiles(_) | Stage::AwaitParse => self.next
                < self.sources@.len(),
            _ => true,
        }
    }

    /// Whether `event` answers what this loader waits for.
    pub fn accepts(&self, event: &Event) -> (r: bool)
        ensures
            r == accepts(self.stage(), *event),
    {
        match self.stage {
            Stage::AwaitSource => match event {
                Event::SourceMissing | Event::SourceText(_) | Event::SourceUnreadable(_) => true,
                _ => false,
            },
            Stage::AwaitFiles(_) => match event {
                Event::FilesRead(_) => true,
                _ => false,
            },
            Stage::AwaitParse => match event {
                Event::Parsed(_) | Event::ParseFailed(_) => true,
                _ => false,
            },
            _ => false,
        }
    }

    fn interpolate_source(&mut self, text: String) -> (r: Step)
        requires
            old(self).next() < old(self).sources().len(),
        ensures
            final(self).wf(),
            kept(*final(self), old(self).sources(), old(self).next(), old(self).env()),
            interpolated(old(self).env(), old(self).files(), old(self).merged(), text@, *final(self), r),
    {
        let pending = Interpolator::pending_reads(text.as_str(), &self.env, &self.files);
        if pending.len() > 0 {
            self.stage = Stage::AwaitFiles(text);
            return Step::ReadFiles { paths: pending };
        }
        match Interpolator::interpolate(text.as_str(), &self.env, &self.files) {
            Ok(t) => {
                self.stage = Stage::AwaitParse;
                Step::Parse { text: t }
            },
            Err(m) => {
                self.stage = Stage::Finished;
                Step::Failed(ConfigError::InterpolationError { message: m })
            },
        }
    }

    fn begin(&mut self) -> (r: Step)
        ensures
            final(self).wf(),
            began(
                old(self).sources(),
                old(self).next(),
                old(self).env(),
                old(self).files(),
                old(self).merged(),
                *final(self),
                r,
            ),
    {
        if self.next >= self.sources.len() {
            self.stage = Stage::Finished;
            let mut t = Table::new();
            std::mem::swap(&mut t, &mut self.merged);
            return Step::Done(Config::from_table(t));
        }
        proof {
            assert(self.sources()[self.next()] == self.sources@[self.next()]@);
        }
        match &self.sources[self.next] {
            Source::File { path, required: _ } => {
                let p = path.clone();
                self.stage = Stage::AwaitSource;
                Step::ReadSource { path: p }
            },
            Source::TomlString { content } => {
                let c = content.clone();
                self.interpolate_source(c)
            },
        }
    }

    /// Starts loading with the first source.
    pub fn start(&mut self) -> (r: Step)
        requires
            old(self).stage() == Stage::Ready,
        ensures
            final(self).wf(),
            began(
                old(self).sources(),
                old(self).next(),
                old(self).env(),
                old(self).files(),
                old(self).merged(),
                *final(self),
                r,
            ),
    {
        self.begin()
    }

    /// Takes the answer to the last step and goes on to the next one.
    pub fn resume(&mut self, event: Event) -> (r: Step)
        requires
            old(self).wf(),
            accepts(old(self).stage(), event),
        ensures
            final(self).wf(),
            resumed(*old(self), event, *final(self), r),
    {
        match event {
            Event::SourceMissing => {
                match &self.sources[self.next] {
                    Source::File { path, required: true } => {
                        let p = path.clone();
                        self.stage = Stage::Finished;
                        return Step::Failed(ConfigError::FileNotFound(p));
                    },
                    _ => {},
                }
                let len = self.sources.len();
                assert(self.next < len);
                self.next = self.next + 1;
                self.begin()
            },
            Event::SourceText(t) => self.interpolate_source(t),
            Event::SourceUnreadable(m) => {
                self.stage = Stage::Finished;
                Step::Failed(ConfigError::ReadError { message: m })
            },
            Event::FilesRead(list) => {
                let ghost files0 = self.files;
                let ghost list0 = list@;
                let mut rest = list;
                let ghost mut j: int = 0;
                proof {
                    assert(list0.take(0) =~= Seq::<(String, Result<String, String>)>::empty());
                    assert(rest@ =~= list0.skip(0));
                }
                while rest.len() > 0
                    invariant
                        0 <= j <= list0.len(),
                        rest@ == list0.skip(j),
                        kept(*self, old(self).sources(), old(self).next(), old(self).env()),
                        self.stage == old(self).stage,
                        self.merged == old(self).merged,
                        self.wf(),
                        forall|p: Seq<char>| #[trigger] self.files.read(p) == read_with(files0, list0.take(j), p),
                    decreases rest.len(),
                {
                    let (path, outcome) = rest.remove(0);
                    proof {
                        assert(list0[j] == (path, outcome));
                        assert(list0.take(j + 1).drop_last() =~= list0.take(j));
                    }
                    self.files.record(path.as_str(), outcome);
                    proof {
                        j = j + 1;
                        assert(rest@ =~= list0.skip(j));
                    }
                }
                proof {
                    assert(list0.take(j) =~= list0);
                }
                let text = match &self.stage {
                    Stage::AwaitFiles(t) => t.clone(),
                    _ => String::new(),
                };
                self.interpolate_source(text)
            },
            Event::Parsed(t) => {
                merge_tables(&mut self.merged, t);
                let len = self.sources.len();
                assert(self.next < len);
                self.next = self.next + 1;
                self.begin()
            },
            Event::ParseFailed(m) => {
                self.stage = Stage::Finished;
                Step::Failed(ConfigError::DeserializeError { message: m })
            },
        }
    }
}


/// A missing required file is fatal: wherever a required file stands among the
/// sources, a loader told that it is missing fails with a not-found error naming
/// it and finishes without a configuration, whatever the other sources hold.
pub proof fn lemma_required_missing_fails(a: Loader, b: Loader, r: Step, path: Seq<char>)
    requires
        0 <= a.next() < a.sources().len(),
        a.sources()[a.next()] == SourceView::File(path, true),
        resumed(a, Event::SourceMissing, b, r),
    ensures
        r matches Step::Failed(ConfigError::FileNotFound(q)) && q@ == path,
        b.stage() == Stage::Finished,
{
}

/// A reference that cannot be resolved fails the build: when a text source's
/// environment references leave a `${NAME}` unset, the loader fails with the
/// interpolation error naming it and finishes without a configuration.
pub proof fn lemma_unresolved_reference_fails(
    srcs: Seq<SourceView>,
    next: int,
    env: Environment,
    files: FileContents,
    merged: Seq<(Seq<char>, Node)>,
    b: Loader,
    r: Step,
    text: Seq<char>,
)
    requires
        0 <= next < srcs.len(),
        srcs[next] == SourceView::Text(text),
        expand_env(text, env) is Err,
        began(srcs, next, env, files, merged, b, r),
    ensures
        r matches Step::Failed(ConfigError::InterpolationError { message }) && expand_env(text, env)
            == Err::<Seq<char>, Seq<char>>(message@),
        b.stage() == Stage::Finished,
{
}

/// A missing optional file is skipped: with an optional file and then text as
/// sources, a loader told that the file is missing goes on to the text, and once
/// that text is parsed the configuration is exactly its table.
pub proof fn lemma_optional_missing_skipped(
    a: Loader,
    b: Loader,
    r1: Step,
    c: Loader,
    r2: Step,
    table: Table,
    d: Loader,
    r3: Step,
    path: Seq<char>,
    text: Seq<char>,
)
    requires
        a.sources() == seq![SourceView::File(path, false), SourceView::Text(text)],
        a.next() == 0,
        a.merged() == Seq::<(Seq<char>, Node)>::empty(),
        began(a.sources(), a.next(), a.env(), a.files(), a.merged(), b, r1),
        resumed(b, Event::SourceMissing, c, r2),
        pending_reads(text, a.env(), a.files()).len() == 0,
        interpolation(text, a.env(), a.files()) is Ok,
        resumed(c, Event::Parsed(table), d, r3),
        unique_keys(table@),
    ensures
        r1 matches Step::ReadSource { path: q } && q@ == path,
        r2 matches Step::Parse { text: t } && interpolation(text, a.env(), a.files()) == Ok::<
            Seq<char>,
            Seq<char>,
        >(t@),
        r3 matches Step::Done(cfg) && cfg.table() == table@,
{
    lemma_merge_into_empty(table@);
}


/// The order does not matter to a missing optional file: with text and then an
/// optional file as sources, once the text is parsed and the file is reported
/// missing the configuration is exactly the text's table.
pub proof fn lemma_optional_missing_after_text(
    a: Loader,
    b: Loader,
    r1: Step,
    table: Table,
    c: Loader,
    r2: Step,
    d: Loader,
    r3: Step,
    text: Seq<char>,
    path: Seq<char>,
)
    requires
        a.sources() == seq![SourceView::Text(text), SourceView::File(path, false)],
        a.next() == 0,
        a.merged() == Seq::<(Seq<char>, Node)>::empty(),
        pending_reads(text, a.env(), a.files()).len() == 0,
        interpolation(text, a.env(), a.files()) is Ok,
        began(a.sources(), a.next(), a.env(), a.files(), a.merged(), b, r1),
        resumed(b, Event::Parsed(table), c, r2),
        resumed(c, Event::SourceMissing, d, r3),
        unique_keys(table@),
    ensures
        r1 matches Step::Parse { text: t } && interpolation(text, a.env(), a.files()) == Ok::<
            Seq<char>,
            Seq<char>,
        >(t@),
        r2 matches Step::ReadSource { path: q } && q@ == path,
        r3 matches Step::Done(cfg) && cfg.table() == table@,
{
    lemma_merge_into_empty(table@);
}

/// The models of a sequence of tables.
pub open spec fn tables_view(ts: Seq<Table>) -> Seq<Seq<(Seq<char>, Node)>> {
    ts.map_values(|t: Table| t@)
}

/// `text` interpolates, with the environment and reads given, to text to parse
/// without further reads.
pub open spec fn text_ready(text: Seq<char>, env: Environment, files: FileContents) -> bool {
    pending_reads(text, env, files).len() == 0 && interpolation(text, env, files) is Ok
}

/// Source `j` loads: a text source through `bs[j]` and `Parsed(ts[j])`; a file
/// source holding `texts[j]` through `SourceText`, `ms[j]` and `Parsed(ts[j])`.
pub open spec fn source_loads(
    srcs: Seq<SourceView>,
    j: int,
    texts: Seq<Seq<char>>,
    bs: Seq<Loader>,
    ms: Seq<Loader>,
    rs: Seq<Step>,
    rms: Seq<Step>,
    ts: Seq<Table>,
) -> bool {
    match srcs[j] {
        SourceView::Text(c) => texts[j] == c && resumed(bs[j], Event::Parsed(ts[j]), bs[j + 1], rs[j + 1]),
        SourceView::File(_, _) => (exists|t: String| t@ == texts[j] && #[trigger] resumed(bs[j], Event::SourceText(t), ms[j], rms[j]))
            && resumed(ms[j], Event::Parsed(ts[j]), bs[j + 1], rs[j + 1]),
    }
}

proof fn lemma_sources_prefix(
    a: Loader,
    texts: Seq<Seq<char>>,
    bs: Seq<Loader>,
    ms: Seq<Loader>,
    rs: Seq<Step>,
    rms: Seq<Step>,
    ts: Seq<Table>,
    i: int,
)
    requires
        a.next() == 0,
        a.merged() == Seq::<(Seq<char>, Node)>::empty(),
        ts.len() == a.sources().len(),
        texts.len() == ts.len(),
        bs.len() == ts.len() + 1,
        rs.len() == ts.len() + 1,
        ms.len() == ts.len(),
        rms.len() == ts.len(),
        forall|j: int| 0 <= j < ts.len() ==> #[trigger] text_ready(texts[j], a.env(), a.files()),
        began(a.sources(), 0, a.env(), a.files(), a.merged(), bs[0], rs[0]),
        forall|j: int| 0 <= j < ts.len() ==> #[trigger] source_loads(a.sources(), j, texts, bs, ms, rs, rms, ts),
        0 <= i <= ts.len(),
    ensures
        i < ts.len() ==> kept(bs[i], a.sources(), i, a.env()) && bs[i].files() == a.files()
            && bs[i].merged() == merge_all(tables_view(ts).take(i)) && match a.sources()[i] {
            SourceView::Text(_) => bs[i].stage() == Stage::AwaitParse,
            SourceView::File(_, _) => bs[i].stage() == Stage::AwaitSource,
        },
        i == ts.len() ==> (rs[i] matches Step::Done(c) && c.table() == merge_all(tables_view(ts))),
    decreases i,
{
    let tv = tables_view(ts);
    let srcs = a.sources();
    if i == 0 {
        assert(tv.take(0) =~= Seq::<Seq<(Seq<char>, Node)>>::empty());
        if ts.len() > 0 {
            assert(source_loads(srcs, 0, texts, bs, ms, rs, rms, ts));
            assert(text_ready(texts[0], a.env(), a.files()));
        } else {
            assert(tv =~= Seq::<Seq<(Seq<char>, Node)>>::empty());
        }
    } else {
        let j = i - 1;
        lemma_sources_prefix(a, texts, bs, ms, rs, rms, ts, j);
        assert(source_loads(srcs, j, texts, bs, ms, rs, rms, ts));
        assert(text_ready(texts[j], a.env(), a.files()));
        match srcs[j] {
            SourceView::Text(_) => {
                assert(resumed(bs[j], Event::Parsed(ts[j]), bs[i], rs[i]));
            },
            SourceView::File(_, _) => {
                let t = choose|t: String| t@ == texts[j] && #[trigger] resumed(bs[j], Event::SourceText(t), ms[j], rms[j]);
                assert(resumed(bs[j], Event::SourceText(t), ms[j], rms[j]));
                assert(ms[j].stage() == Stage::AwaitParse);
                assert(resumed(ms[j], Event::Parsed(ts[j]), bs[i], rs[i]));
            },
        }
        assert(tv.take(i).drop_last() =~= tv.take(j));
        assert(tv.take(i).last() == ts[j]@);
        if i < ts.len() {
            assert(source_loads(srcs, i, texts, bs, ms, rs, rms, ts));
            assert(text_ready(texts[i], a.env(), a.files()));
        } else {
            assert(tv.take(i) =~= tv);
        }
    }
}

/// Sources load in order: when every source (text, or a file holding text)
/// interpolates without further reads and each parse succeeds, loading ends
/// with the tables merged in the order of the sources into an empty table.
pub proof fn lemma_sources_fold(
    a: Loader,
    texts: Seq<Seq<char>>,
    bs: Seq<Loader>,
    ms: Seq<Loader>,
    rs: Seq<Step>,
    rms: Seq<Step>,
    ts: Seq<Table>,
)
    requires
        a.next() == 0,
        a.merged() == Seq::<(Seq<char>, Node)>::empty(),
        ts.len() == a.sources().len(),
        texts.len() == ts.len(),
        bs.len() == ts.len() + 1,
        rs.len() == ts.len() + 1,
        ms.len() == ts.len(),
        rms.len() == ts.len(),
        forall|j: int| 0 <= j < ts.len() ==> #[trigger] text_ready(texts[j], a.env(), a.files()),
        began(a.sources(), 0, a.env(), a.files(), a.merged(), bs[0], rs[0]),
        forall|j: int| 0 <= j < ts.len() ==> #[trigger] source_loads(a.sources(), j, texts, bs, ms, rs, rms, ts),
    ensures
        rs[ts.len() as int] matches Step::Done(c) && c.table() == merge_all(tables_view(ts)),
{
    lemma_sources_prefix(a, texts, bs, ms, rs, rms, ts, ts.len() as int);
}

} // verus!
