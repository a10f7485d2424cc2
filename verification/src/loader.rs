//! The loading of a document that brings in others. The loader decides and
//! its caller reads: each step takes what the last reading gave and says
//! what is to be read next, until nothing is left to bring in.
//!
//! A document asks for another by an entry that holds the request. The
//! loader takes the requests in the order of the entries. The entries of a
//! document that was brought in take the place of the request, under its
//! path, and their own requests are served next. Every request knows how
//! deeply its document is nested; beyond the depth that the configuration
//! allows, nothing is read. A request that cannot be served becomes a bad
//! value in its place, or, for a strict loader, the failure of the whole.

use crate::document::Document;
use crate::error::{Error, ErrorView};
use crate::loader_config::{
    candidates_of, chosen_texts, directory_meta, is_random_identifier, known_scheme, meta_of, optional_string,
    parsed_texts, planned_url, url_parts, url_scheme_of, ConfFileMeta, FileRead, FileReadView,
    HoconLoaderConfig, HoconLoaderConfigView, ReadCandidates, ReadCandidatesView, SourceTexts,
    UrlParts, UrlPlan, UrlPlanView,
};
use crate::paths::{has_file_name, join, joined, names_file};
use crate::text::{copy_chars, string_of};
use crate::vecs::reverse;
use crate::unescape::{escape_finder, escape_pattern_list, PatternFinder};
use crate::value::{
    entries_view, join_paths, path_view, Entry, EntryView, PathView, SourceKind, Value, ValueView,
};
use vstd::prelude::*;

verus! {

/// What happened since the last step.
#[derive(Debug, PartialEq, Eq)]
pub enum Event {
    /// Nothing was asked for.
    Start,
    /// The files that were asked for were read, as far as they could be.
    Read(SourceTexts),
    /// The URL that was asked for was fetched, or could not be.
    Fetched(Result<String, Error>),
}

/// What the caller is to do before the next step.
#[derive(Debug, PartialEq, Eq)]
pub enum Action {
    /// Read these files and hand in what they hold.
    Read(ReadCandidates),
    /// Fetch this URL and hand in what it gave.
    Fetch(String),
    /// Nothing: take the next step.
    Again,
    /// Nothing more: the document is complete.
    Done,
    /// Nothing more: loading has failed.
    Failed(Error),
}

/// An `Action` as a mathematical value.
pub enum ActionView {
    Read(ReadCandidatesView),
    Fetch(Seq<char>),
    Again,
    Done,
    Failed(ErrorView),
}

impl View for Action {
    type V = ActionView;

    open spec fn view(&self) -> ActionView {
        match self {
            Action::Read(c) => ActionView::Read(c@),
            Action::Fetch(u) => ActionView::Fetch(u@),
            Action::Again => ActionView::Again,
            Action::Done => ActionView::Done,
            Action::Failed(e) => ActionView::Failed(e@),
        }
    }
}

/// The state of a loader: the configuration of the first document, the
/// entries so far, the place up to which no request is left among them,
/// and, while a reading is awaited, the configuration for what is read.
#[derive(Debug, PartialEq, Eq)]
pub struct Loader {
    pub config: HoconLoaderConfig,
    pub doc: Document,
    pub cursor: usize,
    pub waiting: Option<HoconLoaderConfig>,
}

/// A `Loader` as a mathematical value.
pub struct LoaderView {
    pub config: HoconLoaderConfigView,
    pub doc: Seq<EntryView>,
    pub cursor: int,
    pub waiting: Option<HoconLoaderConfigView>,
}

/// An optional configuration as a mathematical value.
pub open spec fn optional_config(c: Option<HoconLoaderConfig>) -> Option<HoconLoaderConfigView> {
    match c {
        Some(c) => Some(c@),
        None => None,
    }
}

impl View for Loader {
    type V = LoaderView;

    open spec fn view(&self) -> LoaderView {
        LoaderView {
            config: self.config@,
            doc: self.doc@,
            cursor: self.cursor as int,
            waiting: optional_config(self.waiting),
        }
    }
}

/// Whether a state is sound: the cursor lies in the document, and while a
/// reading is awaited it stands at the request that the reading is for.
pub open spec fn sound(s: LoaderView) -> bool {
    &&& 0 <= s.cursor <= s.doc.len()
    &&& s.waiting is Some ==> s.cursor < s.doc.len() && s.doc[s.cursor].value is Inclusion
}

/// The place of the first request among `d[from..]`; the length of `d`
/// where there is none.
pub open spec fn next_request(d: Seq<EntryView>, from: int) -> int
    decreases d.len() - from,
{
    if from < 0 || from >= d.len() {
        d.len() as int
    } else if d[from].value is Inclusion {
        from
    } else {
        next_request(d, from + 1)
    }
}

/// What is to be done about a request.
pub enum Decision {
    /// It cannot be served.
    Fail(ErrorView),
    /// The file of this configuration is to be read.
    Read(HoconLoaderConfigView),
    /// This URL is to be fetched, and what it gives parsed with this
    /// configuration.
    Fetch(Seq<char>, HoconLoaderConfigView),
}

/// The error for a request that cannot be served.
pub open spec fn refused(locator: Seq<char>) -> ErrorView {
    ErrorView::Include { path: locator }
}

/// The configuration of the document that holds a request, as far as the
/// request knows it.
pub open spec fn config_at(root: HoconLoaderConfigView, depth: u8, directory: Seq<char>) -> HoconLoaderConfigView {
    HoconLoaderConfigView {
        include_depth: depth,
        file_meta: Some(directory_meta(directory)),
        ..root
    }
}

/// What is to be done about the request `request`, for a loader whose
/// first document has the configuration `root`; `parts` is what is known
/// of the URL, where the request names one.
///
/// A request from a document that is nested more deeply than the
/// configuration allows cannot be served, nor one from a document that
/// came from no file. A file is read one level deeper, in the directory of
/// the document that asks; its path has to name a file. A URL is served as
/// the configuration says, and what is fetched from it is parsed one level
/// deeper too.
pub open spec fn decided(root: HoconLoaderConfigView, request: ValueView, parts: Option<UrlParts>) -> Decision {
    match request {
        ValueView::Inclusion { kind, locator, depth, base } => if depth > root.max_include_depth
            || depth == u8::MAX {
            Decision::Fail(refused(locator))
        } else {
            match base {
                None => Decision::Fail(refused(locator)),
                Some(directory) => match kind {
                    SourceKind::File => if names_file(joined(directory, locator)) {
                        Decision::Read(
                            HoconLoaderConfigView {
                                include_depth: (depth + 1) as u8,
                                file_meta: Some(meta_of(joined(directory, locator))),
                                ..root
                            },
                        )
                    } else {
                        Decision::Fail(refused(locator))
                    },
                    SourceKind::Url => match planned_url(
                        config_at(root, depth, directory),
                        locator,
                        parts,
                    ) {
                        Ok(UrlPlanView::ReadFile(c)) => Decision::Read(c),
                        Ok(UrlPlanView::Fetch(u)) => Decision::Fetch(
                            u,
                            config_at(root, (depth + 1) as u8, directory),
                        ),
                        Err(e) => Decision::Fail(e),
                    },
                },
            }
        },
        _ => Decision::Fail(ErrorView::InvalidValue),
    }
}

/// The entry that takes the place of a request that could not be served.
pub open spec fn failed_entry(e: EntryView, err: ErrorView) -> EntryView {
    EntryView { path: e.path, value: ValueView::BadValue(err), root: e.root }
}

/// The state after the request at the cursor could not be served, for a
/// loader that is not strict: a bad value stands in its place.
pub open spec fn passed_over(s: LoaderView, at: int, err: ErrorView) -> LoaderView {
    LoaderView {
        doc: s.doc.update(at, failed_entry(s.doc[at], err)),
        cursor: at + 1,
        waiting: None,
        ..s
    }
}

/// The URL that the next request asks for, if there is a request and it
/// asks for one.
pub open spec fn requested_url(s: LoaderView) -> Option<Seq<char>> {
    let at = next_request(s.doc, s.cursor);
    if 0 <= at < s.doc.len() {
        match s.doc[at].value {
            ValueView::Inclusion { kind: SourceKind::Url, locator, depth, base } => Some(locator),
            _ => None,
        }
    } else {
        None
    }
}

/// The state and the action after a look at the next request.
pub open spec fn requested(s: LoaderView, parts: Option<UrlParts>) -> (LoaderView, ActionView) {
    let at = next_request(s.doc, s.cursor);
    if at >= s.doc.len() {
        (LoaderView { cursor: s.doc.len() as int, waiting: None, ..s }, ActionView::Done)
    } else {
        match decided(s.config, s.doc[at].value, parts) {
            Decision::Fail(err) => (
                failing(s, at, err).0,
                match failing(s, at, err).1 {
                    Some(e) => ActionView::Failed(e),
                    None => ActionView::Again,
                },
            ),
            Decision::Read(c) => (
                LoaderView { cursor: at, waiting: Some(c), ..s },
                ActionView::Read(candidates_of(c.file_meta.unwrap())),
            ),
            Decision::Fetch(u, c) => (
                LoaderView { cursor: at, waiting: Some(c), ..s },
                ActionView::Fetch(u),
            ),
        }
    }
}

/// The path of an optional root; empty where there is none.
pub open spec fn root_or_empty(root: Option<PathView>) -> PathView {
    match root {
        Some(r) => r,
        None => Seq::empty(),
    }
}

/// An entry of a document that was brought in by `request`: under the path
/// of the request, and knowing that path as the place where its document
/// was brought in.
pub open spec fn brought_entry(request: EntryView, e: EntryView) -> EntryView {
    EntryView {
        path: request.path + e.path,
        value: e.value,
        root: Some(request.path + root_or_empty(e.root)),
    }
}

/// The entries `d` with the request at `at` replaced by the entries `sub`
/// of the document that it asked for.
pub open spec fn spliced(d: Seq<EntryView>, at: int, sub: Seq<EntryView>) -> Seq<EntryView> {
    d.subrange(0, at) + Seq::new(sub.len(), |i: int| brought_entry(d[at], sub[i])) + d.subrange(
        at + 1,
        d.len() as int,
    )
}

/// The entries that the awaited reading gave, parsed with the
/// configuration `waiting`; none where reading or parsing failed.
pub open spec fn brought_in(
    waiting: HoconLoaderConfigView,
    event: Event,
    json_tag: Seq<char>,
    hocon_tag: Seq<char>,
) -> Option<Seq<EntryView>> {
    let texts: Option<FileReadView> = match event {
        Event::Start => None,
        Event::Read(texts) => match waiting.file_meta {
            Some(m) => match chosen_texts(m, texts) {
                Ok(f) => Some(f),
                Err(_) => None,
            },
            None => None,
        },
        Event::Fetched(Ok(body)) => Some(
            FileReadView { properties: None, json: None, hocon: Some(body@) },
        ),
        Event::Fetched(Err(_)) => None,
    };
    match texts {
        Some(f) => match parsed_texts(waiting, f, json_tag, hocon_tag) {
            Ok(d) => Some(d),
            Err(_) => None,
        },
        None => None,
    }
}

/// The locator of a request.
pub open spec fn locator_of(v: ValueView) -> Seq<char> {
    match v {
        ValueView::Inclusion { kind, locator, depth, base } => locator,
        _ => Seq::empty(),
    }
}

/// The state after the request at `at` could not be served, and the
/// failure of the whole, if it is one: a strict loader fails, and any other
/// puts a bad value in the place of the request and goes on behind it.
pub open spec fn failing(s: LoaderView, at: int, err: ErrorView) -> (LoaderView, Option<ErrorView>) {
    if s.config.strict {
        (LoaderView { cursor: at, waiting: None, ..s }, Some(err))
    } else {
        (passed_over(s, at, err), None)
    }
}

/// The state after what happened was taken in, and the failure of the
/// whole, if there is one. While nothing is awaited, nothing changes. What
/// was read is parsed, and its entries take the place of the request.
/// Where it could not be read or parsed, the request cannot be served.
pub open spec fn supplied(s: LoaderView, event: Event, json_tag: Seq<char>, hocon_tag: Seq<char>) -> (
    LoaderView,
    Option<ErrorView>,
) {
    match s.waiting {
        None => (s, None),
        Some(w) => match brought_in(w, event, json_tag, hocon_tag) {
            Some(sub) => (
                LoaderView { doc: spliced(s.doc, s.cursor, sub), waiting: None, ..s },
                None,
            ),
            None => failing(s, s.cursor, refused(locator_of(s.doc[s.cursor].value))),
        },
    }
}

/// Whether `parts` is what is known of the URL that the next request asks
/// for, once what happened was taken in: its scheme is that of the URL, and
/// nothing is known where no URL is asked for.
pub open spec fn step_knows(
    s: LoaderView,
    event: Event,
    json_tag: Seq<char>,
    hocon_tag: Seq<char>,
    parts: Option<UrlParts>,
) -> bool {
    let taken = supplied(s, event, json_tag, hocon_tag);
    taken.1 is None ==> match requested_url(taken.0) {
        Some(u) => known_scheme(parts) == url_scheme_of(u),
        None => parts is None,
    }
}

/// The state and the action after one step.
pub open spec fn stepped(
    s: LoaderView,
    event: Event,
    json_tag: Seq<char>,
    hocon_tag: Seq<char>,
    parts: Option<UrlParts>,
) -> (LoaderView, ActionView) {
    let taken = supplied(s, event, json_tag, hocon_tag);
    match taken.1 {
        None => requested(taken.0, parts),
        Some(e) => (taken.0, ActionView::Failed(e)),
    }
}

/// What is to be done about a request.
#[derive(Debug, PartialEq, Eq)]
pub enum Choice {
    /// It cannot be served.
    Fail(Error),
    /// The file of this configuration is to be read.
    Read(HoconLoaderConfig),
    /// This URL is to be fetched, and what it gives parsed with this
    /// configuration.
    Fetch(String, HoconLoaderConfig),
}

impl View for Choice {
    type V = Decision;

    open spec fn view(&self) -> Decision {
        match self {
            Choice::Fail(e) => Decision::Fail(e@),
            Choice::Read(c) => Decision::Read(c@),
            Choice::Fetch(u, c) => Decision::Fetch(u@, c@),
        }
    }
}

/// Finds the first request among the entries from `from` on.
pub fn find_request(doc: &Document, from: usize) -> (r: usize)
    ensures
        r == next_request(doc@, from as int),
        from <= r <= doc@.len() || (from > doc@.len() && r == doc@.len()),
        r < doc@.len() ==> doc@[r as int].value is Inclusion,
{
    let mut i: usize = from;
    while i < doc.entries.len()
        invariant
            from <= i,
            next_request(doc@, from as int) == next_request(doc@, i as int),
        decreases doc.entries.len() - i,
    {
        match &doc.entries[i].value {
            Value::Inclusion { .. } => {
                return i;
            },
            _ => {},
        }
        i += 1;
    }
    doc.entries.len()
}

/// The error for a request that cannot be served.
pub fn refuse(locator: &Vec<char>) -> (r: Error)
    ensures
        r@ == refused(locator@),
{
    Error::Include { path: string_of(locator) }
}

/// Decides what is to be done about a request.
pub fn decide(root: &HoconLoaderConfig, request: &Value, parts: Option<UrlParts>) -> (r: Choice)
    ensures
        r@ == decided(root@, request@, parts),
{
    let (kind, locator, depth, base) = match request {
        Value::Inclusion { kind, locator, depth, base } => (*kind, locator, *depth, base),
        _ => {
            return Choice::Fail(Error::InvalidValue);
        },
    };
    if depth > root.max_include_depth || depth == u8::MAX {
        return Choice::Fail(refuse(locator));
    }
    let directory = match base {
        Some(d) => d,
        None => {
            return Choice::Fail(refuse(locator));
        },
    };
    match kind {
        SourceKind::File => {
            let full = join(directory, locator);
            if has_file_name(&full) {
                Choice::Read(
                    HoconLoaderConfig {
                        include_depth: depth + 1,
                        file_meta: Some(ConfFileMeta::from_path(full)),
                        system: root.system,
                        external_url: root.external_url,
                        strict: root.strict,
                        max_include_depth: root.max_include_depth,
                    },
                )
            } else {
                Choice::Fail(refuse(locator))
            }
        },
        SourceKind::Url => {
            let here = HoconLoaderConfig {
                include_depth: depth,
                file_meta: Some(ConfFileMeta::in_directory(copy_chars(directory))),
                system: root.system,
                external_url: root.external_url,
                strict: root.strict,
                max_include_depth: root.max_include_depth,
            };
            let url = string_of(locator);
            match here.plan_url(url.as_str(), parts) {
                Ok(UrlPlan::ReadFile(c)) => Choice::Read(c),
                Ok(UrlPlan::Fetch(u)) => Choice::Fetch(
                    u,
                    HoconLoaderConfig {
                        include_depth: depth + 1,
                        file_meta: here.file_meta,
                        system: root.system,
                        external_url: root.external_url,
                        strict: root.strict,
                        max_include_depth: root.max_include_depth,
                    },
                ),
                Err(e) => Choice::Fail(e),
            }
        },
    }
}

/// Puts a bad value in the place of the request at `at`.
pub fn pass_over(doc: Document, at: usize, err: Error) -> (r: Document)
    requires
        at < doc@.len(),
    ensures
        r@ == doc@.update(at as int, failed_entry(doc@[at as int], err@)),
{
    let mut entries = doc.entries;
    let ghost before = entries@;
    let old = entries.remove(at);
    entries.insert(at, Entry { path: old.path, value: Value::BadValue(err), root: old.root });
    let r = Document { entries };
    assert(r@ =~= entries_view(before).update(at as int, failed_entry(before[at as int]@, err@)));
    r
}

/// Puts the entries of a document that was brought in into the place of
/// the request at `at`.
pub fn splice(doc: Document, at: usize, sub: Document) -> (r: Document)
    requires
        at < doc@.len(),
    ensures
        r@ == spliced(doc@, at as int, sub@),
{
    let mut entries = doc.entries;
    let ghost all = entries@;
    assert(all.len() == doc@.len());
    let total = entries.len();
    assert(at < total);
    let mut tail = entries.split_off(at + 1);
    let ghost rest = tail@;
    let request = entries.pop().unwrap();
    assert(request == all[at as int]);
    let ghost head = entries@;
    assert(head =~= all.subrange(0, at as int));
    let ghost incoming = sub@;
    let ghost sub_entries = sub.entries@;
    let count = sub.entries.len();
    let mut pending = reverse(sub.entries);
    let mut i: usize = 0;
    while i < count
        invariant
            i <= count,
            count == sub_entries.len(),
            incoming == entries_view(sub_entries),
            pending@.len() == count - i,
            forall|k: int| 0 <= k < pending@.len() ==> pending@[k] == sub_entries[count - 1 - k],
            entries@.len() == head.len() + i,
            forall|k: int| 0 <= k < head.len() ==> entries@[k] == head[k],
            forall|k: int|
                0 <= k < i ==> (#[trigger] entries@[head.len() + k])@ == brought_entry(
                    request@,
                    incoming[k],
                ),
        decreases count - i,
    {
        let e = pending.pop().unwrap();
        assert(e == sub_entries[i as int]);
        let inner = match e.root {
            Some(r) => r,
            None => Vec::new(),
        };
        assert(path_view(inner@) =~= root_or_empty(e@.root));
        entries.push(
            Entry {
                path: join_paths(&request.path, e.path),
                value: e.value,
                root: Some(join_paths(&request.path, inner)),
            },
        );
        i += 1;
    }
    let ghost middle = entries@;
    entries.append(&mut tail);
    let r = Document { entries };
    proof {
        let want = spliced(entries_view(all), at as int, incoming);
        assert(rest =~= all.subrange(at + 1, all.len() as int));
        assert(r@.len() == want.len());
        assert forall|k: int| 0 <= k < r@.len() implies r@[k] == want[k] by {
            if k < at {
                assert(r.entries@[k] == head[k]);
            } else if k < at + count {
                assert(r.entries@[k] == middle[head.len() + (k - at)]);
            } else {
                assert(r.entries@[k] == rest[k - at - count]);
            }
        }
        assert(r@ =~= want);
    }
    r
}

/// An optional document as a mathematical value.
pub open spec fn optional_document(d: Option<Document>) -> Option<Seq<EntryView>> {
    match d {
        Some(d) => Some(d@),
        None => None,
    }
}

/// Parses what the awaited reading gave.
pub fn bring_in(
    waiting: &HoconLoaderConfig,
    event: Event,
    finder: &PatternFinder,
    json_tag: &Vec<char>,
    hocon_tag: &Vec<char>,
) -> (r: Option<Document>)
    requires
        finder.patterns() == escape_pattern_list(),
    ensures
        optional_document(r) == brought_in(waiting@, event, json_tag@, hocon_tag@),
{
    let texts = match event {
        Event::Start => {
            return None;
        },
        Event::Read(texts) => {
            if waiting.file_meta.is_none() {
                return None;
            }
            match waiting.read_file(texts) {
                Ok(f) => f,
                Err(_) => {
                    return None;
                },
            }
        },
        Event::Fetched(Ok(body)) => FileRead { properties: None, json: None, hocon: Some(body) },
        Event::Fetched(Err(_)) => {
            return None;
        },
    };
    match waiting.parse_tagged(finder, texts, json_tag, hocon_tag) {
        Ok(d) => Some(d),
        Err(_) => None,
    }
}

impl Loader {
    /// A loader for the document `doc`, which was parsed with `config`.
    pub fn new(config: HoconLoaderConfig, doc: Document) -> (r: Loader)
        ensures
            r@ == (LoaderView { config: config@, doc: doc@, cursor: 0, waiting: None }),
            sound(r@),
    {
        Loader { config, doc, cursor: 0, waiting: None }
    }

    /// Whether the state is sound.
    pub fn is_sound(&self) -> (r: bool)
        ensures
            r == sound(self@),
    {
        if self.cursor > self.doc.entries.len() {
            false
        } else if self.waiting.is_some() {
            self.cursor < self.doc.entries.len() && match &self.doc.entries[self.cursor].value {
                Value::Inclusion { .. } => true,
                _ => false,
            }
        } else {
            true
        }
    }

    /// The document as far as it is loaded.
    pub fn finish(self) -> (r: Document)
        ensures
            r@ == self@.doc,
    {
        self.doc
    }

    /// The URL of the next request, if it asks for one.
    pub fn next_url(&self) -> (r: Option<String>)
        ensures
            optional_string(r) == requested_url(self@),
    {
        let at = find_request(&self.doc, self.cursor);
        if at < self.doc.entries.len() {
            match &self.doc.entries[at].value {
                Value::Inclusion { kind: SourceKind::Url, locator, depth, base } => Some(
                    string_of(locator),
                ),
                _ => None,
            }
        } else {
            None
        }
    }

    /// Deals with a request that cannot be served.
    pub fn fail(self, at: usize, err: Error) -> (r: (Loader, Option<Error>))
        requires
            at < self@.doc.len(),
        ensures
            (r.0@, crate::hocon::optional_error(r.1)) == failing(self@, at as int, err@),
            sound(r.0@),
    {
        let total = self.doc.entries.len();
        assert(at < total);
        if self.config.strict {
            (Loader { config: self.config, doc: self.doc, cursor: at, waiting: None }, Some(err))
        } else {
            (
                Loader {
                    config: self.config,
                    doc: pass_over(self.doc, at, err),
                    cursor: at + 1,
                    waiting: None,
                },
                None,
            )
        }
    }

    /// Looks at the next request and says what is to be done; `parts` is
    /// what is known of its URL, if it names one.
    pub fn request(self, parts: Option<UrlParts>) -> (r: (Loader, Action))
        requires
            sound(self@),
        ensures
            (r.0@, r.1@) == requested(self@, parts),
            sound(r.0@),
    {
        let at = find_request(&self.doc, self.cursor);
        if at >= self.doc.entries.len() {
            let len = self.doc.entries.len();
            return (
                Loader { config: self.config, doc: self.doc, cursor: len, waiting: None },
                Action::Done,
            );
        }
        match decide(&self.config, &self.doc.entries[at].value, parts) {
            Choice::Fail(err) => {
                let (next, failure) = self.fail(at, err);
                match failure {
                    Some(e) => (next, Action::Failed(e)),
                    None => (next, Action::Again),
                }
            },
            Choice::Read(c) => {
                proof {
                    lemma_read_has_file(self.config@, self.doc@[at as int].value, parts);
                }
                let candidates = c.candidates();
                (
                    Loader { config: self.config, doc: self.doc, cursor: at, waiting: Some(c) },
                    Action::Read(candidates),
                )
            },
            Choice::Fetch(u, c) => (
                Loader { config: self.config, doc: self.doc, cursor: at, waiting: Some(c) },
                Action::Fetch(u),
            ),
        }
    }

    /// Takes in what happened since the last step.
    pub fn supply(
        self,
        event: Event,
        finder: &PatternFinder,
        json_tag: &Vec<char>,
        hocon_tag: &Vec<char>,
    ) -> (r: (Loader, Option<Error>))
        requires
            sound(self@),
            finder.patterns() == escape_pattern_list(),
        ensures
            (r.0@, crate::hocon::optional_error(r.1)) == supplied(
                self@,
                event,
                json_tag@,
                hocon_tag@,
            ),
            sound(r.0@),
    {
        let waiting = match self.waiting {
            Some(w) => w,
            None => {
                return (
                    Loader { config: self.config, doc: self.doc, cursor: self.cursor, waiting: None },
                    None,
                );
            },
        };
        let at = self.cursor;
        match bring_in(&waiting, event, finder, json_tag, hocon_tag) {
            Some(sub) => (
                Loader {
                    config: self.config,
                    doc: splice(self.doc, at, sub),
                    cursor: at,
                    waiting: None,
                },
                None,
            ),
            None => {
                let err = match &self.doc.entries[at].value {
                    Value::Inclusion { kind, locator, depth, base } => refuse(locator),
                    _ => refuse(&Vec::new()),
                };
                let ghost before = self@;
                let idle = Loader {
                    config: self.config,
                    doc: self.doc,
                    cursor: self.cursor,
                    waiting: None,
                };
                assert(failing(idle@, at as int, err@) == failing(before, at as int, err@));
                idle.fail(at, err)
            },
        }
    }

    /// One step of loading: takes in what happened since the last step and
    /// says what is to be done next. The append operators of what is read
    /// carry random identifiers, drawn anew.
    pub fn step(self, event: Event) -> (r: (Loader, Action))
        requires
            sound(self@),
        ensures
            sound(r.0@),
            exists|json_tag: Seq<char>, hocon_tag: Seq<char>, parts: Option<UrlParts>|
                is_random_identifier(json_tag) && is_random_identifier(hocon_tag) && step_knows(
                    self@,
                    event,
                    json_tag,
                    hocon_tag,
                    parts,
                ) && (r.0@, r.1@) == stepped(self@, event, json_tag, hocon_tag, parts),
    {
        let finder = escape_finder();
        let json_tag = crate::loader_config::fresh_tag();
        let hocon_tag = crate::loader_config::fresh_tag();
        let ghost before = self@;
        let (next, failure) = self.supply(event, &finder, &json_tag, &hocon_tag);
        match failure {
            None => {
                let parts = match next.next_url() {
                    Some(u) => url_parts(u.as_str()),
                    None => None,
                };
                let ghost known = parts;
                let r = next.request(parts);
                assert(is_random_identifier(json_tag@) && is_random_identifier(hocon_tag@)
                    && step_knows(before, event, json_tag@, hocon_tag@, known) && (r.0@, r.1@)
                    == stepped(before, event, json_tag@, hocon_tag@, known));
                r
            },
            Some(e) => {
                let r = (next, Action::Failed(e));
                assert(is_random_identifier(json_tag@) && is_random_identifier(hocon_tag@)
                    && step_knows(before, event, json_tag@, hocon_tag@, None) && (r.0@, r.1@)
                    == stepped(before, event, json_tag@, hocon_tag@, None));
                r
            },
        }
    }
}

/// A request that is to be read has a configuration that names a file.
pub proof fn lemma_read_has_file(root: HoconLoaderConfigView, request: ValueView, parts: Option<UrlParts>)
    ensures
        decided(root, request, parts) matches Decision::Read(c) ==> c.file_meta is Some,
{
}

/// A request from a document that is nested more deeply than the
/// configuration allows is never served: whatever it asks for, and
/// whatever is known of its URL, it is refused with an error that names
/// what it asked for.
pub proof fn lemma_too_deep_is_refused(
    root: HoconLoaderConfigView,
    kind: SourceKind,
    locator: Seq<char>,
    depth: u8,
    base: Option<Seq<char>>,
    parts: Option<UrlParts>,
)
    requires
        depth > root.max_include_depth,
    ensures
        decided(root, ValueView::Inclusion { kind, locator, depth, base }, parts) == Decision::Fail(
            ErrorView::Include { path: locator },
        ),
{
}

/// Where the next request comes from a document that is nested too deeply,
/// the loader asks for nothing to be read or fetched. A strict loader
/// fails with the error that names what was asked for; any other puts that
/// error in the place of the request and goes on.
pub proof fn lemma_too_deep_reads_nothing(s: LoaderView, parts: Option<UrlParts>)
    requires
        sound(s),
        next_request(s.doc, s.cursor) < s.doc.len(),
        s.doc[next_request(s.doc, s.cursor)].value matches ValueView::Inclusion { depth, .. }
            && depth > s.config.max_include_depth,
    ensures
        !(requested(s, parts).1 is Read),
        !(requested(s, parts).1 is Fetch),
        s.config.strict ==> requested(s, parts).1 == ActionView::Failed(
            refused(locator_of(s.doc[next_request(s.doc, s.cursor)].value)),
        ),
        !s.config.strict ==> requested(s, parts).1 == ActionView::Again && requested(
            s,
            parts,
        ).0.doc[next_request(s.doc, s.cursor)].value == ValueView::BadValue(
            refused(locator_of(s.doc[next_request(s.doc, s.cursor)].value)),
        ),
{
    let at = next_request(s.doc, s.cursor);
    lemma_next_request(s.doc, s.cursor);
    match s.doc[at].value {
        ValueView::Inclusion { kind, locator, depth, base } => {
            lemma_too_deep_is_refused(s.config, kind, locator, depth, base, parts);
        },
        _ => {},
    }
}

/// The next request lies at or behind the place from which it is looked
/// for, and no request lies between the two.
pub proof fn lemma_next_request(d: Seq<EntryView>, from: int)
    requires
        0 <= from <= d.len(),
    ensures
        from <= next_request(d, from) <= d.len(),
        next_request(d, from) < d.len() ==> d[next_request(d, from)].value is Inclusion,
        forall|i: int| from <= i < next_request(d, from) ==> !(#[trigger] d[i].value is Inclusion),
    decreases d.len() - from,
{
    if from < d.len() && !(d[from].value is Inclusion) {
        lemma_next_request(d, from + 1);
    }
}

/// What is fetched for a request is parsed one level deeper than the
/// document that asked for it.
pub proof fn lemma_fetch_goes_deeper(
    root: HoconLoaderConfigView,
    kind: SourceKind,
    locator: Seq<char>,
    depth: u8,
    base: Option<Seq<char>>,
    parts: Option<UrlParts>,
)
    ensures
        decided(root, ValueView::Inclusion { kind, locator, depth, base }, parts) matches Decision::Fetch(
            _,
            c,
        ) ==> c.include_depth == depth + 1 && depth <= root.max_include_depth,
{
}

/// A file that is read for a request is read one level deeper than the
/// document that asked for it.
pub proof fn lemma_read_goes_deeper(
    root: HoconLoaderConfigView,
    kind: SourceKind,
    locator: Seq<char>,
    depth: u8,
    base: Option<Seq<char>>,
    parts: Option<UrlParts>,
)
    ensures
        decided(root, ValueView::Inclusion { kind, locator, depth, base }, parts) matches Decision::Read(
            c,
        ) ==> c.include_depth == depth + 1 && depth <= root.max_include_depth,
{
}

/// The configuration with which what is read or fetched for a request is
/// parsed; none for a request that cannot be served.
pub open spec fn configuration_for(d: Decision) -> Option<HoconLoaderConfigView> {
    match d {
        Decision::Read(c) => Some(c),
        Decision::Fetch(_, c) => Some(c),
        Decision::Fail(_) => None,
    }
}

/// Every request in what was brought in for a request asks from one level
/// deeper than that request did, whatever was read or fetched; and a
/// request is only served from a level that the configuration allows. So
/// along a chain of documents that bring each other in the level grows by
/// one with each, and the chain ends where the level passes the maximum.
pub proof fn lemma_brought_in_goes_deeper(
    root: HoconLoaderConfigView,
    kind: SourceKind,
    locator: Seq<char>,
    depth: u8,
    base: Option<Seq<char>>,
    parts: Option<UrlParts>,
    event: Event,
    json_tag: Seq<char>,
    hocon_tag: Seq<char>,
)
    ensures
        configuration_for(
            decided(root, ValueView::Inclusion { kind, locator, depth, base }, parts),
        ) matches Some(c) ==> depth <= root.max_include_depth && (brought_in(
            c,
            event,
            json_tag,
            hocon_tag,
        ) matches Some(sub) ==> forall|i: int|
            0 <= i < sub.len() ==> (#[trigger] sub[i].value matches ValueView::Inclusion {
                depth: inner,
                ..
            } ==> inner == depth + 1)),
{
    let request = ValueView::Inclusion { kind, locator, depth, base };
    if let Some(c) = configuration_for(decided(root, request, parts)) {
        lemma_read_goes_deeper(root, kind, locator, depth, base, parts);
        lemma_fetch_goes_deeper(root, kind, locator, depth, base, parts);
        assert(c.include_depth == depth + 1);
        let texts: Option<FileReadView> = match event {
            Event::Start => None,
            Event::Read(texts) => match c.file_meta {
                Some(m) => match chosen_texts(m, texts) {
                    Ok(f) => Some(f),
                    Err(_) => None,
                },
                None => None,
            },
            Event::Fetched(Ok(body)) => Some(
                FileReadView { properties: None, json: None, hocon: Some(body@) },
            ),
            Event::Fetched(Err(_)) => None,
        };
        if let Some(f) = texts {
            lemma_requests_carry_depth(c, f, json_tag, hocon_tag);
        }
    }
}

/// Every request in the entries of a document knows the depth at which
/// the document was parsed.
pub proof fn lemma_requests_carry_depth(
    config: HoconLoaderConfigView,
    f: FileReadView,
    json_tag: Seq<char>,
    hocon_tag: Seq<char>,
)
    ensures
        parsed_texts(config, f, json_tag, hocon_tag) matches Ok(d) ==> forall|i: int|
            0 <= i < d.len() ==> (#[trigger] d[i].value matches ValueView::Inclusion { depth, .. }
                ==> depth == config.include_depth),
{
    if let Ok(d) = parsed_texts(config, f, json_tag, hocon_tag) {
        let p = crate::loader_config::parsed_properties(f.properties);
        let first = match p {
            Ok(x) => x,
            Err(_) => Seq::empty(),
        };
        if let Some(t) = f.properties {
            if let Some(lines) = crate::loader_config::properties_lines(t) {
                lemma_properties_ask_nothing(lines, 0);
            }
        }
        assert forall|i: int| 0 <= i < d.len() implies (#[trigger] d[i].value matches ValueView::Inclusion {
            depth,
            ..
        } ==> depth == config.include_depth) by {
            let second = crate::loader_config::then_parsed(p, config, f.json, json_tag);
            let mid = match second {
                Ok(x) => x,
                Err(_) => Seq::empty(),
            };
            if i < first.len() {
                assert(d[i] == first[i]);
            } else if i < mid.len() {
                assert(d[i] == mid[i]);
            } else {
            }
        }
    }
}

/// The entries of properties hold strings, and so no request.
pub proof fn lemma_properties_ask_nothing(
    lines: Seq<crate::loader_config::PropertyLineView>,
    from: int,
)
    ensures
        forall|i: int|
            0 <= i < crate::loader_config::property_entries(lines, from).len() ==> (
            #[trigger] crate::loader_config::property_entries(lines, from)[i]).value is String,
    decreases lines.len() - from,
{
    if 0 <= from < lines.len() {
        lemma_properties_ask_nothing(lines, from + 1);
    }
}

} // verus!
