//! What a loader is told: how deeply documents may nest, whether parsing is
//! strict, which file the text came from. And the reading of one logical
//! document from up to three texts: properties, JSON and the notation.

use crate::document::{stamped, Document};
use crate::error::{Error, ErrorView};
use crate::grammar::{root, root_at};
use crate::paths::{
    directory, directory_of, extension, extension_of, has_file_name, join, joined, names_file,
    strip_end_slashes, without_end_slashes,
    with_extension, with_extension_of,
};
use crate::text::{chars_of, copy_chars, same_chars, string_of};
use crate::unescape::{escape_finder, escape_pattern_list, PatternFinder};
use crate::value::{
    entries_view, optional_text, Entry, EntryView, PathItem, PathItemView, Value, ValueView,
};
use vstd::prelude::*;

verus! {

/// The format of a file, told by its extension.
#[derive(Clone, Copy, Debug, PartialEq, Eq)]
pub enum FileType {
    Properties,
    Hocon,
    Json,
    /// No known extension: a file of each format may stand beside it.
    All,
}

/// The texts that were read for one logical document, one for each format.
#[derive(Default, Debug, PartialEq, Eq)]
pub struct FileRead {
    pub properties: Option<String>,
    pub json: Option<String>,
    pub hocon: Option<String>,
}

/// The characters of an optional string.
pub open spec fn optional_string(t: Option<String>) -> Option<Seq<char>> {
    match t {
        Some(t) => Some(t@),
        None => None,
    }
}

/// A `FileRead` as a mathematical value.
pub struct FileReadView {
    pub properties: Option<Seq<char>>,
    pub json: Option<Seq<char>>,
    pub hocon: Option<Seq<char>>,
}

impl View for FileRead {
    type V = FileReadView;

    open spec fn view(&self) -> FileReadView {
        FileReadView {
            properties: optional_string(self.properties),
            json: optional_string(self.json),
            hocon: optional_string(self.hocon),
        }
    }
}

impl FileRead {
    /// The text `s` as the text of the format `ft`, which is not `All`.
    pub fn from_file_type(ft: &FileType, s: String) -> (r: Self)
        requires
            !(ft is All),
        ensures
            r@ == (FileReadView {
                properties: if ft is Properties {
                    Some(s@)
                } else {
                    None
                },
                json: if ft is Json {
                    Some(s@)
                } else {
                    None
                },
                hocon: if ft is Hocon {
                    Some(s@)
                } else {
                    None
                },
            }),
    {
        match ft {
            FileType::Properties => FileRead { properties: Some(s), json: None, hocon: None },
            FileType::Json => FileRead { properties: None, json: Some(s), hocon: None },
            _ => FileRead { properties: None, json: None, hocon: Some(s) },
        }
    }
}

/// The file that a text came from: its directory, its full path and its
/// format.
#[derive(Debug, PartialEq, Eq)]
pub struct ConfFileMeta {
    path: Vec<char>,
    full_path: Vec<char>,
    file_type: FileType,
}

/// A `ConfFileMeta` as a mathematical value.
pub struct ConfFileMetaView {
    pub path: Seq<char>,
    pub full_path: Seq<char>,
    pub file_type: FileType,
}

/// The format that a path's extension tells.
pub open spec fn file_type_of(path: Seq<char>) -> FileType {
    let ext = extension_of(path);
    if ext == seq!['p', 'r', 'o', 'p', 'e', 'r', 't', 'i', 'e', 's'] {
        FileType::Properties
    } else if ext == seq!['j', 's', 'o', 'n'] {
        FileType::Json
    } else if ext == seq!['c', 'o', 'n', 'f'] {
        FileType::Hocon
    } else {
        FileType::All
    }
}

/// What is known of the file at `path`, where slashes at the end of the
/// path are passed over.
pub open spec fn meta_of(path: Seq<char>) -> ConfFileMetaView {
    let plain = without_end_slashes(path);
    ConfFileMetaView { path: directory_of(plain), full_path: plain, file_type: file_type_of(plain) }
}

impl View for ConfFileMeta {
    type V = ConfFileMetaView;

    closed spec fn view(&self) -> ConfFileMetaView {
        ConfFileMetaView {
            path: self.path@,
            full_path: self.full_path@,
            file_type: self.file_type,
        }
    }
}

/// The extension of properties files.
pub fn properties_extension() -> (r: Vec<char>)
    ensures
        r@ == seq!['p', 'r', 'o', 'p', 'e', 'r', 't', 'i', 'e', 's'],
{
    let r = vec!['p', 'r', 'o', 'p', 'e', 'r', 't', 'i', 'e', 's'];
    assert(r@ =~= seq!['p', 'r', 'o', 'p', 'e', 'r', 't', 'i', 'e', 's']);
    r
}

/// The extension of JSON files.
pub fn json_extension() -> (r: Vec<char>)
    ensures
        r@ == seq!['j', 's', 'o', 'n'],
{
    let r = vec!['j', 's', 'o', 'n'];
    assert(r@ =~= seq!['j', 's', 'o', 'n']);
    r
}

/// The extension of files in the notation.
pub fn conf_extension() -> (r: Vec<char>)
    ensures
        r@ == seq!['c', 'o', 'n', 'f'],
{
    let r = vec!['c', 'o', 'n', 'f'];
    assert(r@ =~= seq!['c', 'o', 'n', 'f']);
    r
}

/// What stands for a file of which only the directory is known.
pub open spec fn directory_meta(directory: Seq<char>) -> ConfFileMetaView {
    ConfFileMetaView { path: directory, full_path: directory, file_type: FileType::All }
}

impl ConfFileMeta {
    /// What stands for a file of which only the directory is known.
    pub fn in_directory(directory: Vec<char>) -> (r: Self)
        ensures
            r@ == directory_meta(directory@),
    {
        ConfFileMeta {
            path: copy_chars(&directory),
            full_path: directory,
            file_type: FileType::All,
        }
    }

    /// What is known of the file at `path`, which names a file.
    pub fn from_path(path: Vec<char>) -> (r: Self)
        requires
            names_file(path@),
        ensures
            r@ == meta_of(path@),
    {
        let path = strip_end_slashes(&path);
        let ext = extension(&path);
        let file_type = if same_chars(&ext, &properties_extension()) {
            FileType::Properties
        } else if same_chars(&ext, &json_extension()) {
            FileType::Json
        } else if same_chars(&ext, &conf_extension()) {
            FileType::Hocon
        } else {
            FileType::All
        };
        ConfFileMeta { path: directory(&path), full_path: path, file_type }
    }

    /// A copy of the record.
    pub fn duplicate(&self) -> (r: Self)
        ensures
            r@ == self@,
    {
        ConfFileMeta {
            path: copy_chars(&self.path),
            full_path: copy_chars(&self.full_path),
            file_type: self.file_type,
        }
    }

    /// The directory of the file, with the slash at its end.
    pub fn directory(&self) -> (r: Vec<char>)
        ensures
            r@ == self@.path,
    {
        copy_chars(&self.path)
    }

    /// The full path of the file.
    pub fn full_path(&self) -> (r: Vec<char>)
        ensures
            r@ == self@.full_path,
    {
        copy_chars(&self.full_path)
    }

    /// The format of the file.
    pub fn file_type(&self) -> (r: FileType)
        ensures
            r == self@.file_type,
    {
        self.file_type
    }
}

/// What a loader is told.
#[derive(Debug, PartialEq, Eq)]
pub struct HoconLoaderConfig {
    /// How many documents stand between this one and the first.
    pub include_depth: u8,
    /// The file that the text came from, if it came from one.
    pub file_meta: Option<ConfFileMeta>,
    /// Whether values from the environment are consulted.
    pub system: bool,
    /// Whether documents may be fetched from URLs that are no files.
    pub external_url: bool,
    /// Whether a text that is not read to its end is an error.
    pub strict: bool,
    /// How deeply documents may nest.
    pub max_include_depth: u8,
}

/// A `HoconLoaderConfig` as a mathematical value.
pub struct HoconLoaderConfigView {
    pub include_depth: u8,
    pub file_meta: Option<ConfFileMetaView>,
    pub system: bool,
    pub external_url: bool,
    pub strict: bool,
    pub max_include_depth: u8,
}

/// An optional file record as a mathematical value.
pub open spec fn optional_meta(m: Option<ConfFileMeta>) -> Option<ConfFileMetaView> {
    match m {
        Some(m) => Some(m@),
        None => None,
    }
}

impl View for HoconLoaderConfig {
    type V = HoconLoaderConfigView;

    open spec fn view(&self) -> HoconLoaderConfigView {
        HoconLoaderConfigView {
            include_depth: self.include_depth,
            file_meta: optional_meta(self.file_meta),
            system: self.system,
            external_url: self.external_url,
            strict: self.strict,
            max_include_depth: self.max_include_depth,
        }
    }
}

impl Default for HoconLoaderConfig {
    fn default() -> (r: Self)
        ensures
            r@ == (HoconLoaderConfigView {
                include_depth: 0,
                file_meta: None,
                system: true,
                external_url: true,
                strict: false,
                max_include_depth: 10,
            }),
    {
        HoconLoaderConfig {
            include_depth: 0,
            file_meta: None,
            system: true,
            external_url: true,
            strict: false,
            max_include_depth: 10,
        }
    }
}

/// The directory that the documents named in a document are looked up in.
pub open spec fn base_directory(config: HoconLoaderConfigView) -> Option<Seq<char>> {
    match config.file_meta {
        Some(m) => Some(m.path),
        None => None,
    }
}

/// The path that `path` names for a loader with the given directory.
pub open spec fn located(base: Option<Seq<char>>, path: Seq<char>) -> Seq<char> {
    match base {
        Some(d) => joined(d, path),
        None => path,
    }
}

/// Whether every character of `s[from..]` is a newline, a carriage return
/// or the character with code 0.
pub open spec fn only_line_ends(s: Seq<char>, from: int) -> bool {
    forall|i: int| from <= i < s.len() ==> s[i] == '\n' || s[i] == '\r' || s[i] == '\0'
}

/// Whether every character of `s[from..]` is a newline, a carriage return
/// or the character with code 0.
pub fn rest_is_line_ends(s: &Vec<char>, from: usize) -> (r: bool)
    ensures
        r == only_line_ends(s@, from as int),
{
    let mut i: usize = from;
    while i < s.len()
        invariant
            from <= i || i == from,
            forall|k: int| from <= k < i && k < s.len() ==> s@[k] == '\n' || s@[k] == '\r' || s@[k]
                == '\0',
        decreases s.len() - i,
    {
        let c = s[i];
        if !(c == '\n' || c == '\r' || c == '\0') {
            return false;
        }
        i += 1;
    }
    true
}

impl HoconLoaderConfig {
    /// A copy of the configuration.
    pub fn duplicate(&self) -> (r: Self)
        ensures
            r@ == self@,
    {
        HoconLoaderConfig {
            include_depth: self.include_depth,
            file_meta: match &self.file_meta {
                Some(m) => Some(m.duplicate()),
                None => None,
            },
            system: self.system,
            external_url: self.external_url,
            strict: self.strict,
            max_include_depth: self.max_include_depth,
        }
    }

    /// The configuration for a document that this one brings in: one level
    /// deeper.
    pub fn included_from(&self) -> (r: Self)
        requires
            self.include_depth < u8::MAX,
        ensures
            r@ == (HoconLoaderConfigView { include_depth: (self.include_depth + 1) as u8, ..self@ }),
    {
        HoconLoaderConfig {
            include_depth: self.include_depth + 1,
            file_meta: match &self.file_meta {
                Some(m) => Some(m.duplicate()),
                None => None,
            },
            system: self.system,
            external_url: self.external_url,
            strict: self.strict,
            max_include_depth: self.max_include_depth,
        }
    }

    /// The directory that the documents named in a document are looked up
    /// in.
    pub fn base(&self) -> (r: Option<Vec<char>>)
        ensures
            optional_text(r) == base_directory(self@),
    {
        match &self.file_meta {
            Some(m) => Some(m.directory()),
            None => None,
        }
    }

    /// The path that `path` names for this loader: in the directory of the
    /// loader's file, if it has one.
    pub fn locate(&self, path: &Vec<char>) -> (r: Vec<char>)
        ensures
            r@ == located(base_directory(self@), path@),
    {
        match &self.file_meta {
            Some(m) => join(&m.path, path),
            None => copy_chars(path),
        }
    }

    /// The configuration for the file at `path`, which is looked up in the
    /// directory of the loader's file, if it has one. The path has to name
    /// a file.
    pub fn with_file(&self, path: &str) -> (r: Self)
        requires
            names_file(located(base_directory(self@), path@)),
        ensures
            r@ == (HoconLoaderConfigView {
                file_meta: Some(meta_of(located(base_directory(self@), path@))),
                ..self@
            }),
    {
        let path = chars_of(path);
        let full = self.locate(&path);
        HoconLoaderConfig {
            include_depth: self.include_depth,
            file_meta: Some(ConfFileMeta::from_path(full)),
            system: self.system,
            external_url: self.external_url,
            strict: self.strict,
            max_include_depth: self.max_include_depth,
        }
    }

    /// Whether every character of `remaining` is a newline, a carriage
    /// return or the character with code 0.
    pub fn remaining_only_whitespace(remaining: &str) -> (r: bool)
        ensures
            r == only_line_ends(remaining@, 0),
    {
        let s = chars_of(remaining);
        rest_is_line_ends(&s, 0)
    }
}

/// One line of a properties text.
#[derive(Debug, PartialEq, Eq)]
pub enum PropertyLine {
    /// A key and its value.
    Pair(String, String),
    /// A comment.
    Comment(String),
}

/// A `PropertyLine` as a mathematical value.
pub enum PropertyLineView {
    Pair(Seq<char>, Seq<char>),
    Comment(Seq<char>),
}

impl View for PropertyLine {
    type V = PropertyLineView;

    open spec fn view(&self) -> PropertyLineView {
        match self {
            PropertyLine::Pair(k, v) => PropertyLineView::Pair(k@, v@),
            PropertyLine::Comment(c) => PropertyLineView::Comment(c@),
        }
    }
}

/// The lines of `lines` as mathematical values.
pub open spec fn lines_view(lines: Seq<PropertyLine>) -> Seq<PropertyLineView> {
    Seq::new(lines.len(), |i: int| lines[i]@)
}

/// Optional lines as mathematical values.
pub open spec fn optional_lines(lines: Option<Vec<PropertyLine>>) -> Option<Seq<PropertyLineView>> {
    match lines {
        Some(l) => Some(lines_view(l@)),
        None => None,
    }
}

/// The lines that a properties text decodes to, in the order in which they
/// are written; none where the text is malformed.
pub uninterp spec fn properties_lines(text: Seq<char>) -> Option<Seq<PropertyLineView>>;

/// `java_properties::PropertiesIter` reads the bytes of `text` as a
/// properties file and yields its lines in order, each a pair of key and
/// value or a comment, with escapes decoded; it yields an error at the
/// first malformed line. What it yields depends on the text alone.
#[verifier::external_body]
fn read_properties(text: &str) -> (r: Option<Vec<PropertyLine>>)
    ensures
        optional_lines(r) == properties_lines(text@),
{
    java_properties::PropertiesIter::new(text.as_bytes()).map(
        |line|
            line.map(
                |l|
                    match l.consume_content() {
                        java_properties::LineContent::KVPair(k, v) => PropertyLine::Pair(k, v),
                        java_properties::LineContent::Comment(c) => PropertyLine::Comment(c),
                    },
            ),
    ).collect::<Result<Vec<PropertyLine>, java_properties::PropertiesError>>().ok()
}

/// Whether `c` is a hexadecimal digit in lower case.
pub open spec fn is_lower_hex(c: char) -> bool {
    ('0' <= c && c <= '9') || ('a' <= c && c <= 'f')
}

/// Whether `t` has the form of a random identifier written out with
/// hyphens: 36 characters, of which the ones at 8, 13, 18 and 23 are
/// hyphens and the others hexadecimal digits in lower case; the digit at
/// 14 is the version, 4, and the one at 19 holds the variant, and so is
/// one of `8`, `9`, `a` and `b`.
pub open spec fn is_random_identifier(t: Seq<char>) -> bool {
    &&& t.len() == 36
    &&& forall|i: int|
        0 <= i < 36 ==> if i == 8 || i == 13 || i == 18 || i == 23 {
            (#[trigger] t[i]) == '-'
        } else {
            is_lower_hex(t[i])
        }
    &&& t[14] == '4'
    &&& (t[19] == '8' || t[19] == '9' || t[19] == 'a' || t[19] == 'b')
}

/// `uuid::Uuid::new_v4` draws a random identifier of version 4, and
/// `uuid::Uuid::hyphenated` writes it out in lower case with hyphens.
/// Which identifier is drawn is open, and two calls give two texts; the
/// form of the text is the same for all.
#[verifier::external_body]
fn random_tag() -> (r: String)
    ensures
        is_random_identifier(r@),
{
    uuid::Uuid::new_v4().hyphenated().to_string()
}

/// A tag for the append operators of one text: the characters of a random
/// identifier, drawn anew at each call.
pub(crate) fn fresh_tag() -> (r: Vec<char>)
    ensures
        is_random_identifier(r@),
{
    chars_of(random_tag().as_str())
}

/// The entry of a property: the key as a path of one step, and the value
/// as a string.
pub open spec fn property_entry(key: Seq<char>, value: Seq<char>) -> EntryView {
    EntryView { path: seq![PathItemView::Key(key)], value: ValueView::String(value), root: None }
}

/// The entries of the properties `lines[from..]`: one for each pair, in
/// order.
pub open spec fn property_entries(lines: Seq<PropertyLineView>, from: int) -> Seq<EntryView>
    decreases lines.len() - from,
{
    if from < 0 || from >= lines.len() {
        Seq::empty()
    } else {
        match lines[from] {
            PropertyLineView::Pair(k, v) => seq![property_entry(k, v)] + property_entries(
                lines,
                from + 1,
            ),
            PropertyLineView::Comment(_) => property_entries(lines, from + 1),
        }
    }
}

/// The document of the pairs among `lines`.
pub fn from_properties(lines: &Vec<PropertyLine>) -> (r: Document)
    ensures
        r@ == property_entries(lines_view(lines@), 0),
{
    let mut entries: Vec<Entry> = Vec::new();
    let mut i: usize = 0;
    let ghost all = lines_view(lines@);
    while i < lines.len()
        invariant
            i <= lines.len(),
            all == lines_view(lines@),
            property_entries(all, 0) == entries_view(entries@) + property_entries(all, i as int),
        decreases lines.len() - i,
    {
        let ghost before = entries_view(entries@);
        match &lines[i] {
            PropertyLine::Pair(k, v) => {
                let mut path: Vec<PathItem> = Vec::new();
                path.push(PathItem::Key(chars_of(k.as_str())));
                let entry = Entry { path, value: Value::String(chars_of(v.as_str())), root: None };
                assert(entry@.path =~= seq![PathItemView::Key(k@)]);
                assert(entry@ == property_entry(k@, v@));
                entries.push(entry);
                assert(entries_view(entries@) =~= before + seq![property_entry(k@, v@)]);
                assert(before + (seq![property_entry(k@, v@)] + property_entries(all, i + 1)) =~= (
                before + seq![property_entry(k@, v@)]) + property_entries(all, i + 1));
            },
            PropertyLine::Comment(_) => {},
        }
        i += 1;
    }
    assert(entries_view(entries@) + Seq::<EntryView>::empty() =~= entries_view(entries@));
    Document { entries }
}

/// A text made ready for the grammar: every carriage return turned into a
/// newline, and a newline and the character with code 0 put at its end.
pub open spec fn terminated(text: Seq<char>) -> Seq<char> {
    Seq::new(
        text.len(),
        |i: int|
            if text[i] == '\r' {
                '\n'
            } else {
                text[i]
            },
    ) + seq!['\n', '\0']
}

/// Makes a text ready for the grammar.
pub fn terminate(text: &str) -> (r: Vec<char>)
    ensures
        r@ == terminated(text@),
{
    let s = chars_of(text);
    let mut out: Vec<char> = Vec::new();
    let mut i: usize = 0;
    while i < s.len()
        invariant
            i <= s.len(),
            out@.len() == i,
            forall|k: int|
                0 <= k < i ==> out@[k] == (if s@[k] == '\r' {
                    '\n'
                } else {
                    s@[k]
                }),
        decreases s.len() - i,
    {
        let c = s[i];
        out.push(
            if c == '\r' {
                '\n'
            } else {
                c
            },
        );
        i += 1;
    }
    out.push('\n');
    out.push('\0');
    assert(out@ =~= terminated(text@));
    out
}

/// What parsing `text` gives for a loader with the given configuration,
/// where `tag` tells the append operators of this text from all others.
///
/// A text that does not follow the grammar is a parse error. A text that
/// follows it only up to some point, behind which more than line ends
/// stand, is a parse error for a strict loader, and is taken as far as it
/// was read by any other.
pub open spec fn parsed_text(config: HoconLoaderConfigView, text: Seq<char>, tag: Seq<char>) -> Result<
    Seq<EntryView>,
    ErrorView,
> {
    let input = terminated(text);
    match root_at(input, 0) {
        None => Err(ErrorView::Parse),
        Some((d, end)) => if config.strict && !only_line_ends(input, end) {
            Err(ErrorView::Parse)
        } else {
            Ok(stamped(d, tag, config.include_depth, base_directory(config)))
        },
    }
}

/// The result of a parse as a mathematical value.
pub open spec fn parse_result_view(r: Result<Document, Error>) -> Result<Seq<EntryView>, ErrorView> {
    match r {
        Ok(d) => Ok(d@),
        Err(e) => Err(e@),
    }
}

/// The entries of an optional text, behind the entries `before`; the first
/// error where there was one before or the text gives one.
pub open spec fn then_parsed(
    before: Result<Seq<EntryView>, ErrorView>,
    config: HoconLoaderConfigView,
    text: Option<Seq<char>>,
    tag: Seq<char>,
) -> Result<Seq<EntryView>, ErrorView> {
    match (before, text) {
        (Err(e), _) => Err(e),
        (Ok(d), None) => Ok(d),
        (Ok(d), Some(t)) => match parsed_text(config, t, tag) {
            Ok(more) => Ok(d + more),
            Err(e) => Err(e),
        },
    }
}

/// The entries of optional properties.
pub open spec fn parsed_properties(text: Option<Seq<char>>) -> Result<Seq<EntryView>, ErrorView> {
    match text {
        None => Ok(Seq::empty()),
        Some(t) => match properties_lines(t) {
            Some(lines) => Ok(property_entries(lines, 0)),
            None => Err(ErrorView::Parse),
        },
    }
}

/// What the texts of one logical document give: the entries of the
/// properties, then those of the JSON text, then those of the text in the
/// notation, so that each overrides the ones before it; or the first
/// error. The two tags tell the append operators of the two texts apart.
pub open spec fn parsed_texts(
    config: HoconLoaderConfigView,
    s: FileReadView,
    json_tag: Seq<char>,
    hocon_tag: Seq<char>,
) -> Result<Seq<EntryView>, ErrorView> {
    then_parsed(
        then_parsed(parsed_properties(s.properties), config, s.json, json_tag),
        config,
        s.hocon,
        hocon_tag,
    )
}

impl HoconLoaderConfig {
    /// Parses one text.
    pub fn parse_text(&self, finder: &PatternFinder, text: &str, tag: &Vec<char>) -> (r: Result<
        Document,
        Error,
    >)
        requires
            finder.patterns() == escape_pattern_list(),
        ensures
            parse_result_view(r) == parsed_text(self@, text@, tag@),
    {
        let input = terminate(text);
        match root(finder, &input, 0) {
            None => Err(Error::Parse),
            Some((d, end)) => {
                if self.strict && !rest_is_line_ends(&input, end) {
                    Err(Error::Parse)
                } else {
                    Ok(d.stamp(tag, self.include_depth, &self.base()))
                }
            },
        }
    }

    /// Parses the texts of one logical document, with the given tags for
    /// the append operators of the JSON text and of the text in the
    /// notation.
    pub fn parse_tagged(
        &self,
        finder: &PatternFinder,
        s: FileRead,
        json_tag: &Vec<char>,
        hocon_tag: &Vec<char>,
    ) -> (r: Result<Document, Error>)
        requires
            finder.patterns() == escape_pattern_list(),
        ensures
            parse_result_view(r) == parsed_texts(self@, s@, json_tag@, hocon_tag@),
    {
        let mut internal = Document::empty();
        if let Some(properties) = &s.properties {
            match read_properties(properties.as_str()) {
                Some(lines) => {
                    internal = from_properties(&lines);
                },
                None => {
                    return Err(Error::Parse);
                },
            }
        }
        if let Some(json) = &s.json {
            match self.parse_text(finder, json.as_str(), json_tag) {
                Ok(d) => {
                    internal = internal.add(d);
                },
                Err(e) => {
                    return Err(e);
                },
            }
        }
        if let Some(hocon) = &s.hocon {
            match self.parse_text(finder, hocon.as_str(), hocon_tag) {
                Ok(d) => {
                    internal = internal.add(d);
                },
                Err(e) => {
                    return Err(e);
                },
            }
        }
        Ok(internal)
    }

    /// Parses the texts of one logical document: the properties, then the
    /// JSON text, then the text in the notation. The append operators of
    /// the last two carry a random identifier each, drawn anew.
    pub fn parse_str_to_internal(&self, s: FileRead) -> (r: Result<Document, Error>)
        ensures
            exists|json_tag: Seq<char>, hocon_tag: Seq<char>|
                is_random_identifier(json_tag) && is_random_identifier(hocon_tag)
                    && parse_result_view(r) == parsed_texts(self@, s@, json_tag, hocon_tag),
    {
        let finder = escape_finder();
        let json_tag = fresh_tag();
        let hocon_tag = fresh_tag();
        let ghost view = s@;
        let r = self.parse_tagged(&finder, s, &json_tag, &hocon_tag);
        assert(is_random_identifier(json_tag@) && is_random_identifier(hocon_tag@)
            && parse_result_view(r) == parsed_texts(self@, view, json_tag@, hocon_tag@));
        r
    }
}

/// The files to read for a loader's file. For a file of a known format
/// that is the file itself. For any other it is the file itself if it is
/// there, and else the file with the extension `conf`; and beside it the
/// files with the extensions `json` and `properties`.
#[derive(Debug, PartialEq, Eq)]
pub struct ReadCandidates {
    pub plain: String,
    pub conf: Option<String>,
    pub json: Option<String>,
    pub properties: Option<String>,
}

/// `ReadCandidates` as a mathematical value.
pub struct ReadCandidatesView {
    pub plain: Seq<char>,
    pub conf: Option<Seq<char>>,
    pub json: Option<Seq<char>>,
    pub properties: Option<Seq<char>>,
}

impl View for ReadCandidates {
    type V = ReadCandidatesView;

    open spec fn view(&self) -> ReadCandidatesView {
        ReadCandidatesView {
            plain: self.plain@,
            conf: optional_string(self.conf),
            json: optional_string(self.json),
            properties: optional_string(self.properties),
        }
    }
}

/// The files to read for the file `meta`.
pub open spec fn candidates_of(meta: ConfFileMetaView) -> ReadCandidatesView {
    if meta.file_type is All {
        ReadCandidatesView {
            plain: meta.full_path,
            conf: Some(with_extension_of(meta.full_path, seq!['c', 'o', 'n', 'f'])),
            json: Some(with_extension_of(meta.full_path, seq!['j', 's', 'o', 'n'])),
            properties: Some(
                with_extension_of(
                    meta.full_path,
                    seq!['p', 'r', 'o', 'p', 'e', 'r', 't', 'i', 'e', 's'],
                ),
            ),
        }
    } else {
        ReadCandidatesView { plain: meta.full_path, conf: None, json: None, properties: None }
    }
}

/// What reading the candidates gave: whether the file itself is there,
/// its text or why it could not be read, and the texts of the others that
/// could be read.
#[derive(Debug, PartialEq, Eq)]
pub struct SourceTexts {
    pub plain_exists: bool,
    pub plain: Result<String, Error>,
    pub conf: Option<String>,
    pub json: Option<String>,
    pub properties: Option<String>,
}

/// The texts for a loader's file, chosen from what reading gave. For a file
/// of a known format the text of the file is the text of that format, and
/// a failure to read it is the error. For any other, the text in the
/// notation is that of the file itself if it is there, and else that of
/// the file with the extension `conf`; what could not be read is left out.
pub open spec fn chosen_texts(meta: ConfFileMetaView, texts: SourceTexts) -> Result<
    FileReadView,
    ErrorView,
> {
    if meta.file_type is All {
        Ok(
            FileReadView {
                properties: optional_string(texts.properties),
                json: optional_string(texts.json),
                hocon: if texts.plain_exists {
                    match texts.plain {
                        Ok(t) => Some(t@),
                        Err(_) => None,
                    }
                } else {
                    optional_string(texts.conf)
                },
            },
        )
    } else {
        match texts.plain {
            Ok(t) => Ok(
                FileReadView {
                    properties: if meta.file_type is Properties {
                        Some(t@)
                    } else {
                        None
                    },
                    json: if meta.file_type is Json {
                        Some(t@)
                    } else {
                        None
                    },
                    hocon: if meta.file_type is Hocon {
                        Some(t@)
                    } else {
                        None
                    },
                },
            ),
            Err(e) => Err(e@),
        }
    }
}

/// The result of choosing texts as a mathematical value.
pub open spec fn read_result_view(r: Result<FileRead, Error>) -> Result<FileReadView, ErrorView> {
    match r {
        Ok(f) => Ok(f@),
        Err(e) => Err(e@),
    }
}

/// The scheme of the URL that a text spells, as `reqwest::Url::parse` reads
/// the text and `reqwest::Url::scheme` gives the scheme; none for a text
/// that spells no URL.
pub uninterp spec fn url_scheme_of(text: Seq<char>) -> Option<Seq<char>>;

/// What is known of a URL: its scheme, and the file path that it stands
/// for, if it stands for one.
#[derive(Debug, PartialEq, Eq)]
pub struct UrlParts {
    pub scheme: String,
    pub file_path: Option<String>,
}

/// The scheme in what is known of a URL.
pub open spec fn known_scheme(parts: Option<UrlParts>) -> Option<Seq<char>> {
    match parts {
        Some(p) => Some(p.scheme@),
        None => None,
    }
}

/// `reqwest::Url::parse` reads an absolute URL from a text, or fails. Of
/// the URL that was read, `reqwest::Url::scheme` gives the scheme, and
/// `reqwest::Url::to_file_path` the file path that it stands for, or
/// fails. Whether the text is read, and what the scheme is, depends on the
/// text alone. Nothing is promised of the file path, which depends on the
/// platform.
#[verifier::external_body]
pub(crate) fn url_parts(url: &str) -> (r: Option<UrlParts>)
    ensures
        known_scheme(r) == url_scheme_of(url@),
{
    match reqwest::Url::parse(url) {
        Ok(u) => Some(UrlParts {
            scheme: u.scheme().to_owned(),
            file_path: u.to_file_path().ok().and_then(|p| p.into_os_string().into_string().ok()),
        }),
        Err(_) => None,
    }
}

/// Where the text behind a URL is to be had.
#[derive(Debug, PartialEq, Eq)]
pub enum UrlPlan {
    /// In a file, to be read with this configuration.
    ReadFile(HoconLoaderConfig),
    /// Behind this URL, to be fetched.
    Fetch(String),
}

/// A `UrlPlan` as a mathematical value.
pub enum UrlPlanView {
    ReadFile(HoconLoaderConfigView),
    Fetch(Seq<char>),
}

impl View for UrlPlan {
    type V = UrlPlanView;

    open spec fn view(&self) -> UrlPlanView {
        match self {
            UrlPlan::ReadFile(c) => UrlPlanView::ReadFile(c@),
            UrlPlan::Fetch(u) => UrlPlanView::Fetch(u@),
        }
    }
}

/// The result of planning as a mathematical value.
pub open spec fn plan_result_view(r: Result<UrlPlan, Error>) -> Result<UrlPlanView, ErrorView> {
    match r {
        Ok(p) => Ok(p@),
        Err(e) => Err(e@),
    }
}

/// Where the text behind `url` is to be had, given what is known of the
/// URL (nothing, where it could not be parsed).
///
/// A `file` URL stands for a file, which is read one level deeper, as any
/// document that another brings in; it has to give a path that names a
/// file. Any other URL is fetched, if the loader may fetch. All else is an
/// error that names the URL.
pub open spec fn planned_url(
    config: HoconLoaderConfigView,
    url: Seq<char>,
    parts: Option<UrlParts>,
) -> Result<UrlPlanView, ErrorView> {
    match parts {
        None => Err(ErrorView::Include { path: url }),
        Some(p) => if p.scheme@ == seq!['f', 'i', 'l', 'e'] {
            match p.file_path {
                Some(f) => if config.include_depth < u8::MAX && names_file(
                    located(base_directory(config), f@),
                ) {
                    Ok(
                        UrlPlanView::ReadFile(
                            HoconLoaderConfigView {
                                include_depth: (config.include_depth + 1) as u8,
                                file_meta: Some(meta_of(located(base_directory(config), f@))),
                                ..config
                            },
                        ),
                    )
                } else {
                    Err(ErrorView::Include { path: url })
                },
                None => Err(ErrorView::Include { path: url }),
            }
        } else if config.external_url {
            Ok(UrlPlanView::Fetch(url))
        } else {
            Err(ErrorView::Include { path: url })
        },
    }
}

impl HoconLoaderConfig {
    /// The files to read for the loader's file.
    pub fn candidates(&self) -> (r: ReadCandidates)
        requires
            self.file_meta is Some,
        ensures
            r@ == candidates_of(self@.file_meta.unwrap()),
    {
        let meta = self.file_meta.as_ref().unwrap();
        let plain = string_of(&meta.full_path);
        match meta.file_type {
            FileType::All => ReadCandidates {
                plain,
                conf: Some(string_of(&with_extension(&meta.full_path, &conf_extension()))),
                json: Some(string_of(&with_extension(&meta.full_path, &json_extension()))),
                properties: Some(
                    string_of(&with_extension(&meta.full_path, &properties_extension())),
                ),
            },
            _ => ReadCandidates { plain, conf: None, json: None, properties: None },
        }
    }

    /// Chooses the texts for the loader's file from what reading its
    /// candidates gave.
    pub fn read_file(&self, texts: SourceTexts) -> (r: Result<FileRead, Error>)
        requires
            self.file_meta is Some,
        ensures
            read_result_view(r) == chosen_texts(self@.file_meta.unwrap(), texts),
    {
        let file_type = self.file_meta.as_ref().unwrap().file_type;
        match file_type {
            FileType::All => {
                let hocon = if texts.plain_exists {
                    match texts.plain {
                        Ok(t) => Some(t),
                        Err(_) => None,
                    }
                } else {
                    texts.conf
                };
                Ok(FileRead { properties: texts.properties, json: texts.json, hocon })
            },
            _ => match texts.plain {
                Ok(t) => Ok(FileRead::from_file_type(&file_type, t)),
                Err(e) => Err(e),
            },
        }
    }

    /// Decides where the text behind `url` is to be had, given what is
    /// known of the URL.
    pub fn plan_url(&self, url: &str, parts: Option<UrlParts>) -> (r: Result<UrlPlan, Error>)
        ensures
            plan_result_view(r) == planned_url(self@, url@, parts),
    {
        let p = match parts {
            Some(p) => p,
            None => {
                return Err(Error::Include { path: url.to_owned() });
            },
        };
        let scheme = chars_of(p.scheme.as_str());
        let file = vec!['f', 'i', 'l', 'e'];
        assert(file@ =~= seq!['f', 'i', 'l', 'e']);
        if same_chars(&scheme, &file) {
            match p.file_path {
                Some(f) => {
                    let path = chars_of(f.as_str());
                    let full = self.locate(&path);
                    if self.include_depth < u8::MAX && has_file_name(&full) {
                        Ok(UrlPlan::ReadFile(self.included_from().with_file(f.as_str())))
                    } else {
                        Err(Error::Include { path: url.to_owned() })
                    }
                },
                None => Err(Error::Include { path: url.to_owned() }),
            }
        } else if self.external_url {
            Ok(UrlPlan::Fetch(url.to_owned()))
        } else {
            Err(Error::Include { path: url.to_owned() })
        }
    }

    /// Decides where the text behind `url` is to be had: in a file, for a
    /// `file` URL; behind the URL, if the loader may fetch; and else
    /// nowhere, which is an error that names the URL. The plan is the one
    /// for what is known of the URL, of which the scheme is that of the
    /// URL; which file a `file` URL stands for depends on the platform.
    pub fn load_url(&self, url: &str) -> (r: Result<UrlPlan, Error>)
        ensures
            exists|parts: Option<UrlParts>|
                known_scheme(parts) == url_scheme_of(url@) && plan_result_view(r) == planned_url(
                    self@,
                    url@,
                    parts,
                ),
            r matches Err(e) ==> e@ == (ErrorView::Include { path: url@ }),
            r matches Ok(UrlPlan::Fetch(u)) ==> u@ == url@ && self.external_url,
    {
        let parts = url_parts(url);
        let ghost known = parts;
        let r = self.plan_url(url, parts);
        assert(known_scheme(known) == url_scheme_of(url@) && plan_result_view(r) == planned_url(
            self@,
            url@,
            known,
        ));
        r
    }
}

} // verus!
