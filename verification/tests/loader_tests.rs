use std::collections::HashMap;

use hocon::error::Error;
use hocon::hocon::Hocon;
use hocon::loader::{Action, Event, Loader};
use hocon::loader_config::{FileRead, HoconLoaderConfig, ReadCandidates, SourceTexts};

fn read(files: &HashMap<&str, &str>, candidates: &ReadCandidates) -> SourceTexts {
    let get = |path: &Option<String>| {
        path.as_ref().and_then(|p| files.get(p.as_str())).map(|t| String::from(*t))
    };
    SourceTexts {
        plain_exists: files.contains_key(candidates.plain.as_str()),
        plain: files
            .get(candidates.plain.as_str())
            .map(|t| String::from(*t))
            .ok_or(Error::Io { message: String::from("no such file") }),
        conf: get(&candidates.conf),
        json: get(&candidates.json),
        properties: get(&candidates.properties),
    }
}

fn load(files: &HashMap<&str, &str>, root: &str, config: HoconLoaderConfig) -> (Result<Hocon, Error>, usize) {
    let config = config.with_file(root);
    let texts = config.read_file(read(files, &config.candidates())).expect("the first file is there");
    let document = config.parse_str_to_internal(texts).expect("the first file parses");
    let strict = config.strict;
    let mut loader = Loader::new(config, document);
    let mut event = Event::Start;
    let mut reads = 0;
    loop {
        assert!(loader.is_sound());
        let (next, action) = loader.step(event);
        loader = next;
        event = match action {
            Action::Read(candidates) => {
                reads += 1;
                assert!(reads < 1000, "the loader does not stop reading");
                Event::Read(read(files, &candidates))
            }
            Action::Fetch(_) => Event::Fetched(Err(Error::Io { message: String::from("no network") })),
            Action::Again => Event::Start,
            Action::Done => return (loader.finish().hocon(strict), reads),
            Action::Failed(e) => return (Err(e), reads),
        };
    }
}

fn hash(members: Vec<(&str, Hocon)>) -> Hocon {
    Hocon::Hash(members.into_iter().map(|(k, v)| (String::from(k), v)).collect())
}

fn refused(path: &str) -> Hocon {
    Hocon::BadValue(Error::Include { path: String::from(path) })
}

#[test]
fn included_file_is_spliced_at_the_path() {
    let mut files = HashMap::new();
    files.insert("/etc/app/main.conf", "a = 1\nb { include \"other.conf\" }\nc = 3");
    files.insert("/etc/app/other.conf", "x = 2");
    let (loaded, reads) = load(&files, "/etc/app/main.conf", HoconLoaderConfig::default());
    assert_eq!(
        loaded,
        Ok(hash(vec![
            ("a", Hocon::Integer(1)),
            ("b", hash(vec![("x", Hocon::Integer(2))])),
            ("c", Hocon::Integer(3))
        ]))
    );
    assert_eq!(reads, 1);
}

#[test]
fn included_file_at_the_top_is_overridden_by_the_document() {
    let mut files = HashMap::new();
    files.insert("main.conf", "include \"defaults.conf\"\na = 2");
    files.insert("defaults.conf", "a = 1\nb = 1");
    let (loaded, _) = load(&files, "main.conf", HoconLoaderConfig::default());
    assert_eq!(loaded, Ok(hash(vec![("a", Hocon::Integer(2)), ("b", Hocon::Integer(1))])));
}

#[test]
fn file_without_known_extension_is_looked_up_in_all_formats() {
    let mut files = HashMap::new();
    files.insert("main.conf", "include \"part\"");
    files.insert("part.properties", "a=p\nb=p\n");
    files.insert("part.json", "{\"b\": \"j\", \"c\": \"j\"}");
    files.insert("part.conf", "c = h");
    let (loaded, _) = load(&files, "main.conf", HoconLoaderConfig::default());
    assert_eq!(
        loaded,
        Ok(hash(vec![
            ("a", Hocon::String(String::from("p"))),
            ("b", Hocon::String(String::from("j"))),
            ("c", Hocon::String(String::from("h")))
        ]))
    );
}

#[test]
fn missing_file_is_a_bad_value_in_its_place() {
    let mut files = HashMap::new();
    files.insert("main.conf", "a = 1\nb { include \"nowhere.conf\" }");
    let (loaded, _) = load(&files, "main.conf", HoconLoaderConfig::default());
    assert_eq!(loaded, Ok(hash(vec![("a", Hocon::Integer(1)), ("b", refused("nowhere.conf"))])));
}

#[test]
fn missing_file_fails_a_strict_loader() {
    let mut files = HashMap::new();
    files.insert("main.conf", "a = 1\nb { include \"nowhere.conf\" }");
    let config = HoconLoaderConfig { strict: true, ..HoconLoaderConfig::default() };
    let (loaded, _) = load(&files, "main.conf", config);
    assert_eq!(loaded, Err(Error::Include { path: String::from("nowhere.conf") }));
}

#[test]
fn file_that_does_not_parse_is_a_bad_value_in_its_place() {
    let mut files = HashMap::new();
    files.insert("main.conf", "b { include \"broken.conf\" }");
    files.insert("broken.conf", "{ a = ");
    let (loaded, _) = load(&files, "main.conf", HoconLoaderConfig::default());
    assert_eq!(loaded, Ok(hash(vec![("b", refused("broken.conf"))])));
}

#[test]
fn file_that_brings_in_itself_stops_at_the_depth_limit() {
    let mut files = HashMap::new();
    files.insert("loop.conf", "n = 1\ninner { include \"loop.conf\" }");
    let config = HoconLoaderConfig { max_include_depth: 3, ..HoconLoaderConfig::default() };
    let (loaded, reads) = load(&files, "loop.conf", config);
    assert_eq!(reads, 4);
    let mut expected = hash(vec![("n", Hocon::Integer(1)), ("inner", refused("loop.conf"))]);
    for _ in 0..4 {
        expected = hash(vec![("n", Hocon::Integer(1)), ("inner", expected)]);
    }
    assert_eq!(loaded, Ok(expected));
}

#[test]
fn depth_limit_fails_a_strict_loader() {
    let mut files = HashMap::new();
    files.insert("loop.conf", "inner { include \"loop.conf\" }");
    let config = HoconLoaderConfig { strict: true, max_include_depth: 2, ..HoconLoaderConfig::default() };
    let (loaded, reads) = load(&files, "loop.conf", config);
    assert_eq!(loaded, Err(Error::Include { path: String::from("loop.conf") }));
    assert_eq!(reads, 3);
}

#[test]
fn files_are_looked_up_beside_the_file_that_names_them() {
    let mut files = HashMap::new();
    files.insert("conf/main.conf", "include \"sub/a.conf\"");
    files.insert("conf/sub/a.conf", "include \"b.conf\"\na = 1");
    files.insert("conf/sub/b.conf", "b = 2");
    let (loaded, _) = load(&files, "conf/main.conf", HoconLoaderConfig::default());
    assert_eq!(loaded, Ok(hash(vec![("b", Hocon::Integer(2)), ("a", Hocon::Integer(1))])));
}

#[test]
fn substitution_in_included_file_is_read_from_where_it_was_brought_in() {
    let mut files = HashMap::new();
    files.insert("main.conf", "y = 0\na { include \"part.conf\" }");
    files.insert("part.conf", "y = 1\nz = ${y}");
    let (loaded, _) = load(&files, "main.conf", HoconLoaderConfig::default());
    assert_eq!(
        loaded,
        Ok(hash(vec![("y", Hocon::Integer(0)), ("a", hash(vec![("y", Hocon::Integer(1)), ("z", Hocon::Integer(1))]))]))
    );
}

#[test]
fn appends_of_included_files_keep_document_order() {
    let mut files = HashMap::new();
    files.insert("main.conf", "a = [1]\ninclude \"more.conf\"\na += 4");
    files.insert("more.conf", "a += 2\na += 3");
    let (loaded, _) = load(&files, "main.conf", HoconLoaderConfig::default());
    assert_eq!(
        loaded,
        Ok(hash(vec![(
            "a",
            Hocon::Array(vec![Hocon::Integer(1), Hocon::Integer(2), Hocon::Integer(3), Hocon::Integer(4)])
        )]))
    );
}

#[test]
fn url_is_refused_where_fetching_is_off() {
    let mut files = HashMap::new();
    files.insert("main.conf", "a { include url(\"http://example.com/x.conf\") }");
    let config = HoconLoaderConfig { external_url: false, ..HoconLoaderConfig::default() };
    let (loaded, _) = load(&files, "main.conf", config);
    assert_eq!(loaded, Ok(hash(vec![("a", refused("http://example.com/x.conf"))])));
}

#[test]
fn file_url_is_read_as_a_file() {
    let mut files = HashMap::new();
    files.insert("/cfg/main.conf", "a { include url(\"file:///cfg/x.conf\") }");
    files.insert("/cfg/x.conf", "k = v");
    let (loaded, reads) = load(&files, "/cfg/main.conf", HoconLoaderConfig::default());
    assert_eq!(loaded, Ok(hash(vec![("a", hash(vec![("k", Hocon::String(String::from("v")))]))])));
    assert_eq!(reads, 1);
}

#[test]
fn document_without_a_file_cannot_bring_in_others() {
    let config = HoconLoaderConfig::default();
    let document = config
        .parse_str_to_internal(FileRead { properties: None, json: None, hocon: Some(String::from("a { include \"x.conf\" }")) })
        .expect("the text parses");
    let (loader, action) = Loader::new(config, document).step(Event::Start);
    assert_eq!(action, Action::Again);
    let (loader, action) = loader.step(Event::Start);
    assert_eq!(action, Action::Done);
    assert_eq!(loader.finish().hocon(false), Ok(hash(vec![("a", refused("x.conf"))])));
}

#[test]
fn loader_state_is_sound_while_the_cursor_is_in_the_document() {
    let config = HoconLoaderConfig::default();
    let document = config
        .parse_str_to_internal(FileRead { properties: None, json: None, hocon: Some(String::from("a = 1")) })
        .expect("the text parses");
    let mut loader = Loader::new(config, document);
    assert!(loader.is_sound());
    loader.cursor = 1;
    assert!(loader.is_sound());
    loader.waiting = Some(HoconLoaderConfig::default());
    assert!(!loader.is_sound());
    loader.waiting = None;
    loader.cursor = 2;
    assert!(!loader.is_sound());
}

#[test]
fn url_that_brings_in_itself_stops_at_the_depth_limit() {
    let config = HoconLoaderConfig { max_include_depth: 3, ..HoconLoaderConfig::default() }.with_file("/cfg/main.conf");
    let body = "n = 1\ninner { include url(\"http://example.com/self.conf\") }";
    let document = config
        .parse_str_to_internal(FileRead { properties: None, json: None, hocon: Some(String::from(body)) })
        .expect("the text parses");
    let mut loader = Loader::new(config, document);
    let mut event = Event::Start;
    let mut fetches = 0;
    let loaded = loop {
        assert!(loader.is_sound());
        let (next, action) = loader.step(event);
        loader = next;
        event = match action {
            Action::Read(_) => panic!("no file is asked for"),
            Action::Fetch(url) => {
                assert_eq!(url, "http://example.com/self.conf");
                fetches += 1;
                assert!(fetches < 100, "the loader does not stop fetching");
                Event::Fetched(Ok(String::from(body)))
            }
            Action::Again => Event::Start,
            Action::Done => break loader.finish().hocon(false),
            Action::Failed(e) => panic!("a loader that is not strict does not fail: {:?}", e),
        };
    };
    assert_eq!(fetches, 4);
    let mut expected = refused("http://example.com/self.conf");
    for _ in 0..5 {
        expected = hash(vec![("n", Hocon::Integer(1)), ("inner", expected)]);
    }
    assert_eq!(loaded, Ok(expected));
}

#[test]
fn document_that_begins_by_bringing_in_itself_stops_at_the_depth_limit() {
    let mut files = HashMap::new();
    files.insert("self.conf", "include \"self.conf\"");
    let lenient = HoconLoaderConfig { max_include_depth: 3, ..HoconLoaderConfig::default() };
    let (loaded, reads) = load(&files, "self.conf", lenient);
    assert_eq!(reads, 4);
    // What could not be brought in at the top leaves the document without members.
    assert_eq!(loaded, Ok(hash(vec![])));
    let strict = HoconLoaderConfig { max_include_depth: 3, strict: true, ..HoconLoaderConfig::default() };
    let (loaded, reads) = load(&files, "self.conf", strict);
    assert_eq!(reads, 4);
    assert_eq!(loaded, Err(Error::Include { path: String::from("self.conf") }));
}

#[test]
fn unquoted_target_is_read_as_a_file() {
    let mut files = HashMap::new();
    files.insert("/etc/app/main.conf", "include base.conf\nb { include sub/other.conf }");
    files.insert("/etc/app/base.conf", "a = 1");
    files.insert("/etc/app/sub/other.conf", "x = 2");
    let (loaded, reads) = load(&files, "/etc/app/main.conf", HoconLoaderConfig::default());
    assert_eq!(
        loaded,
        Ok(hash(vec![("a", Hocon::Integer(1)), ("b", hash(vec![("x", Hocon::Integer(2))]))]))
    );
    assert_eq!(reads, 2);
}
