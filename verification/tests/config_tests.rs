use hocon::error::Error;
use hocon::loader_config::{
    ConfFileMeta, FileRead, FileType, HoconLoaderConfig, SourceTexts, UrlParts, UrlPlan,
};
use hocon::paths::{directory, extension, has_file_name, join, with_extension};
use hocon::value::PathItem;

fn chars(t: &str) -> Vec<char> {
    t.chars().collect()
}

fn text(t: Vec<char>) -> String {
    t.into_iter().collect()
}

#[test]
fn default_configuration() {
    let c = HoconLoaderConfig::default();
    assert_eq!(c.include_depth, 0);
    assert_eq!(c.file_meta, None);
    assert!(c.system);
    assert!(c.external_url);
    assert!(!c.strict);
    assert_eq!(c.max_include_depth, 10);
}

#[test]
fn from_file_type_puts_the_text_under_its_format() {
    let s = String::from("x");
    assert_eq!(
        FileRead::from_file_type(&FileType::Properties, s.clone()),
        FileRead { properties: Some(s.clone()), json: None, hocon: None }
    );
    assert_eq!(
        FileRead::from_file_type(&FileType::Json, s.clone()),
        FileRead { properties: None, json: Some(s.clone()), hocon: None }
    );
    assert_eq!(
        FileRead::from_file_type(&FileType::Hocon, s.clone()),
        FileRead { properties: None, json: None, hocon: Some(s) }
    );
}

#[test]
fn included_from_goes_one_level_deeper() {
    let c = HoconLoaderConfig { include_depth: 4, strict: true, ..HoconLoaderConfig::default() };
    let d = c.included_from();
    assert_eq!(d.include_depth, 5);
    assert!(d.strict);
    assert_eq!(d.max_include_depth, 10);
}

#[test]
fn with_file_looks_beside_the_current_file() {
    let c = HoconLoaderConfig::default().with_file("/etc/app/main.conf");
    let meta = c.file_meta.as_ref().expect("the file is known");
    assert_eq!(text(meta.full_path()), "/etc/app/main.conf");
    assert_eq!(text(meta.directory()), "/etc/app/");
    assert_eq!(meta.file_type(), FileType::Hocon);
    let d = c.with_file("sub/other.json");
    let meta = d.file_meta.as_ref().expect("the file is known");
    assert_eq!(text(meta.full_path()), "/etc/app/sub/other.json");
    assert_eq!(text(meta.directory()), "/etc/app/sub/");
    assert_eq!(meta.file_type(), FileType::Json);
    let e = d.with_file("/abs/x.properties");
    assert_eq!(text(e.file_meta.as_ref().expect("the file is known").full_path()), "/abs/x.properties");
}

#[test]
fn file_type_goes_by_the_extension() {
    assert_eq!(ConfFileMeta::from_path(chars("a.properties")).file_type(), FileType::Properties);
    assert_eq!(ConfFileMeta::from_path(chars("a.json")).file_type(), FileType::Json);
    assert_eq!(ConfFileMeta::from_path(chars("a.conf")).file_type(), FileType::Hocon);
    assert_eq!(ConfFileMeta::from_path(chars("a.txt")).file_type(), FileType::All);
    assert_eq!(ConfFileMeta::from_path(chars("a")).file_type(), FileType::All);
    assert_eq!(ConfFileMeta::from_path(chars(".conf")).file_type(), FileType::All);
    assert_eq!(ConfFileMeta::from_path(chars("dir.json/a")).file_type(), FileType::All);
}

#[test]
fn remaining_only_whitespace_allows_line_ends_and_the_terminator() {
    assert!(HoconLoaderConfig::remaining_only_whitespace(""));
    assert!(HoconLoaderConfig::remaining_only_whitespace("\n\r\n\0"));
    assert!(!HoconLoaderConfig::remaining_only_whitespace("\n \n"));
    assert!(!HoconLoaderConfig::remaining_only_whitespace("\n}\n\0"));
}

#[test]
fn candidates_of_a_file_without_known_extension() {
    let c = HoconLoaderConfig::default().with_file("dir/app");
    let k = c.candidates();
    assert_eq!(k.plain, "dir/app");
    assert_eq!(k.conf.as_deref(), Some("dir/app.conf"));
    assert_eq!(k.json.as_deref(), Some("dir/app.json"));
    assert_eq!(k.properties.as_deref(), Some("dir/app.properties"));
    let c = HoconLoaderConfig::default().with_file("dir/app.txt");
    let k = c.candidates();
    assert_eq!(k.plain, "dir/app.txt");
    assert_eq!(k.conf.as_deref(), Some("dir/app.conf"));
}

#[test]
fn candidates_of_a_file_with_known_extension() {
    let c = HoconLoaderConfig::default().with_file("dir/app.json");
    let k = c.candidates();
    assert_eq!(k.plain, "dir/app.json");
    assert_eq!(k.conf, None);
    assert_eq!(k.json, None);
    assert_eq!(k.properties, None);
}

fn texts(plain_exists: bool, plain: Result<&str, Error>) -> SourceTexts {
    SourceTexts {
        plain_exists,
        plain: plain.map(String::from),
        conf: Some(String::from("conf text")),
        json: Some(String::from("json text")),
        properties: None,
    }
}

#[test]
fn read_file_of_known_format_takes_the_file_itself() {
    let c = HoconLoaderConfig::default().with_file("a.json");
    assert_eq!(
        c.read_file(texts(true, Ok("plain text"))),
        Ok(FileRead { properties: None, json: Some(String::from("plain text")), hocon: None })
    );
    let failure = Error::Io { message: String::from("denied") };
    assert_eq!(c.read_file(texts(false, Err(failure.clone()))), Err(failure));
}

#[test]
fn read_file_of_unknown_format_takes_what_is_there() {
    let c = HoconLoaderConfig::default().with_file("a");
    assert_eq!(
        c.read_file(texts(true, Ok("plain text"))),
        Ok(FileRead {
            properties: None,
            json: Some(String::from("json text")),
            hocon: Some(String::from("plain text"))
        })
    );
    assert_eq!(
        c.read_file(texts(false, Err(Error::Io { message: String::from("missing") }))),
        Ok(FileRead {
            properties: None,
            json: Some(String::from("json text")),
            hocon: Some(String::from("conf text"))
        })
    );
    assert_eq!(
        c.read_file(texts(true, Err(Error::Io { message: String::from("denied") }))),
        Ok(FileRead { properties: None, json: Some(String::from("json text")), hocon: None })
    );
}

#[test]
fn plan_url_for_each_kind_of_url() {
    let c = HoconLoaderConfig::default().with_file("/etc/main.conf");
    let refused = Err(Error::Include { path: String::from("u") });
    assert_eq!(c.plan_url("u", None), refused);
    let file = |path: Option<&str>| {
        Some(UrlParts { scheme: String::from("file"), file_path: path.map(String::from) })
    };
    assert_eq!(c.plan_url("u", file(None)), refused);
    assert_eq!(c.plan_url("u", file(Some("/"))), refused);
    assert_eq!(c.plan_url("u", file(Some("/tmp/.."))), refused);
    match c.plan_url("u", file(Some("/tmp/x.conf"))) {
        Ok(UrlPlan::ReadFile(next)) => {
            assert_eq!(next.include_depth, 1);
            assert_eq!(text(next.file_meta.expect("the file is known").full_path()), "/tmp/x.conf");
        }
        other => panic!("expected a file to read, got {:?}", other),
    }
    let http = || Some(UrlParts { scheme: String::from("http"), file_path: None });
    assert_eq!(c.plan_url("u", http()), Ok(UrlPlan::Fetch(String::from("u"))));
    let quiet = HoconLoaderConfig { external_url: false, ..HoconLoaderConfig::default() };
    assert_eq!(quiet.plan_url("u", http()), refused);
    let deepest = HoconLoaderConfig { include_depth: u8::MAX, ..HoconLoaderConfig::default() };
    assert_eq!(deepest.plan_url("u", file(Some("/tmp/x.conf"))), refused);
}

#[test]
fn load_url_reads_the_scheme_of_the_url() {
    let c = HoconLoaderConfig::default();
    assert_eq!(c.load_url("not a url"), Err(Error::Include { path: String::from("not a url") }));
    assert_eq!(
        c.load_url("https://example.com/a.conf"),
        Ok(UrlPlan::Fetch(String::from("https://example.com/a.conf")))
    );
    match c.load_url("file:///srv/cfg/a.conf") {
        Ok(UrlPlan::ReadFile(next)) => {
            assert_eq!(text(next.file_meta.expect("the file is known").full_path()), "/srv/cfg/a.conf");
        }
        other => panic!("expected a file to read, got {:?}", other),
    }
}

#[test]
fn paths_are_split_at_the_last_slash() {
    assert_eq!(text(directory(&chars("/a/b/c.conf"))), "/a/b/");
    assert_eq!(text(directory(&chars("c.conf"))), "");
    assert_eq!(text(directory(&chars("/c"))), "/");
    assert!(has_file_name(&chars("a/b")));
    assert!(has_file_name(&chars("...")));
    assert!(has_file_name(&chars("a/")));
    assert!(!has_file_name(&chars("")));
    assert!(!has_file_name(&chars("a/..")));
    assert!(!has_file_name(&chars(".")));
}

#[test]
fn extensions_follow_the_last_dot_of_the_file_name() {
    assert_eq!(text(extension(&chars("a.b/c.tar.gz"))), "gz");
    assert_eq!(text(extension(&chars("a.b/c"))), "");
    assert_eq!(text(extension(&chars(".profile"))), "");
    assert_eq!(text(extension(&chars("x."))), "");
    assert_eq!(text(with_extension(&chars("a.b/c.tar.gz"), &chars("conf"))), "a.b/c.tar.conf");
    assert_eq!(text(with_extension(&chars("a.b/c"), &chars("conf"))), "a.b/c.conf");
    assert_eq!(text(with_extension(&chars(".profile"), &chars("json"))), ".profile.json");
}

#[test]
fn join_keeps_paths_from_the_root() {
    assert_eq!(text(join(&chars("/a/"), &chars("b/c"))), "/a/b/c");
    assert_eq!(text(join(&chars("/a/"), &chars("/b/c"))), "/b/c");
    assert_eq!(text(join(&chars(""), &chars("b"))), "b");
}

#[test]
fn append_operators_of_two_parses_have_different_ids() {
    let parse = || {
        HoconLoaderConfig::default()
            .parse_str_to_internal(FileRead { properties: None, json: None, hocon: Some(String::from("a += 1")) })
            .expect("the text parses")
    };
    let (first, second) = (parse(), parse());
    let id = |doc: &hocon::document::Document| match &doc.entries[0].path[1] {
        PathItem::Append(id) => (id.tag.clone(), id.offset),
        other => panic!("expected an append step, got {:?}", other),
    };
    assert_eq!(id(&first).1, 2);
    assert_eq!(id(&second).1, 2);
    assert_eq!(id(&first).0.len(), 36);
    assert_ne!(id(&first).0, id(&second).0);
}

#[test]
fn properties_are_decoded_line_by_line() {
    let doc = HoconLoaderConfig::default()
        .parse_str_to_internal(FileRead {
            properties: Some(String::from("# comment\na.b = one\\ntwo\nc:3\n! other\nd e\n")),
            json: None,
            hocon: None,
        })
        .expect("the text parses");
    let pairs: Vec<(String, String)> = doc
        .entries
        .iter()
        .map(|e| {
            let key = match &e.path[0] {
                PathItem::Key(k) => k.iter().collect(),
                other => panic!("expected a key, got {:?}", other),
            };
            let value = match &e.value {
                hocon::value::Value::String(v) => v.iter().collect(),
                other => panic!("expected a string, got {:?}", other),
            };
            (key, value)
        })
        .collect();
    assert_eq!(
        pairs,
        vec![
            (String::from("a.b"), String::from("one\ntwo")),
            (String::from("c"), String::from("3")),
            (String::from("d"), String::from("e"))
        ]
    );
}

#[test]
fn malformed_properties_are_a_parse_error() {
    let r = HoconLoaderConfig::default().parse_str_to_internal(FileRead {
        properties: Some(String::from("a = \\u12")),
        json: None,
        hocon: None,
    });
    assert_eq!(r, Err(Error::Parse));
}

#[test]
fn append_operator_carries_a_random_identifier() {
    let doc = HoconLoaderConfig::default()
        .parse_str_to_internal(FileRead { properties: None, json: None, hocon: Some(String::from("a += 1")) })
        .expect("the text parses");
    let tag: Vec<char> = match &doc.entries[0].path[1] {
        PathItem::Append(id) => id.tag.clone(),
        other => panic!("expected an append step, got {:?}", other),
    };
    assert_eq!(tag.len(), 36);
    for (i, c) in tag.iter().enumerate() {
        if i == 8 || i == 13 || i == 18 || i == 23 {
            assert_eq!(*c, '-');
        } else {
            assert!(matches!(*c, '0'..='9' | 'a'..='f'), "{:?} at {}", c, i);
        }
    }
    assert_eq!(tag[14], '4');
    assert!(matches!(tag[19], '8' | '9' | 'a' | 'b'));
}

#[test]
fn slashes_at_the_end_of_a_path_are_passed_over() {
    assert!(has_file_name(&chars("conf.d/")));
    assert!(has_file_name(&chars("/etc/app.conf//")));
    assert!(!has_file_name(&chars("/")));
    assert!(!has_file_name(&chars("//")));
    assert!(!has_file_name(&chars("a/../")));
    assert!(!has_file_name(&chars("./")));
    let meta = ConfFileMeta::from_path(chars("/etc/conf.d/"));
    assert_eq!(text(meta.directory()), "/etc/");
    assert_eq!(text(meta.full_path()), "/etc/conf.d");
    assert_eq!(meta.file_type(), FileType::All);
    let meta = ConfFileMeta::from_path(chars("app.json/"));
    assert_eq!(text(meta.directory()), "");
    assert_eq!(text(meta.full_path()), "app.json");
    assert_eq!(meta.file_type(), FileType::Json);
    let config = HoconLoaderConfig::default().with_file("conf.d/");
    assert_eq!(config.candidates().plain, "conf.d");
    assert_eq!(config.candidates().json, Some(String::from("conf.json")));
}
