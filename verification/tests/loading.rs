use dotconf::config::{Config, KeyConflict};
use dotconf::load::LoadError;
use serde_json::Value;

type Object = serde_json::Map<String, Value>;

fn text(s: &str) -> Value {
    Value::String(s.to_string())
}

fn object(entries: Vec<(&str, Value)>) -> Object {
    let mut m = Object::new();
    for (k, v) in entries {
        m.insert(k.to_string(), v);
    }
    m
}

fn nested(entries: Vec<(&str, Value)>) -> Value {
    Value::Object(object(entries))
}

fn loaded(text: &str) -> Object {
    let mut config = Config::new();
    assert_eq!(config.load_from_str(text), Ok(()));
    config.data
}

#[test]
fn flat_line_is_a_top_level_string() {
    assert_eq!(loaded("key=value"), object(vec![("key", text("value"))]));
    assert_eq!(loaded("  key  =  some value  "), object(vec![("key", text("some value"))]));
}

#[test]
fn dotted_line_is_nested() {
    assert_eq!(
        loaded("a.b.c=1"),
        object(vec![("a", nested(vec![("b", nested(vec![("c", text("1"))]))]))])
    );
}

#[test]
fn blank_lines_and_comments_change_nothing() {
    let mut config = Config::new();
    assert_eq!(config.apply_line("a=1"), Ok(()));
    let before = config.data.clone();
    for line in ["", "   ", "\t", "# a=2", "#a=2", "   # a.b=3", "#"] {
        assert_eq!(config.apply_line(line), Ok(()));
        assert_eq!(config.data, before);
    }
}

#[test]
fn lines_without_equals_sign_change_nothing() {
    let mut config = Config::new();
    assert_eq!(config.apply_line("a=1"), Ok(()));
    let before = config.data.clone();
    for line in ["a", "a.b", "no equals sign here", "a.b.c 2"] {
        assert_eq!(config.apply_line(line), Ok(()));
        assert_eq!(config.data, before);
    }
}

#[test]
fn last_duplicate_wins() {
    assert_eq!(loaded("a=1\na=2"), object(vec![("a", text("2"))]));
    assert_eq!(loaded("a=1\nb=x\na=2\na=3"), object(vec![("a", text("3")), ("b", text("x"))]));
}

#[test]
fn sibling_keys_merge() {
    let want = object(vec![("a", nested(vec![("b", text("1")), ("c", text("2"))]))]);
    assert_eq!(loaded("a.b=1\na.c=2"), want);
    assert_eq!(loaded("a.c=2\na.b=1"), want);
}

#[test]
fn leaf_then_nested_is_a_key_conflict() {
    let mut config = Config::new();
    assert_eq!(config.load_from_str("a=1\na.b=2"), Err(LoadError::KeyConflict { line: 1 }));
    assert_eq!(config.data, object(vec![("a", text("1"))]));
}

#[test]
fn apply_line_reports_the_conflict() {
    let mut config = Config::new();
    assert_eq!(config.apply_line("a = 1"), Ok(()));
    assert_eq!(config.apply_line(" a.b = 2 "), Err(KeyConflict));
    assert_eq!(config.data, object(vec![("a", text("1"))]));
}

#[test]
fn loading_stops_at_the_first_conflict() {
    let mut config = Config::new();
    let done = config.load_from_str("# head\nx=1\n\nx.y=2\nz=3\nx.w=4\n");
    assert_eq!(done, Err(LoadError::KeyConflict { line: 3 }));
    assert_eq!(config.data, object(vec![("x", text("1"))]));
}

#[test]
fn nested_then_leaf_replaces_the_document() {
    assert_eq!(loaded("a.b=1\na=2"), object(vec![("a", text("2"))]));
}

#[test]
fn flat_pairs_come_back() {
    let pairs = [("host", "localhost"), ("port", "8080"), ("user", "admin"), ("empty", "")];
    let mut lines = String::new();
    for (k, v) in pairs {
        lines.push_str(&format!("  {} =\t{}  \n", k, v));
    }
    let data = loaded(&lines);
    assert_eq!(data.len(), pairs.len());
    for (k, v) in pairs {
        assert_eq!(data.get(k), Some(&text(v)));
    }
    let mut recovered: Vec<(String, String)> =
        data.iter().map(|(k, v)| (k.clone(), v.as_str().unwrap().to_string())).collect();
    recovered.sort();
    let mut provided: Vec<(String, String)> =
        pairs.iter().map(|(k, v)| (k.to_string(), v.to_string())).collect();
    provided.sort();
    assert_eq!(recovered, provided);
}

#[test]
fn whole_file() {
    let file = "\
# server settings
server.host = example.org
server.port = 8080

server.tls.cert = /etc/cert.pem
server.tls.key = /etc/key.pem
# overridden below
name = first
stray line
name = second
";
    let want = object(vec![
        (
            "server",
            nested(vec![
                ("host", text("example.org")),
                ("port", text("8080")),
                (
                    "tls",
                    nested(vec![("cert", text("/etc/cert.pem")), ("key", text("/etc/key.pem"))]),
                ),
            ]),
        ),
        ("name", text("second")),
    ]);
    assert_eq!(loaded(file), want);
}

#[test]
fn carriage_returns_are_trimmed() {
    assert_eq!(
        loaded("a=1\r\nb.c=2\r\n\r\n# x\r\n"),
        object(vec![("a", text("1")), ("b", nested(vec![("c", text("2"))]))])
    );
}

#[test]
fn empty_text_loads_nothing() {
    assert_eq!(loaded(""), Object::new());
    assert_eq!(loaded("\n\n\n"), Object::new());
}

#[test]
fn loading_adds_to_what_is_there() {
    let mut config = Config::new();
    assert_eq!(config.load_from_str("a.b=1\nc=2"), Ok(()));
    assert_eq!(config.load_from_str("a.d=3\nc=4"), Ok(()));
    let want = object(vec![("a", nested(vec![("b", text("1")), ("d", text("3"))])), ("c", text("4"))]);
    assert_eq!(config.data, want);
}

#[test]
fn load_lines_applies_in_order() {
    let lines: Vec<String> =
        ["a=1", "", "b.c = 2", "a=3"].iter().map(|l| l.to_string()).collect();
    let mut config = Config::new();
    assert_eq!(config.load_lines(&lines), Ok(()));
    assert_eq!(config.data, object(vec![("a", text("3")), ("b", nested(vec![("c", text("2"))]))]));
}

#[test]
fn load_lines_reports_the_index_of_the_conflict() {
    let lines: Vec<String> =
        ["a.b=1", "a.b.c=2", "d=3"].iter().map(|l| l.to_string()).collect();
    let mut config = Config::new();
    assert_eq!(config.load_lines(&lines), Err(LoadError::KeyConflict { line: 1 }));
    assert_eq!(config.data, object(vec![("a", nested(vec![("b", text("1"))]))]));
    let none: Vec<String> = Vec::new();
    assert_eq!(config.load_lines(&none), Ok(()));
}

#[test]
fn conflict_on_the_first_line() {
    let mut config = Config::new();
    config.data.insert("a".to_string(), Value::Bool(false));
    assert_eq!(config.load_from_str("a.b=1\nc=2"), Err(LoadError::KeyConflict { line: 0 }));
    assert_eq!(config.data, object(vec![("a", Value::Bool(false))]));
}

#[test]
fn long_text_loads() {
    let mut lines = String::new();
    for i in 0..20000 {
        lines.push_str(&format!("group{}.item{} = value {}\n", i % 100, i, i));
    }
    let data = loaded(&lines);
    assert_eq!(data.len(), 100);
    let group = data.get("group7").unwrap().as_object().unwrap();
    assert_eq!(group.len(), 200);
    assert_eq!(group.get("item107"), Some(&text("value 107")));
    assert_eq!(group.get("item19907"), Some(&text("value 19907")));
}
