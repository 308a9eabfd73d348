use projector::config::Config;
use projector::config::Operation;
use projector::json::render_map;
use projector::paths::parent_of;
use projector::projector::default_projector;
use projector::projector::Projector;

fn store_content() -> String {
    String::from(
        "{\"projector\": {\"/\": {\"foo\": \"bar1\", \"fem\": \"meh\"}, \"/foo\": {\"foo\": \"bar2\"}, \"/foo/bar\": {\"foo\": \"bar3\"}}}",
    )
}

fn config_at(pwd: &str) -> Config {
    Config {
        operation: Operation::Print(None),
        config: String::from(""),
        pwd: String::from(pwd),
    }
}

fn get_projector(pwd: &str) -> Projector {
    Projector::load(config_at(pwd), Some(&store_content()))
}

#[test]
fn get_value_all() {
    let projector = get_projector("/foo/bar");
    let all = projector.get_value_all();
    assert_eq!(all.len(), 2);
    assert_eq!(all.get("foo"), Some(&String::from("bar3")));
    assert_eq!(all.get("fem"), Some(&String::from("meh")));
}

#[test]
fn get_value() {
    let mut projector = get_projector("/foo/bar");
    assert_eq!(projector.get_value("foo"), Some(&"bar3".to_string()));
    projector = get_projector("/foo");
    assert_eq!(projector.get_value("foo"), Some(&"bar2".to_string()));
    assert_eq!(projector.get_value("fem"), Some(&"meh".to_string()));
}

#[test]
fn set_value() {
    let mut projector = get_projector("/foo/bar");
    projector.set_value("foo", "bar4");
    assert_eq!(projector.get_value("foo"), Some(&"bar4".to_string()));

    projector.set_value("fem", "meeeh");
    assert_eq!(projector.get_value("fem"), Some(&"meeeh".to_string()));

    projector = get_projector("/");
    assert_eq!(projector.get_value("fem"), Some(&"meh".to_string()));
}

#[test]
fn remove_value() {
    let mut projector = get_projector("/foo/bar");
    projector.remove_value("fem");
    assert_eq!(projector.get_value("fem"), Some(&"meh".to_string()));

    projector.remove_value("foo");
    assert_eq!(projector.get_value("foo"), Some(&"bar2".to_string()));
}

#[test]
fn set_value_scoped_to_working_directory() {
    let mut projector = get_projector("/foo/bar");
    projector.set_value("foo", "bar4");
    let text = projector.to_json();

    let below = Projector::load(config_at("/foo/bar"), Some(&text));
    assert_eq!(below.get_value("foo"), Some(&"bar4".to_string()));
    let middle = Projector::load(config_at("/foo"), Some(&text));
    assert_eq!(middle.get_value("foo"), Some(&"bar2".to_string()));
    let root = Projector::load(config_at("/"), Some(&text));
    assert_eq!(root.get_value("foo"), Some(&"bar1".to_string()));
}

#[test]
fn save_and_reload_keeps_data() {
    let projector = get_projector("/foo/bar");
    let text = projector.to_json();
    let reloaded = Projector::load(config_at("/foo/bar"), Some(&text));
    assert_eq!(reloaded.get_value("foo"), Some(&"bar3".to_string()));
    assert_eq!(reloaded.get_value("fem"), Some(&"meh".to_string()));
    assert_eq!(reloaded.to_json(), text);
}

#[test]
fn to_json_pretty_format() {
    let mut projector = Projector::load(config_at("/"), None);
    projector.set_value("foo", "bar");
    assert_eq!(
        projector.to_json(),
        "{\n  \"projector\": {\n    \"/\": {\n      \"foo\": \"bar\"\n    }\n  }\n}",
    );
}

#[test]
fn render_map_pretty_format() {
    let projector = get_projector("/foo");
    let all = projector.get_value_all();
    let text = render_map(&all);
    assert!(text.starts_with("{\n  \""));
    assert!(text.ends_with("\"\n}"));
    assert!(text.contains("\"foo\": \"bar2\""));
    assert!(text.contains("\"fem\": \"meh\""));
}

#[test]
fn escaped_characters_round_trip() {
    let mut projector = Projector::load(config_at("/"), None);
    projector.set_value("we\"ird\\key", "line\nbreak\tand more");
    let text = projector.to_json();
    let reloaded = Projector::load(config_at("/"), Some(&text));
    assert_eq!(
        reloaded.get_value("we\"ird\\key"),
        Some(&"line\nbreak\tand more".to_string()),
    );
}

#[test]
fn unicode_escape_is_accepted() {
    let text = "{\"projector\": {\"/\": {\"foo\": \"a\\u0009b\"}}}";
    let projector = Projector::load(config_at("/"), Some(text));
    assert_eq!(projector.get_value("foo"), Some(&"a\tb".to_string()));
}

#[test]
fn bmp_unicode_escape_is_accepted() {
    let text = "{\"projector\": {\"/\": {\"foo\": \"a\\u20acb\"}}}";
    let projector = Projector::load(config_at("/"), Some(text));
    assert_eq!(projector.get_value("foo"), Some(&"a\u{20AC}b".to_string()));
}

#[test]
fn surrogate_pair_escape_is_accepted() {
    let text = "{\"projector\": {\"/\": {\"foo\": \"\\uD83D\\uDE00\"}}}";
    let projector = Projector::load(config_at("/"), Some(text));
    assert_eq!(projector.get_value("foo"), Some(&"\u{1F600}".to_string()));
}

#[test]
fn lone_surrogate_yields_empty() {
    let text = "{\"projector\": {\"/\": {\"foo\": \"\\uD83D\"}}}";
    let projector = Projector::load(config_at("/"), Some(text));
    assert_eq!(projector.get_value("foo"), None);
    assert_eq!(projector.get_value_all().len(), 0);
}

#[test]
fn control_characters_render_as_unicode_escapes() {
    let mut projector = Projector::load(config_at("/"), None);
    projector.set_value("foo", "a\u{1}b\u{1f}c");
    let text = projector.to_json();
    assert!(text.contains("a\\u0001b\\u001fc"));
    let reloaded = Projector::load(config_at("/"), Some(&text));
    assert_eq!(reloaded.get_value("foo"), Some(&"a\u{1}b\u{1f}c".to_string()));
}

#[test]
fn missing_store_file_yields_empty() {
    let projector = Projector::load(config_at("/foo/bar"), None);
    assert_eq!(projector.get_value("foo"), None);
    assert_eq!(projector.get_value_all().len(), 0);
}

#[test]
fn malformed_store_file_yields_empty() {
    for bad in [
        "",
        "not json at all",
        "{\"projector\": oops}",
        "{\"projector\": {\"/\": {\"foo\": 3}}}",
        "{\"other\": {}}",
        "{\"projector\": {}} trailing",
    ] {
        let projector = Projector::load(config_at("/foo/bar"), Some(bad));
        assert_eq!(projector.get_value("foo"), None);
        assert_eq!(projector.get_value_all().len(), 0);
    }
}

#[test]
fn empty_store_parses() {
    let projector = Projector::load(config_at("/"), Some("{\"projector\": {}}"));
    assert_eq!(projector.get_value_all().len(), 0);
}

#[test]
fn default_projector_is_empty() {
    let cfg = config_at("/foo");
    let projector = default_projector(&cfg);
    assert_eq!(projector.get_value_all().len(), 0);
    assert_eq!(projector.get_value("foo"), None);
}

#[test]
fn parent_of_walks_up_to_root() {
    assert_eq!(parent_of("/foo/bar"), Some(String::from("/foo")));
    assert_eq!(parent_of("/foo"), Some(String::from("/")));
    assert_eq!(parent_of("/"), None);
    assert_eq!(parent_of("rel"), Some(String::from("")));
    assert_eq!(parent_of(""), None);
}
