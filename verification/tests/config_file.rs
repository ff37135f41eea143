use initd::config::Parsed;

const SAMPLE: &[u8] = b"[metadata]
name = 'sshd'
[service]
requires = [ 'net', 'log' ]
wants = [ 'x,y' ]
label = plain value
";

#[test]
fn reads_strings_under_table_names() {
    let p = Parsed::new(SAMPLE);
    assert_eq!(p.get_string("metadata.name").map(|s| s.as_str()), Some("sshd"));
    assert_eq!(p.get_string("service.label").map(|s| s.as_str()), Some("plainvalue"));
}

#[test]
fn reads_arrays() {
    let p = Parsed::new(SAMPLE);
    let req = p.get_array("service.requires").unwrap();
    assert_eq!(req, &vec!["net".to_string(), "log".to_string()]);
    let wants = p.get_array("service.wants").unwrap();
    assert_eq!(wants, &vec!["x,y".to_string()]);
}

#[test]
fn string_and_array_lookups_do_not_mix() {
    let p = Parsed::new(SAMPLE);
    assert!(p.get_array("metadata.name").is_none());
    assert!(p.get_string("service.requires").is_none());
    assert!(p.get_string("missing").is_none());
    assert!(p.get_array("missing").is_none());
}

#[test]
fn last_line_without_break_is_lost() {
    let p = Parsed::new(b"a = 'b'");
    assert!(p.get_string("a").is_none());
    let p = Parsed::new(b"a = 'b'\n");
    assert_eq!(p.get_string("a").map(|s| s.as_str()), Some("b"));
}

#[test]
fn later_line_replaces_earlier() {
    let p = Parsed::new(b"a = 'b'\na = 'c'\n");
    assert_eq!(p.get_string("a").map(|s| s.as_str()), Some("c"));
}

#[test]
fn empty_value_takes_last_array() {
    let p = Parsed::new(b"a = [ 'x' ]\nb =\n");
    assert_eq!(p.get_array("b"), Some(&vec!["x".to_string()]));
}

#[test]
fn quoted_text_spans_lines() {
    let p = Parsed::new(b"k = 'one\ntwo'\n");
    assert_eq!(p.get_string("k").map(|s| s.as_str()), Some("one\ntwo"));
}

#[test]
fn bytes_read_as_latin1() {
    let p = Parsed::new(b"k = '\xe9'\n");
    assert_eq!(p.get_string("k").map(|s| s.as_str()), Some("\u{e9}"));
}

#[test]
fn empty_text_defines_nothing() {
    let p = Parsed::new(b"");
    assert!(p.get_string("").is_none());
}

#[test]
fn keys_and_strings_are_never_empty() {
    let p = Parsed::new(b"= 'x'\n[t]\n= 'y'\nk =\n");
    assert!(p.get_string("").is_none() && p.get_array("").is_none());
    assert!(p.get_string("t.").is_none() && p.get_array("t.").is_none());
    assert!(p.get_string("t.k").is_none());
    assert_eq!(p.get_array("t.k"), Some(&Vec::new()));
}
