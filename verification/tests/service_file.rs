use initd::service::{Service, ServiceManager};

const SAMPLE: &[u8] = b"
ip = '127.0.1.1'

[keys.subkeys]
github = 'xxxxxxxxx
xxxxxxxx'


travis = 'yyyyyyyy
yy yyyyyyy'
dependencies = [ 'x,x', 'y
yyy
yysy', 'zz zzz']

[hello]
twitter = 'id'";

#[test]
fn parse_service_file() {
    let pairs = Service::open(SAMPLE);
    for (key, value) in pairs.iter() {
        match key.as_str() {
            "ip" => assert_eq!(value, "127.0.1.1"),
            "keys.subkeys.github" => assert_eq!(value, "xxxxxxxxx\nxxxxxxxx"),
            "keys.subkeys.travis" => assert_eq!(value, "yyyyyyyy\nyy yyyyyyy"),
            "keys.subkeys.dependencies" => assert_eq!(value, "x,x'y\nyyy\nyysy'zz zzz"),
            "hello.twitter" => assert_eq!(value, "id"),
            _ => assert!(false, "malformed data!"),
        }
    }
}

#[test]
fn open_yields_pairs_in_line_order() {
    let pairs = Service::open(SAMPLE);
    let expected = vec![
        ("ip", "127.0.1.1"),
        ("keys.subkeys.github", "xxxxxxxxx\nxxxxxxxx"),
        ("keys.subkeys.travis", "yyyyyyyy\nyy yyyyyyy"),
        ("keys.subkeys.dependencies", "x,x'y\nyyy\nyysy'zz zzz"),
    ];
    assert_eq!(pairs.len(), expected.len());
    for (p, e) in pairs.iter().zip(expected.iter()) {
        assert_eq!(p.0, e.0);
        assert_eq!(p.1, e.1);
    }
}

#[test]
fn open_drops_a_last_line_without_line_break() {
    let pairs = Service::open(b"a = 'b'");
    assert!(pairs.is_empty());
    let pairs = Service::open(b"a = 'b'\n");
    assert_eq!(pairs, vec![("a".to_string(), "b".to_string())]);
}

#[test]
fn open_splits_at_first_equals_sign() {
    let pairs = Service::open(b"k = 'a=b'\n");
    assert_eq!(pairs, vec![("k".to_string(), "a=b".to_string())]);
}

#[test]
fn new_reads_label_and_requirements() {
    let data = b"[service]\nLabel = 'sshd'\nRequires = [ 'net', 'log' ]\nOther = 'x'\n";
    let s = Service::new("sshd.service", data);
    assert_eq!(s.name, "sshd");
    assert_eq!(s.requires, vec!["net".to_string(), "log".to_string()]);
    assert_eq!(s.fname, "sshd.service");
    assert!(s.program.is_empty());
}

#[test]
fn new_without_entries_is_empty() {
    let s = Service::new("x.service", b"");
    assert_eq!(s.name, "");
    assert!(s.requires.is_empty());
}

#[test]
fn default_service_is_empty() {
    let s = Service::default();
    assert_eq!(s.name, "");
    assert_eq!(s.fname, "");
    assert!(s.requires.is_empty() && s.program.is_empty());
}

#[test]
fn init_manager() {
    let _m = ServiceManager::init();
}

#[test]
fn requirements_rejoin_to_the_value() {
    let s = Service::new("a.service", b"[service]\nRequires = 'x',,'y'\n");
    assert_eq!(s.requires, vec!["x".to_string(), "".to_string(), "y".to_string()]);
    assert_eq!(s.requires.join("'"), "x''y");
    let s = Service::new("a.service", b"[service]\nRequires = a,b\n");
    assert_eq!(s.requires, vec!["a".to_string(), "b".to_string()]);
    let s = Service::new("a.service", b"[service]\nRequires =\n");
    assert_eq!(s.requires, vec!["".to_string()]);
}
