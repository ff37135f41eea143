use initd::config::Parsed;
use initd::walk::{WalkAction, Walker, Waiting};

fn file(text: &str) -> Parsed {
    Parsed::new(text.as_bytes())
}

fn world(_dir: &str, name: &str) -> Option<(String, Parsed)> {
    match name {
        "net.service" => Some((
            "etc".to_string(),
            file("[metadata]\nname = 'network'\n[service]\nrequires = [ 'log' ]\n"),
        )),
        "log.service" => Some(("etc".to_string(), file("[metadata]\nname = 'logger'\n"))),
        "broken.service" => Some((
            "etc".to_string(),
            file("[service]\nrequires = [ 'absent' ]\n"),
        )),
        _ => None,
    }
}

fn walk(root: Option<(String, Parsed)>) -> (Vec<Option<String>>, Vec<String>, bool) {
    let mut started = Vec::new();
    let mut asked = Vec::new();
    let (mut w, mut a) = Walker::<String>::new().loaded(root);
    loop {
        match a {
            WalkAction::Load(f) => {
                assert!(w.waiting() == Waiting::Load);
                let dir = w.top_dir().unwrap().clone();
                asked.push(f.clone());
                let found = world(&dir, &f);
                let next = w.loaded(found);
                w = next.0;
                a = next.1;
            }
            WalkAction::Start(n) => {
                assert!(w.waiting() == Waiting::Resume);
                started.push(n);
                let next = w.resume();
                w = next.0;
                a = next.1;
            }
            WalkAction::Finished(b) => {
                assert!(w.waiting() == Waiting::Done);
                return (started, asked, b);
            }
        }
    }
}

#[test]
fn missing_service_does_not_start() {
    let (started, asked, ok) = walk(None);
    assert!(!ok);
    assert!(started.is_empty() && asked.is_empty());
}

#[test]
fn dependencies_start_first() {
    let root = file("[metadata]\nname = 'sshd'\n[service]\nrequires = [ 'net' ]\nwants = [ 'gone' ]\n");
    let (started, asked, ok) = walk(Some(("etc".to_string(), root)));
    assert!(ok);
    assert_eq!(asked, vec!["net.service", "log.service", "gone.service"]);
    assert_eq!(
        started,
        vec![Some("logger".to_string()), Some("network".to_string()), Some("sshd".to_string())]
    );
}

#[test]
fn missing_requirement_stops_the_service() {
    let root = file("[service]\nrequires = [ 'broken', 'net' ]\n");
    let (started, asked, ok) = walk(Some(("etc".to_string(), root)));
    assert!(!ok);
    assert!(started.is_empty());
    assert_eq!(asked, vec!["broken.service", "absent.service"]);
}

#[test]
fn wanted_service_failing_does_not_stop() {
    let root = file("[service]\nwants = [ 'broken' ]\n");
    let (started, _asked, ok) = walk(Some(("etc".to_string(), root)));
    assert!(ok);
    assert_eq!(started, vec![None]);
}

#[test]
fn required_service_decides_wanted_does_not() {
    let root = file("[service]\nrequires = [ 'log', 'net' ]\nwants = [ 'broken', 'gone' ]\n");
    let (started, asked, ok) = walk(Some(("etc".to_string(), root)));
    assert!(ok);
    assert_eq!(asked, vec!["log.service", "net.service", "log.service", "broken.service", "absent.service", "gone.service"]);
    assert_eq!(started.len(), 4);
}
