use initd::run::{RunAction, RunError, RunWaiting, Runner};
use initd::service::{Service, ServiceManager};

fn load(name: &str) -> Result<Service, String> {
    match name {
        "net" => Ok(Service::new("net.service", b"[service]\nRequires = 'log'\n")),
        "log" => Ok(Service::new("log.service", b"")),
        "bad" => Ok(Service::new("bad.service", b"[service]\nRequires = 'nowhere'\n")),
        _ => Err(format!("no file {}", name)),
    }
}

fn drive(root: &Service, exec: &dyn Fn(&str) -> Result<isize, String>) -> (Vec<String>, Result<isize, RunError<String>>) {
    let m = ServiceManager::init();
    let mut execs = Vec::new();
    let (mut r, mut a): (Runner, RunAction<String>) = m.start_run(root);
    loop {
        match a {
            RunAction::Load(name) => {
                assert!(r.waiting() == RunWaiting::Load);
                let next = r.loaded(load(&name));
                r = next.0;
                a = next.1;
            }
            RunAction::Exec(fname) => {
                assert!(r.waiting() == RunWaiting::Exec);
                execs.push(fname.clone());
                let next = r.executed(exec(&fname));
                r = next.0;
                a = next.1;
            }
            RunAction::Finished(out) => {
                assert!(r.waiting() == RunWaiting::Done);
                return (execs, out);
            }
        }
    }
}

#[test]
fn service_without_requirements_executes() {
    let root = Service::new("a.service", b"");
    let (execs, out) = drive(&root, &|_| Ok(0));
    assert_eq!(execs, vec!["a.service"]);
    assert!(matches!(out, Ok(0)));
}

#[test]
fn requirements_execute_first() {
    let root = Service::new("a.service", b"[service]\nRequires = 'net'\n");
    let (execs, out) = drive(&root, &|_| Ok(3));
    assert_eq!(execs, vec!["log.service", "net.service", "a.service"]);
    assert!(matches!(out, Ok(3)));
}

#[test]
fn unreadable_requirement_is_an_io_error() {
    let root = Service::new("a.service", b"[service]\nRequires = 'missing'\n");
    let (execs, out) = drive(&root, &|_| Ok(0));
    assert!(execs.is_empty());
    match out {
        Err(RunError::Io(e)) => assert_eq!(e, "no file missing"),
        _ => panic!(),
    }
}

#[test]
fn failing_requirement_is_not_found() {
    let root = Service::new("a.service", b"[service]\nRequires = 'bad'\n");
    let (execs, out) = drive(&root, &|_| Ok(0));
    assert!(execs.is_empty());
    assert!(matches!(out, Err(RunError::NotFound)));
    let root = Service::new("a.service", b"[service]\nRequires = 'log'\n");
    let (execs, out) = drive(&root, &|_| Err("exec failed".to_string()));
    assert_eq!(execs, vec!["log.service"]);
    assert!(matches!(out, Err(RunError::NotFound)));
}

#[test]
fn failing_program_is_an_io_error() {
    let root = Service::new("a.service", b"");
    let (_, out) = drive(&root, &|_| Err("denied".to_string()));
    match out {
        Err(RunError::Io(e)) => assert_eq!(e, "denied"),
        _ => panic!(),
    }
}

#[test]
fn program_command() {
    assert_eq!(initd::run::exec_command(), vec!["/bin/sh", "-c", "aasdas"]);
}
