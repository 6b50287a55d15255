use tiramisu::config::Window;
use tiramisu::session_list::{Session, State};
use tiramisu::tmux::{create_session, kill, list_sessions, open, KillRefused, Tmux};

fn strings(v: &[&str]) -> Vec<String> {
    v.iter().map(|s| s.to_string()).collect()
}

fn session(state: State, kill_keys: &[&str]) -> Session {
    Session {
        state,
        root: "/home/me".to_string(),
        windows: vec![
            Window { name: "edit".to_string(), command: "vim".to_string(), kill: vec![] },
            Window { name: "shell".to_string(), command: String::new(), kill: strings(kill_keys) },
        ],
    }
}

#[test]
fn listing_splits_attached_from_created() {
    let (a, c) = list_sessions("main 1\nwork 0\nother 2\n").unwrap();
    assert_eq!(a, strings(&["main"]));
    assert_eq!(c, strings(&["work", "other"]));
}

#[test]
fn listing_handles_empty_and_crlf() {
    assert_eq!(list_sessions(""), Some((vec![], vec![])));
    assert_eq!(list_sessions("x 1\r\ny 0"), Some((strings(&["x"]), strings(&["y"]))));
}

#[test]
fn listing_rejects_malformed_lines() {
    assert_eq!(list_sessions("bad\n"), None);
    assert_eq!(list_sessions("a 1\nb yes\n"), None);
    assert_eq!(list_sessions("a 1\n\nb 0\n"), None);
}

#[test]
fn command_drops_empty_parts() {
    let mut t = Tmux::new();
    t.command(&vec!["ls", "", "-F"]);
    t.command(&vec!["x"]);
    assert_eq!(t.args(), &strings(&["ls", "-F", ";", "x", ";"]));
}

#[test]
fn output_bytes_become_text() {
    assert_eq!(Tmux::to_string(b"a 1\n".to_vec()), "a 1\n");
    assert_eq!(Tmux::to_string(vec![0xff, 0xfe]), "");
}

#[test]
fn create_builds_session_then_windows() {
    let t = create_session(&"proj".to_string(), &session(State::Undeclared, &[]));
    assert_eq!(
        t.args(),
        &strings(&[
            "new-session", "-d", "-s", "proj", "-c", "/home/me", "-n", "edit", "vim", ";",
            "new-window", "-t", "proj:1", "-c", "/home/me", "-n", "shell", ";",
        ])
    );
}

#[test]
fn kill_refuses_unless_created() {
    assert_eq!(kill(&"p".to_string(), &session(State::Undeclared, &[])).err(), Some(KillRefused::NotCreated));
    assert_eq!(kill(&"p".to_string(), &session(State::Attached, &[])).err(), Some(KillRefused::Attached));
}

#[test]
fn kill_sends_keys_or_kills_windows() {
    let t = kill(&"p".to_string(), &session(State::Created, &["C-c", "exit", "Enter"])).ok().unwrap();
    assert_eq!(
        t.args(),
        &strings(&["kill-window", "-t", "p:0", ";", "send-keys", "-t", "p:1", "C-c", "exit", "Enter", ";"])
    );
}

#[test]
fn window_targets_use_decimal_indices() {
    let mut s = session(State::Created, &[]);
    for i in 0..10 {
        s.windows.push(Window { name: format!("w{}", i), command: String::new(), kill: vec![] });
    }
    let t = kill(&"p".to_string(), &s).ok().unwrap();
    assert!(t.args().contains(&"p:11".to_string()));
}

#[test]
fn open_creates_only_undeclared_sessions() {
    let plan = open(&"p".to_string(), &session(State::Undeclared, &[]), true);
    assert!(plan.create.is_some());
    assert_eq!(plan.attach.args(), &strings(&["switch-client", "-t", "p", ";"]));
    assert!(!plan.inherit);
    let plan = open(&"p".to_string(), &session(State::Created, &[]), false);
    assert!(plan.create.is_none());
    assert_eq!(plan.attach.args(), &strings(&["attach", "-t", "p", ";"]));
    assert!(plan.inherit);
}
