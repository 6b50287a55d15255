use tiramisu::config::{resolve, root_pattern, GlobMatch, Session, Window};

fn spec() -> Session {
    Session {
        root: "$HOME/code/(*)".to_string(),
        name: "code-$1".to_string(),
        window: vec![Window {
            name: "$1".to_string(),
            command: "cd $0 && $EDITOR".to_string(),
            kill: vec!["C-c".to_string()],
        }],
    }
}

fn env() -> Vec<(String, String)> {
    vec![("HOME".to_string(), "/home/me".to_string()), ("EDITOR".to_string(), "vim".to_string())]
}

fn hit(path: &str, group: &str, is_dir: bool) -> Result<GlobMatch, String> {
    Ok(GlobMatch { path: path.to_string(), is_dir, groups: vec![path.to_string(), group.to_string()] })
}

#[test]
fn root_is_expanded_without_captures() {
    assert_eq!(root_pattern(&spec(), &env()), "/home/me/code/(*)");
}

#[test]
fn each_directory_gives_a_candidate() {
    let entries = vec![
        hit("/home/me/code/a", "a", true),
        hit("/home/me/code/readme", "readme", false),
        Err("permission denied".to_string()),
        hit("/home/me/code/b", "b", true),
    ];
    let r = resolve(&spec(), &entries, &env());
    assert_eq!(r.len(), 2);
    assert_eq!(r[0].name, "code-a");
    assert_eq!(r[0].root, "/home/me/code/a");
    assert_eq!(r[0].window[0].name, "a");
    assert_eq!(r[0].window[0].command, "cd /home/me/code/a && vim");
    assert_eq!(r[0].window[0].kill, vec!["C-c".to_string()]);
    assert_eq!(r[1].name, "code-b");
}

#[test]
fn no_directory_no_candidate() {
    assert!(resolve(&spec(), &vec![], &env()).is_empty());
}
