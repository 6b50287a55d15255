use tiramisu::config::{Session as Spec, Window};
use tiramisu::fzf::fzf;
use tiramisu::session_list::{SessionList, State};

fn spec(name: &str) -> Spec {
    Spec {
        root: format!("/src/{}", name),
        name: name.to_string(),
        window: vec![Window { name: "main".to_string(), command: String::new(), kill: vec![] }],
    }
}

fn strings(v: &[&str]) -> Vec<String> {
    v.iter().map(|s| s.to_string()).collect()
}

fn list_of(names: &[&str]) -> SessionList {
    let mut l = SessionList::new();
    for n in names {
        l.insert(&spec(n), State::Undeclared);
    }
    l
}

fn matched(l: &SessionList) -> Vec<String> {
    l.matched_items().iter().map(|m| m.as_str().to_string()).collect()
}

fn selected_name(l: &SessionList) -> Option<String> {
    l.selected().map(|(m, _)| m.as_str().to_string())
}

#[test]
fn query_keeps_matching_keys_in_rank() {
    let r = fzf(&strings(&["web-app", "webhook", "api"]), "web");
    let names: Vec<&str> = r.iter().map(|m| m.as_str()).collect();
    assert_eq!(names, vec!["web-app", "webhook"]);
    let mut l = list_of(&["web-app", "webhook", "api"]);
    l.prompt("web");
    assert_eq!(matched(&l), vec!["web-app", "webhook"]);
    assert_eq!(l.matched_count(), 2);
    assert_eq!(l.len(), 3);
}

#[test]
fn ranking_is_by_score_then_scan_order() {
    let r = fzf(&strings(&["xaxxxb", "ab", "zab", "nothing"]), "ab");
    for w in r.windows(2) {
        assert!(w[0].score() > w[1].score() || (w[0].score() == w[1].score() && w[0].position() < w[1].position()));
    }
    assert!(r.iter().all(|m| m.as_str() != "nothing"));
    assert_eq!(r.len(), 3);
}

#[test]
fn equal_scores_keep_scan_order() {
    let r = fzf(&strings(&["b", "a", "c"]), "");
    let names: Vec<&str> = r.iter().map(|m| m.as_str()).collect();
    assert_eq!(names, vec!["b", "a", "c"]);
    assert!(r.iter().all(|m| m.score() == 0));
}

#[test]
fn matched_characters_are_marked() {
    let r = fzf(&strings(&["web-app"]), "wa");
    assert_eq!(r.len(), 1);
    let chars = r[0].chars();
    assert_eq!(chars.len(), 7);
    assert_eq!(chars.iter().filter(|(_, m)| *m).count(), 2);
    assert_eq!(chars[0], ('w', true));
}

#[test]
fn selection_follows_key_when_query_narrows() {
    let mut l = list_of(&["alpha", "beta", "gamma", "delta", "omega"]);
    l.set_selected(2);
    assert_eq!(selected_name(&l).as_deref(), Some("gamma"));
    l.prompt("ga");
    assert_eq!(l.matched_count(), 2);
    assert_eq!(selected_name(&l).as_deref(), Some("gamma"));
}

#[test]
fn selection_clamps_when_key_disappears() {
    let mut l = list_of(&["alpha", "beta", "gamma", "delta", "omega"]);
    l.set_selected(2);
    l.prompt("ta");
    assert_eq!(l.matched_count(), 2);
    assert_eq!(l.get_selected_index(), 1);
}

#[test]
fn selection_survives_unrelated_insert() {
    let mut l = list_of(&["alpha", "beta", "gamma"]);
    l.set_selected(1);
    l.insert(&spec("aaa"), State::Undeclared);
    assert_eq!(selected_name(&l).as_deref(), Some("beta"));
}

#[test]
fn move_selection_saturates() {
    let mut l = list_of(&["a", "b", "c"]);
    l.move_selection(-1);
    assert_eq!(l.get_selected_index(), 0);
    l.move_selection(1);
    l.move_selection(1);
    assert_eq!(l.get_selected_index(), 2);
    l.move_selection(1);
    assert_eq!(l.get_selected_index(), 2);
    l.move_selection(-5);
    assert_eq!(l.get_selected_index(), 0);
    l.set_selected(99);
    assert_eq!(l.get_selected_index(), 2);
}

#[test]
fn move_selection_on_empty_stays_zero() {
    let mut l = SessionList::new();
    l.move_selection(1);
    assert_eq!(l.get_selected_index(), 0);
    l.move_selection(-1);
    assert_eq!(l.get_selected_index(), 0);
    assert!(l.selected().is_none());
    let mut m = list_of(&["abc"]);
    m.prompt("zzz");
    assert_eq!(m.matched_count(), 0);
    m.move_selection(1);
    assert_eq!(m.get_selected_index(), 0);
}

#[test]
fn insert_is_idempotent_per_name() {
    let mut l = SessionList::new();
    l.insert(&spec("a"), State::Attached);
    l.insert(&spec("a"), State::Undeclared);
    assert_eq!(l.len(), 1);
    assert_eq!(l.get(0).unwrap().1.state, State::Attached);
}

#[test]
fn refresh_merges_with_precedence() {
    let mut l = SessionList::new();
    let specs = vec![spec("a"), spec("b"), spec("c")];
    l.refresh(&specs, &strings(&["b", "x"]), &strings(&["b", "c"]));
    assert_eq!(l.len(), 3);
    let entries: Vec<(String, State)> = (0..l.len())
        .map(|i| {
            let (k, s) = l.get(i).unwrap();
            (k.clone(), s.state)
        })
        .collect();
    assert_eq!(
        entries,
        vec![
            ("b".to_string(), State::Attached),
            ("c".to_string(), State::Created),
            ("a".to_string(), State::Undeclared),
        ]
    );
    assert!(l.get(3).is_none());
    assert_eq!(l.get(0).unwrap().1.root, "/src/b");
}

#[test]
fn refresh_keeps_selected_key() {
    let mut l = SessionList::new();
    l.refresh(&vec![spec("a"), spec("b"), spec("c")], &vec![], &vec![]);
    l.set_selected(2);
    assert_eq!(selected_name(&l).as_deref(), Some("c"));
    l.refresh(&vec![spec("new"), spec("a"), spec("b"), spec("c")], &strings(&["a"]), &vec![]);
    assert_eq!(selected_name(&l).as_deref(), Some("c"));
    assert_eq!(l.get_selected_index(), 3);
}

#[test]
fn refresh_clamps_when_selected_key_is_gone() {
    let mut l = SessionList::new();
    l.refresh(&vec![spec("a"), spec("b"), spec("c")], &vec![], &vec![]);
    l.set_selected(2);
    l.refresh(&vec![spec("a"), spec("b")], &vec![], &vec![]);
    assert_eq!(l.get_selected_index(), 1);
    l.refresh(&vec![], &vec![], &vec![]);
    assert_eq!(l.get_selected_index(), 0);
    assert_eq!(l.matched_count(), 0);
}
