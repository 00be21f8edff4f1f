use confy::config::{join_paths, parent_path, split_path};
use confy::watcher::{plan, stale_handles};
use confy::{Action, Config, ConfigFiles, Descriptor, Generator, Mode, Multiplexer, PathBinding, WatchTable, WatchedElement};

fn binding(from: &str, to: &str) -> PathBinding {
    PathBinding { from: from.to_string(), to: to.to_string() }
}

fn table(entries: &[(usize, &str, WatchedElement)]) -> WatchTable {
    let mut t = WatchTable::new();
    for (wd, name, e) in entries {
        t.insert(Descriptor { wd: *wd, file_name: name.to_string() }, e.clone());
    }
    t
}

fn all_modes() -> Mode {
    Mode { files: true, bindings: true, variables: true }
}

#[test]
fn two_templates_in_one_directory_are_independent() {
    let a = binding("/t/a.tpl", "/o/a");
    let b = binding("/t/b.tpl", "/o/b");
    let t = table(&[(1, "a.tpl", WatchedElement::Binding(a.clone())), (1, "b.tpl", WatchedElement::Binding(b.clone()))]);
    let mut m = Multiplexer::new(all_modes());
    m.commit(t, Generator::new(&Vec::new(), &Vec::new()));
    match m.handle_event(1, Some("a.tpl")) {
        Action::Regenerate(x) => assert_eq!((x.from, x.to), (a.from.clone(), a.to.clone())),
        other => panic!("unexpected {:?}", other),
    }
    match m.handle_event(1, Some("b.tpl")) {
        Action::Regenerate(x) => assert_eq!((x.from, x.to), (b.from.clone(), b.to.clone())),
        other => panic!("unexpected {:?}", other),
    }
    assert!(matches!(m.handle_event(1, Some("c.tpl")), Action::Ignore));
    assert!(matches!(m.handle_event(2, Some("a.tpl")), Action::Ignore));
    assert!(matches!(m.handle_event(1, None), Action::Ignore));
    assert_eq!(m.tracked_bindings().len(), 2);
}

#[test]
fn config_change_asks_for_reconfiguration() {
    let t = table(&[(3, "vars.yaml", WatchedElement::Config("/c/vars.yaml".to_string()))]);
    let mut m = Multiplexer::new(Mode { files: false, bindings: false, variables: true });
    m.commit(t, Generator::new(&Vec::new(), &Vec::new()));
    assert!(matches!(m.handle_event(3, Some("vars.yaml")), Action::Reconfigure));
}

#[test]
fn binding_ignored_when_templates_are_not_watched() {
    let t = table(&[(1, "a.tpl", WatchedElement::Binding(binding("/t/a.tpl", "/o/a")))]);
    let mut m = Multiplexer::new(Mode { files: false, bindings: true, variables: false });
    m.commit(t, Generator::new(&Vec::new(), &Vec::new()));
    assert!(matches!(m.handle_event(1, Some("a.tpl")), Action::Ignore));
}

#[test]
fn commits_release_exactly_the_stale_handles() {
    let e = || WatchedElement::Config("/c/x".to_string());
    let mut m = Multiplexer::new(all_modes());
    let mut live: Vec<usize> = Vec::new();
    let rounds: Vec<Vec<(usize, &str)>> = vec![
        vec![(1, "a"), (2, "b"), (2, "c")],
        vec![(2, "b")],
        vec![(3, "a"), (4, "b"), (5, "c"), (2, "d")],
        vec![],
        vec![(6, "z")],
    ];
    for round in rounds {
        let entries: Vec<(usize, &str, WatchedElement)> = round.iter().map(|(w, n)| (*w, *n, e())).collect();
        let t = table(&entries);
        let mut wanted = t.handles();
        for w in &wanted {
            if !live.contains(w) {
                live.push(*w);
            }
        }
        let stale = m.commit(t, Generator::new(&Vec::new(), &Vec::new()));
        live.retain(|w| !stale.contains(w));
        live.sort();
        wanted.sort();
        assert_eq!(live, wanted);
    }
}

#[test]
fn same_table_twice_releases_nothing() {
    let t1 = table(&[(1, "a", WatchedElement::Config("/a".to_string()))]);
    let t2 = table(&[(1, "a", WatchedElement::Config("/a".to_string()))]);
    assert!(stale_handles(&t1, &t2).is_empty());
    assert_eq!(stale_handles(&t1, &WatchTable::new()), vec![1]);
}

#[test]
fn insert_replaces_same_key() {
    let t = table(&[(1, "a", WatchedElement::Config("/x".to_string())), (1, "a", WatchedElement::Config("/y".to_string()))]);
    match t.get(1, "a") {
        Some(WatchedElement::Config(p)) => assert_eq!(p, "/y"),
        other => panic!("unexpected {:?}", other),
    }
    assert_eq!(t.handles(), vec![1]);
}

#[test]
fn plan_follows_mode() {
    let files = ConfigFiles { bindings: "/c/b.yaml".to_string(), variables: "/c/v.yaml".to_string() };
    let bs = vec![binding("/t/a", "/o/a"), binding("/t/b", "/o/b")];
    let all = plan(all_modes(), bs.clone(), &files);
    assert_eq!(all.len(), 4);
    assert_eq!(all[0].target(), "/t/a");
    assert_eq!(all[2].target(), "/c/b.yaml");
    assert_eq!(all[3].target(), "/c/v.yaml");
    let only_vars = plan(Mode { files: false, bindings: false, variables: true }, bs, &files);
    assert_eq!(only_vars.len(), 1);
    assert_eq!(only_vars[0].target(), "/c/v.yaml");
}

#[test]
fn paths_are_split_and_joined() {
    assert_eq!(split_path("/etc/app/conf.yaml"), Some(("/etc/app".to_string(), "conf.yaml".to_string())));
    assert_eq!(split_path("/conf"), Some(("/".to_string(), "conf".to_string())));
    assert_eq!(split_path("/etc/"), None);
    assert_eq!(split_path("plain"), None);
    assert_eq!(parent_path("/etc/"), Some("/etc".to_string()));
    assert_eq!(join_paths("/home/u", "x"), "/home/u/x");
    assert_eq!(join_paths("/home/u/", "x"), "/home/u/x");
    assert_eq!(join_paths("/home/u", "/abs"), "/abs");
}

#[test]
fn resolve_path_cases() {
    assert_eq!(Config::resolve_path("/abs/t", Some("/home/u"), Some("/cfg")), "/abs/t");
    assert_eq!(Config::resolve_path("~/t", Some("/home/u"), Some("/cfg")), "/home/u/t");
    assert_eq!(Config::resolve_path("~", Some("/home/u"), Some("/cfg")), "/home/u/");
    assert_eq!(Config::resolve_path("~/t", None, Some("/cfg")), "~/t");
    assert_eq!(Config::resolve_path("~x/t", Some("/home/u"), Some("/cfg")), "/cfg/~x/t");
    assert_eq!(Config::resolve_path("rel/t", Some("/home/u"), Some("/cfg")), "/cfg/rel/t");
    assert_eq!(Config::resolve_path("rel/t", None, None), "rel/t");
}

#[test]
fn config_paths_resolve_against_bindings_file() {
    let mut c = Config { bindings: vec![binding("a.tpl", "~/out")], variables: Vec::new() };
    c.resolve_paths("/cfg/bindings.yaml", Some("/home/u"));
    assert_eq!(c.bindings[0].from, "/cfg/a.tpl");
    assert_eq!(c.bindings[0].to, "/home/u/out");
}
