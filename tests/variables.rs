use confy::{DisjointSet, Resolution, Variables};

fn pairs(items: &[(&str, &str)]) -> Vec<(String, String)> {
    items.iter().map(|(k, v)| (k.to_string(), v.to_string())).collect()
}

#[test]
fn test_variables() {
    let abc = "ABC".to_string();
    let mut map = Vec::new();
    map.push(("ab".to_string(), "@abc".to_string()));
    map.push(("-a".to_string(), "@".to_string()));
    map.push(("".to_string(), "@a".to_string()));
    map.push(("a".to_string(), "@ab".to_string()));
    map.push(("abc".to_string(), abc.clone()));

    map.push(("loop0".to_string(), "@loop1".to_string()));
    map.push(("loop1".to_string(), "@loop0".to_string()));

    let variables = Variables::new(&map, &Vec::new());

    assert_eq!(variables.value("-a").unwrap(), &abc);
    assert_eq!(variables.value("").unwrap(), &abc);
    assert_eq!(variables.value("a").unwrap(), &abc);
    assert_eq!(variables.value("ab").unwrap(), &abc);
    assert_eq!(variables.value("abc").unwrap(), &abc);

    assert_eq!(variables.get("loop0").unwrap(), variables.get("loop1").unwrap());
}

#[test]
fn test_disjoint_set() {
    let mut set = DisjointSet::new(10);
    set.merge(0, 1);
    set.merge(1, 2);
    set.merge(2, 3);
    set.merge(4, 5);
    set.merge(6, 7);
    set.merge(8, 9);

    assert_ne!(set.root(0), set.root(9));
    assert_ne!(set.root(4), set.root(6));
    assert_ne!(set.root(8), set.root(3));

    assert_eq!(set.root(0), set.root(1));
    assert_eq!(set.root(0), set.root(2));
    assert_eq!(set.root(0), set.root(3));

    assert_eq!(set.root(4), set.root(5));

    assert_eq!(set.root(6), set.root(7));

    assert_eq!(set.root(8), set.root(9));

    set.merge(0, 9);

    assert_eq!(set.root(8), set.root(3));
}

#[test]
fn disjoint_set_sizes_and_roots() {
    let mut set = DisjointSet::new(6);
    assert_eq!(set.size(2), 1);
    set.merge(0, 1);
    set.merge(2, 3);
    set.merge(3, 0);
    assert_eq!(set.root(1), 2);
    assert_eq!(set.size(0), 4);
    assert_eq!(set.size(5), 1);
    assert_eq!(set.root(5), 5);
}

#[test]
fn chain_resolves_to_literal() {
    let raw = pairs(&[("a", "@b"), ("b", "@c"), ("c", "literal")]);
    let v = Variables::new(&raw, &Vec::new());
    for name in ["a", "b", "c"] {
        assert_eq!(v.value(name).unwrap(), "literal");
    }
}

#[test]
fn cycle_is_reported_unresolved() {
    let raw = pairs(&[("loop0", "@loop1"), ("loop1", "@loop0"), ("x", "y")]);
    let v = Variables::new(&raw, &Vec::new());
    assert_eq!(v.get("loop0"), Some(&Resolution::Unresolved));
    assert_eq!(v.get("loop1"), Some(&Resolution::Unresolved));
    assert_eq!(v.get("loop0"), v.get("loop1"));
    assert_eq!(v.value("loop0"), None);
    assert_eq!(v.value("x").unwrap(), "y");
    assert_eq!(v.get("missing"), None);
}

#[test]
fn self_alias_is_unresolved() {
    let raw = pairs(&[("me", "@me")]);
    let v = Variables::new(&raw, &Vec::new());
    assert_eq!(v.get("me"), Some(&Resolution::Unresolved));
}

#[test]
fn dangling_alias_is_unresolved() {
    let raw = pairs(&[("a", "@nowhere"), ("b", "@a"), ("c", "@")]);
    let v = Variables::new(&raw, &Vec::new());
    assert_eq!(v.get("a"), Some(&Resolution::Unresolved));
    assert_eq!(v.get("b"), Some(&Resolution::Unresolved));
    assert_eq!(v.get("c"), Some(&Resolution::Unresolved));
    assert_eq!(v.value("a"), None);
}

#[test]
fn alias_into_environment() {
    let raw = pairs(&[("FOO", "@BAR")]);
    let env = pairs(&[("BAR", "x")]);
    let v = Variables::new(&raw, &env);
    assert_eq!(v.value("FOO").unwrap(), "x");
    assert_eq!(v.value("BAR").unwrap(), "x");
}

#[test]
fn environment_wins_on_collision() {
    let raw = pairs(&[("BAR", "raw"), ("FOO", "@BAR")]);
    let env = pairs(&[("BAR", "env")]);
    let v = Variables::new(&raw, &env);
    assert_eq!(v.value("BAR").unwrap(), "env");
    assert_eq!(v.value("FOO").unwrap(), "raw");
}

#[test]
fn order_of_definitions_does_not_matter() {
    let one = pairs(&[("a", "@b"), ("b", "@c"), ("c", "v"), ("l0", "@l1"), ("l1", "@l0"), ("e", "@E")]);
    let mut two = one.clone();
    two.reverse();
    two.swap(1, 4);
    let env1 = pairs(&[("E", "env"), ("F", "f")]);
    let env2 = pairs(&[("F", "f"), ("E", "env")]);
    let v1 = Variables::new(&one, &env1);
    let v2 = Variables::new(&two, &env2);
    for name in ["a", "b", "c", "l0", "l1", "e", "E", "F", "zz"] {
        assert_eq!(v1.get(name), v2.get(name));
    }
}

#[test]
fn merge_keeps_the_larger_class_root() {
    let mut set = DisjointSet::new(4);
    set.merge(0, 1);
    set.merge(2, 0);
    assert_eq!(set.root(2), 0);
    assert_eq!(set.size(2), 3);
    set.merge(3, 3);
    assert_eq!(set.size(3), 1);
}

#[test]
fn chain_end_found_whatever_the_root() {
    let raw = pairs(&[("p1", "@a"), ("p2", "@a"), ("p3", "@a"), ("a", "@b"), ("b", "v")]);
    let v = Variables::new(&raw, &Vec::new());
    for name in ["p1", "p2", "p3", "a", "b"] {
        assert_eq!(v.value(name).unwrap(), "v");
    }
}
