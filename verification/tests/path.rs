use short_pwd::listing::dir_entries;
use short_pwd::path::{
    full_components, marker, render, replace_home, root, short_path, shorten_ancestors,
    shortened_components, starts_with_components, Ancestor,
};

fn names(items: &[&str]) -> Vec<String> {
    items.iter().map(|s| s.to_string()).collect()
}

fn ancestor(name: &str, siblings: &[&str]) -> Ancestor {
    Ancestor { name: name.to_string(), siblings: names(siblings) }
}

/// The walk from /home/alice/projects/demo up to the root, nearest first.
fn demo_walk() -> Vec<Ancestor> {
    vec![
        ancestor("projects", &["projects", "music", "documents"]),
        ancestor("alice", &["alice", "bob"]),
        ancestor("home", &["home", "etc", "usr", "var"]),
    ]
}

#[test]
fn demo_under_home() {
    let home = names(&["/", "home", "alice"]);
    let out = short_path(&demo_walk(), Some("demo"), Some(&home));
    assert_eq!(out, names(&["~", "p", "demo"]));
    assert_eq!(render(&out), "~/p/demo");
}

#[test]
fn demo_without_home() {
    let out = short_path(&demo_walk(), Some("demo"), None);
    assert_eq!(out, names(&["/", "h", "a", "p", "demo"]));
    assert_eq!(render(&out), "/h/a/p/demo");
}

#[test]
fn leaf_is_never_shortened() {
    // "demo" could be told apart by "d", and still stands in full
    let out = short_path(&demo_walk(), Some("demo"), None);
    assert_eq!(out.last().unwrap(), "demo");
    let home = names(&["/", "home"]);
    let out = short_path(&demo_walk(), Some("demo"), Some(&home));
    assert_eq!(out.last().unwrap(), "demo");
    let out = shortened_components(&demo_walk(), "demo");
    assert_eq!(out.last().unwrap(), "demo");
}

#[test]
fn root_is_the_root_symbol_alone() {
    assert_eq!(short_path(&[], None, None), names(&["/"]));
    assert_eq!(render(&short_path(&[], None, None)), "/");
    // not even a home directory that is the root changes that
    let home = names(&["/"]);
    assert_eq!(short_path(&[], None, Some(&home)), names(&["/"]));
    // nothing else is looked at
    assert_eq!(short_path(&demo_walk(), None, Some(&home)), names(&["/"]));
}

#[test]
fn directory_directly_below_the_root() {
    let out = short_path(&[], Some("home"), None);
    assert_eq!(out, names(&["/", "home"]));
    assert_eq!(render(&out), "/home");
}

#[test]
fn home_marker_and_trailing_segments() {
    let walk = demo_walk();
    let depth = walk.len() + 2;
    let homes = [
        names(&["/"]),
        names(&["/", "home"]),
        names(&["/", "home", "alice"]),
        names(&["/", "home", "alice", "projects"]),
        names(&["/", "home", "alice", "projects", "demo"]),
    ];
    let short = names(&["/", "h", "a", "p", "demo"]);
    for home in homes.iter() {
        let out = short_path(&walk, Some("demo"), Some(home));
        assert_eq!(out[0], "~");
        assert_eq!(out.len() - 1, depth - home.len());
        assert_eq!(out[1..], short[home.len()..]);
    }
    assert_eq!(render(&short_path(&walk, Some("demo"), Some(&homes[0]))), "~/h/a/p/demo");
    assert_eq!(render(&short_path(&walk, Some("demo"), Some(&homes[1]))), "~/a/p/demo");
    assert_eq!(render(&short_path(&walk, Some("demo"), Some(&homes[3]))), "~/demo");
}

#[test]
fn working_directory_is_the_home_directory() {
    let home = names(&["/", "home", "alice", "projects", "demo"]);
    let out = short_path(&demo_walk(), Some("demo"), Some(&home));
    assert_eq!(out, names(&["~"]));
    assert_eq!(render(&out), "~");
}

#[test]
fn home_elsewhere_changes_nothing() {
    let walk = demo_walk();
    let plain = names(&["/", "h", "a", "p", "demo"]);
    // another directory
    assert_eq!(short_path(&walk, Some("demo"), Some(&names(&["/", "home", "bob"]))), plain);
    // below the working directory
    let below = names(&["/", "home", "alice", "projects", "demo", "src"]);
    assert_eq!(short_path(&walk, Some("demo"), Some(&below)), plain);
    // components are compared whole
    assert_eq!(short_path(&walk, Some("demo"), Some(&names(&["/", "home", "al"]))), plain);
    assert_eq!(short_path(&walk, Some("demo"), Some(&names(&["/", "h"]))), plain);
    // a path that does not start at the root
    assert_eq!(short_path(&walk, Some("demo"), Some(&names(&["home", "alice"]))), plain);
    // a home directory without components
    assert_eq!(short_path(&walk, Some("demo"), Some(&names(&[]))), plain);
}

#[test]
fn ancestors_are_shortened_against_their_own_siblings() {
    let walk = vec![
        ancestor("src", &["src", "scripts", "target"]),
        ancestor("short", &["short", "shell", "other"]),
        ancestor("work", &["work"]),
    ];
    assert_eq!(shorten_ancestors(&walk), names(&["w", "sho", "sr"]));
    assert_eq!(full_components(&walk, "prefix"), names(&["/", "work", "short", "src", "prefix"]));
    assert_eq!(shortened_components(&walk, "prefix"), names(&["/", "w", "sho", "sr", "prefix"]));
    assert_eq!(shorten_ancestors(&[]), Vec::<String>::new());
    assert_eq!(full_components(&[], "x"), names(&["/", "x"]));
    assert_eq!(shortened_components(&[], "x"), names(&["/", "x"]));
}

#[test]
fn shortening_keeps_the_number_of_components() {
    let walk = demo_walk();
    let full = full_components(&walk, "demo");
    let short = shortened_components(&walk, "demo");
    assert_eq!(full.len(), short.len());
    assert_eq!(full.len(), walk.len() + 2);
    for (f, s) in full.iter().zip(short.iter()) {
        assert!(f.starts_with(s.as_str()));
        assert!(!s.is_empty());
    }
}

#[test]
fn name_without_a_unique_prefix_stays_whole() {
    let walk = vec![ancestor("ab", &["ab", "abc"]), ancestor("x", &["x", "y"])];
    let out = short_path(&walk, Some("leaf"), None);
    assert_eq!(out, names(&["/", "x", "ab", "leaf"]));
    assert_eq!(render(&out), "/x/ab/leaf");
}

#[test]
fn listing_with_unreadable_entries() {
    let read: Result<Vec<Option<String>>, ()> =
        Ok(vec![None, Some("alpha".to_string()), None, Some("alps".to_string())]);
    let walk = vec![Ancestor { name: "alpha".to_string(), siblings: dir_entries(read).unwrap() }];
    assert_eq!(render(&short_path(&walk, Some("x"), None)), "/alph/x");
    // with nothing readable beside it, the name stays whole
    let read: Result<Vec<Option<String>>, ()> = Ok(vec![None, None]);
    let walk = vec![Ancestor { name: "alpha".to_string(), siblings: dir_entries(read).unwrap() }];
    assert_eq!(render(&short_path(&walk, Some("x"), None)), "/alpha/x");
}

#[test]
fn component_prefix() {
    let path = names(&["/", "home", "alice"]);
    assert!(starts_with_components(&path, &names(&[])));
    assert!(starts_with_components(&path, &names(&["/"])));
    assert!(starts_with_components(&path, &names(&["/", "home"])));
    assert!(starts_with_components(&path, &path));
    assert!(!starts_with_components(&path, &names(&["/", "home", "alice", "x"])));
    assert!(!starts_with_components(&path, &names(&["/", "hom"])));
    assert!(!starts_with_components(&path, &names(&["home"])));
    assert!(!starts_with_components(&names(&[]), &names(&["/"])));
}

#[test]
fn marker_replaces_leading_components() {
    let short = names(&["/", "h", "a", "p", "demo"]);
    assert_eq!(replace_home(&short, 0), names(&["~", "/", "h", "a", "p", "demo"]));
    assert_eq!(replace_home(&short, 1), names(&["~", "h", "a", "p", "demo"]));
    assert_eq!(replace_home(&short, 3), names(&["~", "p", "demo"]));
    assert_eq!(replace_home(&short, 5), names(&["~"]));
    assert_eq!(replace_home(&short, 6), names(&["~"]));
    assert_eq!(replace_home(&short, usize::MAX), names(&["~"]));
}

#[test]
fn symbols() {
    assert_eq!(root(), "/");
    assert_eq!(marker(), "~");
}

#[test]
fn text_of_a_path() {
    assert_eq!(render(&names(&[])), "");
    assert_eq!(render(&names(&["/"])), "/");
    assert_eq!(render(&names(&["~"])), "~");
    assert_eq!(render(&names(&["/", "a"])), "/a");
    assert_eq!(render(&names(&["/", "a", "b"])), "/a/b");
    assert_eq!(render(&names(&["~", "a", "b"])), "~/a/b");
    assert_eq!(render(&names(&["a"])), "a");
    assert_eq!(render(&names(&["a", "b", "c"])), "a/b/c");
    // only a root at the front goes without a separator
    assert_eq!(render(&names(&["a", "/", "b"])), "a///b");
}
