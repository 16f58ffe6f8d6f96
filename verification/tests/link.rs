use colophon::identity::Id;
use colophon::link::{dir_of, id_target, normalize, relative, resolve, Link};
use colophon::path::{file_name, is_rooted, join_paths, same_path};

#[test]
fn parses_labeled_and_bare_links() {
    let l = Link::parse("[Design](docs/design.md)");
    assert_eq!(l.label.as_deref(), Some("Design"));
    assert_eq!(l.target, "docs/design.md");
    assert_eq!(l.render(), "[Design](docs/design.md)");

    let bare = Link::parse("notes/a.md");
    assert_eq!(bare.label, None);
    assert_eq!(bare.render(), "notes/a.md");
}

#[test]
fn odd_shapes_fall_back_to_bare() {
    // A target with brackets but not the [label](target) shape.
    for raw in ["[unclosed](x", "no[mid](x)", "[]"] {
        assert_eq!(Link::parse(raw).render(), raw);
    }
}

#[test]
fn with_target_keeps_the_label() {
    let l = Link::parse("[Design](old.md)").with_target("new.md");
    assert_eq!(l.render(), "[Design](new.md)");
}

#[test]
fn external_links_are_flagged() {
    assert!(Link::parse("https://example.com/x").is_external());
    assert!(Link::parse("[me](mailto:a@b.c)").is_external());
    assert!(!Link::parse("docs/design.md").is_external());
}

#[test]
fn normalizes_dot_and_dotdot() {
    assert_eq!(normalize("a/./b/../c.md"), "a/c.md");
    assert_eq!(normalize("../up.md"), "../up.md");
    assert_eq!(normalize("a/b/../../x.md"), "x.md");
}

#[test]
fn resolves_against_the_documents_directory() {
    assert_eq!(resolve("docs/index.md", "../README.md"), "README.md");
    assert_eq!(resolve("README.md", "docs/design.md"), "docs/design.md");
}

#[test]
fn relative_walks_up_and_down() {
    assert_eq!(relative("docs", "README.md"), "../README.md");
    assert_eq!(relative("", "docs/design.md"), "docs/design.md");
    assert_eq!(relative("a/b", "a/b/c.md"), "c.md");
    assert_eq!(relative("a/b", "a/b"), ".");
}

#[test]
fn a_link_splits_at_its_first_bracket_pair() {
    let l = Link::parse("[a](b](c)");
    assert_eq!(l.label.as_deref(), Some("a"));
    assert_eq!(l.target, "b](c");
    assert_eq!(l.render(), "[a](b](c)");
    let empty = Link::parse("[]()");
    assert_eq!(empty.label.as_deref(), Some(""));
    assert_eq!(empty.target, "");
}

#[test]
fn an_id_target_is_read_back() {
    let id = Id("bcdfghj".to_string());
    let target = id_target(&id);
    assert_eq!(target, "colophon:bcdfghj");
    assert_eq!(Link::parse(&target).id_target(), Some(id));
    assert_eq!(Link::parse("[x](colophon:q)").id_target(), Some(Id("q".to_string())));
    assert_eq!(Link::parse("docs/a.md").id_target(), None);
}

#[test]
fn normalizing_before_a_join_changes_nothing() {
    for path in ["", ".", "./a", "a/..", "a/../..", "a//b/", "/", "/a/../b", "../x"] {
        for target in ["", ".", "./q", "../q.md", "q/../../r", "/abs/./q", "q//r/"] {
            assert_eq!(
                normalize(&join_paths(&normalize(path), target)),
                normalize(&join_paths(path, target)),
                "{path} and {target}"
            );
        }
    }
    assert_eq!(join_paths("a", "b"), "a/b");
    assert_eq!(join_paths("a/", "b"), "a/b");
    assert_eq!(join_paths("", "b"), "b");
    assert_eq!(join_paths("a", ""), "a/");
    assert_eq!(join_paths("a", "/b"), "/b");
    assert!(is_rooted("/b") && is_rooted("//b") && !is_rooted("b") && !is_rooted(""));
}

#[test]
fn resolving_is_joining_to_the_directory() {
    for doc in ["a.md", "x/y/a.md", "/r/a.md", "../a.md", ""] {
        for target in ["b.md", "../b.md", "./b.md", "/b.md", "", "."] {
            assert_eq!(resolve(doc, target), normalize(&join_paths(&dir_of(doc), target)));
        }
    }
}

#[test]
fn what_is_relative_is_short_and_clean() {
    let dirs = ["", "a", "a/b", "a/c", "b", "a/b/c", "a/b/c/d"];
    for from in dirs {
        for to in dirs {
            let way = relative(from, to);
            assert_eq!(normalize(&join_paths(from, &way)), to, "{from} -> {to} by {way}");
            assert!(way.split('/').all(|piece| !piece.is_empty()), "{way}");
            assert_eq!(way == ".", from == to);
            // Going all the way up and down again is never shorter.
            let mut long = "../".repeat(from.split('/').filter(|p| !p.is_empty()).count());
            long.push_str(to);
            let count = |t: &str| t.split('/').filter(|p| !p.is_empty() && *p != ".").count();
            assert!(count(&way) <= count(&long), "{way} and {long}");
        }
    }
    assert_eq!(relative("a/b", "a/c/d.md"), "../c/d.md");
}

#[test]
fn what_is_relative_resolves_back() {
    for (doc, to) in [
        ("a.md", "b.md"),
        ("x/a.md", "b.md"),
        ("x/y/a.md", "x/z/b.md"),
        ("/r/a.md", "/r/s/b.md"),
        ("a.md", "deep/er/b.md"),
    ] {
        let target = relative(&dir_of(doc), to);
        assert_eq!(resolve(doc, &target), to, "{doc} -> {to} by {target}");
    }
    assert_eq!(relative(&dir_of("x/a.md"), "b.md"), "../b.md");
}

#[test]
fn absolute_targets_stay_absolute() {
    assert_eq!(resolve("docs/a.md", "/top/b.md"), "/top/b.md");
    assert_eq!(normalize("/a/../../b"), "/../b");
}

#[test]
fn normalizing_twice_is_normalizing_once() {
    for t in ["", ".", "./a", "a//b/", "../../x", "/..", "a/../.."] {
        assert_eq!(normalize(&normalize(t)), normalize(t), "{t}");
    }
    assert_eq!(normalize("a//b/"), "a/b");
    assert_eq!(normalize("./a"), "a");
}

#[test]
fn paths_are_told_apart_by_components() {
    assert!(same_path("a//b", "a/b/"));
    assert!(same_path("a/./b", "a/b"));
    assert!(!same_path("./a", "a"));
    assert!(!same_path("/a", "a"));
    assert_eq!(file_name("a/b.md"), Some("b.md".to_string()));
    assert_eq!(file_name("a/.."), None);
    assert_eq!(file_name(""), None);
}
