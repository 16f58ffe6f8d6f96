use colophon::document::Document;
use colophon::error::WorkspaceError;
use colophon::identity::Id;
use colophon::index::{FileIndex, IndexStore};
use colophon::meta::{Format, MetaValue};
use colophon::relation::{Edge, Relation, RelationSet};
use colophon::report;
use colophon::report::Resolution;
use colophon::tree::{render, Node, NodeKind};
use colophon::validate::Finding;

fn node(path: &str, title: Option<&str>, kind: NodeKind, children: Vec<Node>) -> Node {
    Node {
        path: path.to_string(),
        title: title.map(str::to_string),
        label: None,
        kind,
        children,
    }
}

#[test]
fn the_tree_is_drawn_with_connectors() {
    let deep = node("d.md", None, NodeKind::Cycle, vec![]);
    let mut labeled = node("c.md", None, NodeKind::Missing, vec![]);
    labeled.label = Some("See".to_string());
    let root = node(
        "index.md",
        Some("Root"),
        NodeKind::Doc,
        vec![
            node("a.md", Some("A"), NodeKind::Doc, vec![deep, labeled]),
            node(
                "b.md",
                None,
                NodeKind::Unreadable("denied".to_string()),
                vec![node("x", None, NodeKind::UnresolvedId(Id("q".to_string())), vec![])],
            ),
        ],
    );
    assert_eq!(
        render(&root),
        "index.md — Root\n\
         ├── a.md — A\n\
         │   ├── d.md (cycle!)\n\
         │   └── c.md — See (missing)\n\
         └── b.md (unreadable: denied)\n    \
         └── x (unresolved id: q)\n"
    );
}

#[test]
fn a_title_comes_before_a_label() {
    let mut one = node("a.md", Some("T"), NodeKind::Doc, vec![]);
    one.label = Some("L".to_string());
    assert_eq!(render(&one), "a.md — T\n");
}

#[test]
fn a_document_is_summarized() {
    let doc = Document::parse(
        "---\ntitle: T\npart_of: up.md\ncontents:\n- a.md\n- '[B](b.md)'\n---\n",
    )
    .unwrap();
    assert_eq!(
        report::show("x/d.md", &doc, &RelationSet::diaryx()),
        "x/d.md\n  title: T\n  contents (2 children):\n    - a.md\n    - [B](b.md)\n  part_of:\n    - up.md\n"
    );
    let plain = Document::parse("prose\n").unwrap();
    assert_eq!(
        report::show("p.md", &plain, &RelationSet::diaryx()),
        "p.md\n  (no embedded metadata)\n"
    );
    let empty = Document::parse("---\nk: v\n---\n").unwrap();
    assert_eq!(
        report::show("e.md", &empty, &RelationSet::diaryx()),
        "e.md\n  contents (0 children):\n"
    );
    let bare = RelationSet {
        relations: vec![Relation { name: "k".into(), inverse: None }],
        spanning: None,
    };
    assert_eq!(report::show("e.md", &empty, &bare), "e.md\n  k:\n    - v\n");
}

#[test]
fn links_are_listed_by_relation() {
    let doc = Document::parse("---\npart_of: up.md\ncontents: [a.md, 3, b.md]\n---\n").unwrap();
    let set = RelationSet::diaryx();
    assert_eq!(
        report::links(&doc, &set, None),
        "contents\ta.md\ncontents\tb.md\npart_of\tup.md\n"
    );
    assert_eq!(report::links(&doc, &set, Some("part_of")), "part_of\tup.md\n");
    assert_eq!(report::links(&doc, &set, Some("other")), "");
    assert_eq!(
        set.edges(&doc.meta)[2],
        Edge { relation: "part_of".into(), target: "up.md".into() }
    );
    assert_eq!(set.children(&doc.meta), vec!["a.md", "b.md"]);
}

#[test]
fn the_vocabulary_knows_its_inverse() {
    let set = RelationSet::diaryx();
    assert_eq!(set.spanning_relation(), Some("contents"));
    assert_eq!(set.inverse(), Some("part_of".to_string()));
    assert_eq!(set.relations[1].inverse.as_deref(), Some("contents"));
}

#[test]
fn metadata_is_printed_in_its_own_format() {
    let doc = Document::parse("+++\na = 1\n+++\n").unwrap();
    assert_eq!(report::print_format(&doc, None), Format::Toml);
    assert_eq!(report::print_format(&doc, Some(Format::Json)), Format::Json);
    assert_eq!(report::metadata(&doc).unwrap().len(), 1);
    let plain = Document::parse("prose\n").unwrap();
    assert_eq!(report::print_format(&plain, None), Format::Yaml);
    assert_eq!(
        report::metadata(&plain),
        Err(WorkspaceError::Structure("document has no embedded metadata".to_string()))
    );
}

#[test]
fn plain_values_are_printed_plainly() {
    assert_eq!(report::plain(&MetaValue::Null).as_deref(), Some("null"));
    assert_eq!(report::plain(&MetaValue::Bool(true)).as_deref(), Some("true"));
    assert_eq!(report::plain(&MetaValue::Bool(false)).as_deref(), Some("false"));
    assert_eq!(report::plain(&MetaValue::Int(0)).as_deref(), Some("0"));
    assert_eq!(report::plain(&MetaValue::Int(-1205)).as_deref(), Some("-1205"));
    assert_eq!(
        report::plain(&MetaValue::Int(i64::MIN)).as_deref(),
        Some("-9223372036854775808")
    );
    assert_eq!(report::plain(&MetaValue::Text("x".into())).as_deref(), Some("x"));
    assert_eq!(report::plain(&MetaValue::Sequence(vec![])), None);
    assert_eq!(report::missing_key("a.b", "d.md"), "no `a.b` in d.md");
}

#[test]
fn findings_are_listed_and_counted() {
    assert_eq!(report::check(&vec![]), "ok: no findings\n");
    let findings = vec![
        Finding::DuplicateContainment { doc: "a".into(), target: "b".into() },
        Finding::Unreadable { doc: "c".into(), error: "e".into() },
    ];
    assert_eq!(
        report::check(&findings),
        "a: b is already contained elsewhere (cycle or second parent)\nc: unreadable: e\n"
    );
    assert_eq!(report::tally(&findings), "2 finding(s)");
}

#[test]
fn ids_are_resolved_with_or_without_the_scheme() {
    let mut ix = FileIndex::new(Format::Yaml);
    ix.register(&Id("q".into()), "q.md");
    ix.register(&Id("z".into()), "z.md");
    ix.unregister(&Id("z".into()));
    assert_eq!(report::resolution(&ix, "colophon:q"), Resolution::Path("q.md".into()));
    assert_eq!(report::resolution(&ix, "q"), Resolution::Path("q.md".into()));
    assert_eq!(
        report::resolution(&ix, "colophon:z"),
        Resolution::Tombstoned("z is tombstoned — its document was deleted".into())
    );
    assert_eq!(
        report::resolution(&ix, "n"),
        Resolution::Unknown("n is not in this workspace's registry".into())
    );
}
