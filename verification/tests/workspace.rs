use std::collections::{BTreeMap, BTreeSet};

use colophon::document::Document;
use colophon::edit::set_in_text;
use colophon::embed::EmbedKind;
use colophon::error::{StorageError, StorageErrorKind, WorkspaceError};
use colophon::identity::{verify, Id, IdentityPolicy, Minter, NoIdentity, Trigger};
use colophon::index::{FileIndex, IndexStore, NoIndex};
use colophon::link::{id_target, normalize, Link};
use colophon::meta::{Format, MetaValue};
use colophon::mutate::{rerelativize, FsOp};
use colophon::operation::{Answer, Ask, Operation, Task};
use colophon::relation::{Relation, RelationSet};
use colophon::tree::{leaf, sprouts, Branch, NodeKind, Sprout};
use colophon::validate::{Finding, NameMatch, Seen};
use colophon::workspace::{Target, Workspace};

/// Documents in memory.
struct Vault {
    files: BTreeMap<String, String>,
    /// The names in the directory above the root.
    above: Vec<String>,
}

impl Vault {
    fn new(files: &[(&str, &str)]) -> Vault {
        let files = files.iter().map(|(p, t)| (p.to_string(), t.to_string())).collect();
        Vault { files, above: Vec::new() }
    }

    fn read(&self, path: &str) -> Result<String, WorkspaceError> {
        self.load(path).map_err(WorkspaceError::Io)
    }

    fn holds(&self, path: &str) -> bool {
        self.files.contains_key(path)
    }

    fn names(&self, path: &str) -> Option<Vec<String>> {
        if path.is_empty() {
            return Some(self.above.clone());
        }
        let dir = match path.rfind('/') {
            Some(i) => &path[..i + 1],
            None => "",
        };
        let mut names = BTreeSet::new();
        for p in self.files.keys() {
            if let Some(rest) = p.strip_prefix(dir) {
                names.insert(rest.split('/').next().unwrap().to_string());
            }
        }
        if names.is_empty() && !dir.is_empty() {
            return None;
        }
        Some(names.into_iter().collect())
    }

    fn carry(&mut self, op: FsOp) {
        match op {
            FsOp::CreateDirAll(_) => {}
            FsOp::Write(p, t) => {
                self.files.insert(p, t);
            }
            FsOp::Rename(a, b) => {
                let t = self.files.remove(&a).unwrap();
                self.files.insert(b, t);
            }
            FsOp::RemoveFile(p) => {
                self.files.remove(&p).unwrap();
            }
        }
    }

    fn load(&self, path: &str) -> Result<String, StorageError> {
        self.files.get(path).cloned().ok_or_else(|| StorageError {
            kind: StorageErrorKind::NotFound,
            message: format!("{path}: not found"),
        })
    }

    fn run<P: IdentityPolicy, X: IndexStore>(
        &mut self,
        ws: &mut Workspace<P, X>,
        task: Task,
    ) -> Result<(), WorkspaceError> {
        let mut operation = Operation::begin(task);
        while let Some(ask) = operation.ask() {
            let answer = match ask {
                Ask::Exists(path) => Answer::Exists(Ok(self.holds(&path))),
                Ask::Load(path) => Answer::Text(self.load(&path)),
                Ask::Carry(op) => {
                    self.carry(op);
                    Answer::Carried(Ok(()))
                }
            };
            operation = ws.answer(operation, answer);
        }
        ws.finish(operation)
    }

    fn register<P: IdentityPolicy, X: IndexStore>(
        &self,
        ws: &mut Workspace<P, X>,
        path: &str,
        trigger: Trigger,
    ) -> Result<Id, WorkspaceError> {
        let found = self.holds(&normalize(path));
        ws.register_found(path, trigger, Ok(found))
    }

    fn create<P: IdentityPolicy, X: IndexStore>(
        &mut self,
        ws: &mut Workspace<P, X>,
        path: &str,
        parent: &str,
    ) -> Result<(), WorkspaceError> {
        let job = ws.create(path, parent)?;
        self.run(ws, Task::Create(job))
    }

    fn rename<P: IdentityPolicy, X: IndexStore>(
        &mut self,
        ws: &mut Workspace<P, X>,
        from: &str,
        to: &str,
    ) -> Result<(), WorkspaceError> {
        let job = ws.rename(from, to)?;
        self.run(ws, Task::Rename(job))
    }

    fn delete<P: IdentityPolicy, X: IndexStore>(
        &mut self,
        ws: &mut Workspace<P, X>,
        path: &str,
        force: bool,
    ) -> Result<(), WorkspaceError> {
        let job = ws.delete(path)?;
        self.run(ws, Task::Delete(job, force))
    }

    fn check<P: IdentityPolicy, X: IndexStore>(
        &self,
        ws: &Workspace<P, X>,
        start: &str,
    ) -> Vec<Finding> {
        let mut check = ws.check(start);
        while let Some(doc) = check.next() {
            let text = self.read(&doc).map_err(|e| e.message());
            let mut seen = Vec::new();
            for probe in ws.probes(&doc, &text) {
                let names = self.names(&probe.path);
                let text = if probe.read {
                    self.read(&probe.path).map_err(|e| e.message())
                } else {
                    Err(String::new())
                };
                seen.push(Seen { path: probe.path, names, text });
            }
            ws.take_up(&mut check, &doc, &text, &seen);
        }
        check.findings().clone()
    }

    /// The paths that the children of a document lead to.
    fn children<P: IdentityPolicy, X: IndexStore>(
        &self,
        ws: &Workspace<P, X>,
        path: &str,
    ) -> Vec<Target> {
        let doc = Document::parse(&self.read(path).unwrap()).unwrap();
        ws.branches(path, &doc).into_iter().map(|b| b.target).collect()
    }
}

fn ws() -> Workspace<NoIdentity, NoIndex> {
    Workspace::new(NoIdentity, NoIndex)
}

/// An identity-bearing workspace: lazy minting, persistent-style index.
fn id_ws() -> Workspace<Minter, FileIndex> {
    Workspace::new(Minter::lazy(42), FileIndex::new(Format::Yaml))
}

fn text(s: String) -> MetaValue {
    MetaValue::Text(s)
}

#[test]
fn create_links_both_directions_in_the_parents_format() {
    let mut dir = Vault::new(&[("index.md", "```fig\ntitle = Root\n```\nbody\n")]);
    dir.create(&mut ws(), "notes/new.md", "index.md").unwrap();

    let child = dir.read("notes/new.md").unwrap();
    assert!(child.starts_with("```fig\n"), "child inherits the parent's archetype: {child}");
    assert!(child.contains("part_of = ../index.md"), "{child}");
    let parent = dir.read("index.md").unwrap();
    assert!(parent.contains("contents = [notes/new.md]"), "{parent}");
    assert!(parent.ends_with("body\n"), "body untouched: {parent}");
    // The result validates cleanly.
    assert_eq!(dir.check(&ws(), "index.md"), vec![]);
}

#[test]
fn rename_maintains_parent_children_and_own_links() {
    let mut dir = Vault::new(&[
        ("index.md", "---\ntitle: Root\ncontents:\n- '[Mid](mid.md)'\n---\n"),
        (
            "mid.md",
            "---\n# a comment to preserve\npart_of: index.md\ncontents:\n- leaf.md\n---\nmid body\n",
        ),
        ("leaf.md", "---\npart_of: mid.md\n---\n"),
    ]);

    dir.rename(&mut ws(), "mid.md", "sub/mid.md").unwrap();

    // Parent entry retargeted, label kept.
    let index = dir.read("index.md").unwrap();
    assert!(index.contains("- '[Mid](sub/mid.md)'"), "{index}");
    // Child's inverse retargeted.
    let leaf = dir.read("leaf.md").unwrap();
    assert!(leaf.contains("part_of: sub/mid.md"), "{leaf}");
    // The moved doc's own links re-relativized; comment and body kept.
    let mid = dir.read("sub/mid.md").unwrap();
    assert!(mid.contains("part_of: ../index.md"), "{mid}");
    assert!(mid.contains("- ../leaf.md"), "{mid}");
    assert!(mid.contains("# a comment to preserve"), "{mid}");
    assert!(mid.ends_with("mid body\n"), "{mid}");
    // The whole workspace still validates.
    assert_eq!(dir.check(&ws(), "index.md"), vec![]);
}

#[test]
fn delete_refuses_children_then_forces() {
    let mut dir = Vault::new(&[
        ("index.md", "---\ncontents:\n- a.md\n- b.md\n---\n"),
        ("a.md", "---\npart_of: index.md\ncontents:\n- b.md\n---\n"),
        ("b.md", "---\npart_of: index.md\n---\n"),
    ]);

    let err = dir.delete(&mut ws(), "a.md", false).unwrap_err().message();
    assert!(err.contains("contains 1 document"), "{err}");

    dir.delete(&mut ws(), "a.md", true).unwrap();
    assert!(!dir.holds("a.md"));
    let index = dir.read("index.md").unwrap();
    assert!(!index.contains("a.md"), "parent entry removed: {index}");
    assert!(index.contains("- b.md"), "sibling kept: {index}");
}

#[test]
fn create_refuses_an_existing_path() {
    let mut dir =
        Vault::new(&[("index.md", "---\ntitle: Root\n---\n"), ("a.md", "already here\n")]);
    let err = dir.create(&mut ws(), "a.md", "index.md").unwrap_err().message();
    assert!(err.contains("already exists"), "{err}");
}

#[test]
fn id_links_survive_a_rename_without_any_text_edit() {
    let mut dir = Vault::new(&[
        ("index.md", "---\ntitle: Root\ncontents:\n- a.md\n---\n"),
        ("a.md", "---\npart_of: index.md\n---\n"),
    ]);

    let mut w = id_ws();
    // Author a link-by-id: register, then write the id target into index.md.
    let id = w.register("a.md", Trigger::Link).unwrap();
    let before = dir.read("index.md").unwrap();
    let updated = set_in_text(&before, "contents.0", &text(id_target(&id))).unwrap();
    dir.files.insert("index.md".into(), updated);

    // The id target resolves in traversal and validation.
    assert_eq!(dir.children(&w, "index.md")[0], Target::Path("a.md".into()));
    assert_eq!(dir.check(&w, "index.md"), vec![]);

    // Move the target. The parent's id entry must NOT be rewritten; the
    // registry follows instead.
    dir.rename(&mut w, "a.md", "sub/a.md").unwrap();
    let index_text = dir.read("index.md").unwrap();
    assert!(
        index_text.contains(&format!("colophon:{}", id.as_str())),
        "id entry untouched: {index_text}"
    );
    assert_eq!(w.index.resolve(&id), Some("sub/a.md".to_string()));
    assert_eq!(dir.children(&w, "index.md")[0], Target::Path("sub/a.md".into()));
    assert_eq!(dir.check(&w, "index.md"), vec![]);
}

#[test]
fn delete_tombstones_and_check_diagnoses_the_dangler() {
    let mut dir = Vault::new(&[
        ("index.md", "---\ncontents:\n- a.md\n---\n"),
        ("a.md", "---\npart_of: index.md\n---\n"),
    ]);

    let mut w = id_ws();
    let id = w.register("a.md", Trigger::Link).unwrap();
    let before = dir.read("index.md").unwrap();
    let updated = set_in_text(&before, "contents.0", &text(id_target(&id))).unwrap();
    dir.files.insert("index.md".into(), updated);

    dir.delete(&mut w, "a.md", false).unwrap();
    // Deleting removed the parent's entry too (matched through the registry
    // before the tombstone landed)… so re-add a dangling reference by hand
    // to simulate the out-of-band case.
    let before = dir.read("index.md").unwrap();
    let updated = set_in_text(&before, "contents", &text(id_target(&id))).unwrap();
    dir.files.insert("index.md".into(), updated);

    assert!(w.index.resolve(&id).is_none(), "tombstoned");
    assert!(w.index.is_known(&id), "but never forgotten");
    let findings = dir.check(&w, "index.md");
    assert!(
        findings.iter().any(|f| matches!(f, Finding::DanglingId { tombstoned: true, .. })),
        "{findings:?}"
    );
}

#[test]
fn register_is_idempotent_and_policy_gated() {
    let mut dir = Vault::new(&[("a.md", "---\ntitle: A\n---\n")]);

    let mut w = id_ws();
    let first = dir.register(&mut w, "a.md", Trigger::Link).unwrap();
    let again = dir.register(&mut w, "a.md", Trigger::Link).unwrap();
    assert_eq!(first, again, "idempotent");
    assert!(verify(first.as_str()));

    // Lazy policy: `Create` does not fire.
    dir.files.insert("b.md".into(), "---\ntitle: B\n---\n".into());
    let err = dir.register(&mut w, "b.md", Trigger::Create).unwrap_err().message();
    assert!(err.contains("does not register"), "{err}");
}

#[test]
fn what_is_not_there_gets_no_id() {
    let dir = Vault::new(&[]);
    let mut w = id_ws();
    let err = dir.register(&mut w, "x/../gone.md", Trigger::Link).unwrap_err();
    assert_eq!(err, WorkspaceError::Structure("gone.md does not exist".into()));
    assert!(w.index.is_empty());
    let err = w.register_found("a.md", Trigger::Link, Err(broken("denied"))).unwrap_err();
    assert_eq!(err, WorkspaceError::Io(broken("denied")));
    assert!(w.index.is_empty());
    // The library itself takes the caller's word.
    assert!(w.register("a.md", Trigger::Link).is_ok());
}

#[test]
fn a_lazy_create_assigns_no_id() {
    let mut dir = Vault::new(&[("index.md", "---\ntitle: Root\n---\n")]);
    let mut w = id_ws();
    dir.create(&mut w, "a.md", "index.md").unwrap();
    assert_eq!(w.index.id_for_path("a.md"), None);
    assert!(w.index.is_empty());
}

#[test]
fn eager_create_assigns_an_id_from_birth() {
    let mut dir = Vault::new(&[("index.md", "---\ntitle: Root\n---\n")]);
    let mut w = Workspace::new(Minter::eager(7), FileIndex::new(Format::Yaml));
    dir.create(&mut w, "a.md", "index.md").unwrap();
    let id = w.index.id_for_path("a.md").expect("registered at birth");
    assert!(verify(id.as_str()));
}

#[test]
fn paths_only_workspace_is_untouched_by_the_identity_layer() {
    let mut dir = Vault::new(&[
        ("index.md", "---\ncontents:\n- a.md\n---\n"),
        ("a.md", "---\npart_of: index.md\n---\n"),
    ]);
    let mut w = ws();
    dir.rename(&mut w, "a.md", "b.md").unwrap();
    dir.delete(&mut w, "b.md", false).unwrap();
    assert_eq!(w.index.id_for_path("b.md"), None);
}

#[test]
fn a_clean_workspace_has_no_findings() {
    let dir = Vault::new(&[
        ("index.md", "---\ncontents:\n- a.md\n---\n"),
        ("a.md", "---\npart_of: index.md\n---\n"),
    ]);
    assert_eq!(dir.check(&ws(), "index.md"), vec![]);
}

#[test]
fn broken_case_mismatched_and_uninversed_links_are_found() {
    let dir = Vault::new(&[
        ("index.md", "---\ncontents:\n- gone.md\n- '[D](docs/design.md)'\n- b.md\n---\n"),
        ("docs/DESIGN.md", "---\npart_of: ../index.md\n---\n"),
        ("b.md", "---\ntitle: no part_of here\n---\n"),
    ]);

    let findings = dir.check(&ws(), "index.md");
    assert!(
        findings
            .iter()
            .any(|f| matches!(f, Finding::BrokenLink { target, .. } if target == "gone.md")),
        "{findings:?}"
    );
    assert!(
        findings.iter().any(|f| matches!(
            f,
            Finding::CaseMismatch { target, actual, .. }
                if target == "docs/design.md" && actual == "DESIGN.md"
        )),
        "{findings:?}"
    );
    assert!(
        findings
            .iter()
            .any(|f| matches!(f, Finding::MissingInverse { child, .. } if child == "b.md")),
        "{findings:?}"
    );
}

#[test]
fn duplicate_containment_is_found() {
    let dir = Vault::new(&[
        ("index.md", "---\ncontents:\n- a.md\n- b.md\n---\n"),
        ("a.md", "---\npart_of: index.md\ncontents:\n- b.md\n---\n"),
        ("b.md", "---\npart_of: index.md\n---\n"),
    ]);
    let findings = dir.check(&ws(), "index.md");
    assert!(
        findings.iter().any(|f| matches!(f, Finding::DuplicateContainment { .. })),
        "{findings:?}"
    );
}

// ---- more of the same ----

#[test]
fn every_finding_has_its_text() {
    let doc = || "a.md".to_string();
    let relation = || "contents".to_string();
    let target = || "x.md".to_string();
    let cases = vec![
        (
            Finding::BrokenLink { doc: doc(), relation: relation(), target: target() },
            "a.md: broken contents link: x.md",
        ),
        (
            Finding::CaseMismatch {
                doc: doc(),
                relation: relation(),
                target: target(),
                actual: "X.md".into(),
            },
            "a.md: case mismatch in contents link: x.md is X.md on disk",
        ),
        (
            Finding::DuplicateContainment { doc: doc(), target: target() },
            "a.md: x.md is already contained elsewhere (cycle or second parent)",
        ),
        (
            Finding::MissingInverse { doc: doc(), child: target(), inverse: "part_of".into() },
            "a.md: child x.md does not declare part_of back to it",
        ),
        (
            Finding::Unreadable { doc: doc(), error: "no such file".into() },
            "a.md: unreadable: no such file",
        ),
        (
            Finding::MalformedId {
                doc: doc(),
                relation: relation(),
                target: "colophon:bad".into(),
            },
            "a.md: malformed ID in contents link: colophon:bad (bad shape or check character)",
        ),
        (
            Finding::DanglingId {
                doc: doc(),
                relation: relation(),
                id: Id("bcdfght".into()),
                tombstoned: true,
            },
            "a.md: dangling contents ID: colophon:bcdfght (document was deleted)",
        ),
        (
            Finding::DanglingId {
                doc: doc(),
                relation: relation(),
                id: Id("bcdfght".into()),
                tombstoned: false,
            },
            "a.md: dangling contents ID: colophon:bcdfght (never issued in this registry)",
        ),
    ];
    for (finding, message) in cases {
        assert_eq!(finding.message(), message);
    }
}

#[test]
fn ids_that_do_not_resolve_are_told_apart() {
    let dir = Vault::new(&[(
        "index.md",
        "---\ncontents:\n- colophon:bcdfght\n- colophon:bcdfghx\n- https://example.com\n---\n",
    )]);
    assert_eq!(
        dir.check(&id_ws(), "index.md"),
        vec![
            Finding::DanglingId {
                doc: "index.md".into(),
                relation: "contents".into(),
                id: Id("bcdfght".into()),
                tombstoned: false,
            },
            Finding::MalformedId {
                doc: "index.md".into(),
                relation: "contents".into(),
                target: "colophon:bcdfghx".into(),
            },
        ]
    );
}

#[test]
fn an_unreadable_document_is_found() {
    let dir = Vault::new(&[("index.md", "---\ncontents:\n- a.md\n")]);
    let findings = dir.check(&ws(), "index.md");
    assert!(matches!(&findings[..], [Finding::Unreadable { doc, .. }] if doc == "index.md"));
    let findings = dir.check(&ws(), "nowhere/../gone.md");
    assert_eq!(
        findings,
        vec![Finding::Unreadable { doc: "gone.md".into(), error: "gone.md: not found".into() }]
    );
}

#[test]
fn a_cycle_is_found_and_ends() {
    let dir = Vault::new(&[
        ("a.md", "---\npart_of: b.md\ncontents:\n- b.md\n---\n"),
        ("b.md", "---\npart_of: a.md\ncontents:\n- a.md\n- b.md\n---\n"),
    ]);
    assert_eq!(
        dir.check(&ws(), "a.md"),
        vec![
            Finding::DuplicateContainment { doc: "b.md".into(), target: "a.md".into() },
            Finding::DuplicateContainment { doc: "b.md".into(), target: "b.md".into() },
        ]
    );
}

#[test]
fn a_child_without_metadata_owes_no_inverse() {
    let dir = Vault::new(&[
        ("index.md", "---\ncontents:\n- plain.md\n---\n"),
        ("plain.md", "just prose\n"),
    ]);
    assert_eq!(dir.check(&ws(), "index.md"), vec![]);
}

#[test]
fn names_match_exactly_or_but_for_case() {
    let names = Some(vec!["A.md".to_string(), "a.MD".to_string(), "b.md".to_string()]);
    let w = ws();
    assert_eq!(w.exact_name(&names, "x/b.md"), NameMatch::Exact);
    assert_eq!(w.exact_name(&names, "a.md"), NameMatch::CaseOnly("a.MD".into()));
    assert_eq!(w.exact_name(&names, "A.md"), NameMatch::Exact);
    assert_eq!(w.exact_name(&names, "c.md"), NameMatch::Missing);
    assert_eq!(w.exact_name(&None, "a.md"), NameMatch::Missing);
    assert_eq!(w.exact_name(&names, ".."), NameMatch::Missing);
    // Only ASCII letters have case here.
    let names = Some(vec!["É.md".to_string()]);
    assert_eq!(w.exact_name(&names, "é.md"), NameMatch::Missing);
}

#[test]
fn the_root_is_looked_for_by_its_own_name() {
    let names = Some(vec!["vault".to_string(), "other".to_string()]);
    assert_eq!(ws().with_root("/home/vault").exact_name(&names, ""), NameMatch::Exact);
    assert_eq!(ws().with_root("home/vault/").exact_name(&names, ""), NameMatch::Exact);
    assert_eq!(
        ws().with_root("/home/Vault").exact_name(&names, ""),
        NameMatch::CaseOnly("vault".into())
    );
    assert_eq!(ws().with_root("/home/gone").exact_name(&names, ""), NameMatch::Missing);
    // Without a name of its own the root is not found.
    assert_eq!(ws().exact_name(&names, ""), NameMatch::Missing);
    assert_eq!(ws().with_root(".").exact_name(&names, ""), NameMatch::Missing);
    // A path that ends in a name is looked for by that name.
    assert_eq!(ws().with_root("/home/gone").exact_name(&names, "x/vault"), NameMatch::Exact);
    assert_eq!(ws().with_root("/home").exact_name(&names, "/etc/other"), NameMatch::Exact);
}

#[test]
fn a_link_to_the_root_is_not_broken() {
    let mut dir = Vault::new(&[("index.md", "---\nlinks:\n- .\n---\n")]);
    let mut w = ws().with_root("/home/vault");
    w.relations = RelationSet {
        relations: vec![Relation { name: "links".into(), inverse: None }],
        spanning: None,
    };
    dir.above = vec!["vault".to_string()];
    assert_eq!(dir.check(&w, "index.md"), vec![]);
    dir.above = vec!["other".to_string()];
    assert_eq!(
        dir.check(&w, "index.md"),
        vec![Finding::BrokenLink {
            doc: "index.md".into(),
            relation: "links".into(),
            target: ".".into(),
        }]
    );
}

#[test]
fn a_path_is_asked_about_once() {
    let source = "---\nlinks:\n- b.md\n- a.md\ncontents:\n- a.md\n---\n";
    let mut w = ws();
    w.relations = RelationSet {
        relations: vec![
            Relation { name: "links".into(), inverse: None },
            Relation { name: "contents".into(), inverse: Some("part_of".into()) },
        ],
        spanning: Some("contents".into()),
    };
    let probes = w.probes("index.md", &Ok(source.to_string()));
    let asked: Vec<(&str, bool)> = probes.iter().map(|p| (p.path.as_str(), p.read)).collect();
    assert_eq!(asked, vec![("b.md", false), ("a.md", true)]);

    // So the missing inverse is found, though the spanning edge is not the first to lead there.
    let dir = Vault::new(&[
        ("index.md", source),
        ("a.md", "---\ntitle: no part_of here\n---\n"),
        ("b.md", ""),
    ]);
    assert_eq!(
        dir.check(&w, "index.md"),
        vec![Finding::MissingInverse {
            doc: "index.md".into(),
            child: "a.md".into(),
            inverse: "part_of".into(),
        }]
    );
}

#[test]
fn links_lead_out_or_through_the_registry_or_along_the_path() {
    let mut w = id_ws();
    w.index.register(&Id("q".into()), "sub/../b.md");
    let at = |raw: &str| w.resolve_link("notes/a.md", &Link::parse(raw));
    assert_eq!(at("https://example.com"), Target::External);
    assert_eq!(at("[m](mailto:a@b.c)"), Target::External);
    assert_eq!(at("colophon:q"), Target::Path("b.md".into()));
    assert_eq!(at("colophon:z"), Target::UnresolvedId(Id("z".into())));
    assert_eq!(at("../x.md"), Target::Path("x.md".into()));
    assert_eq!(at("[l](y.md)"), Target::Path("notes/y.md".into()));
}

#[test]
fn minting_passes_over_what_is_known() {
    let mut w = id_ws();
    // The first ID of this seed is taken, and then retired: it is never reissued.
    let first = Id("b29r4b9".into());
    w.index.register(&first, "old.md");
    w.index.unregister(&first);
    let id = w.register("new.md", Trigger::Publish).unwrap();
    assert_eq!(id.as_str(), "yk7fbqx");
    assert_eq!(w.index.resolve(&id), Some("new.md".into()));
}

#[test]
fn a_rename_needs_a_document_and_a_free_place() {
    let mut dir = Vault::new(&[
        ("a.md", "---\ntitle: A\n---\n"),
        ("b.md", "---\ntitle: B\n---\n"),
    ]);
    let err = dir.rename(&mut ws(), "c.md", "d.md").unwrap_err();
    assert_eq!(err, WorkspaceError::Structure("c.md does not exist".into()));
    let err = dir.rename(&mut ws(), "a.md", "./b.md").unwrap_err();
    assert_eq!(err, WorkspaceError::Structure("b.md already exists".into()));
}

#[test]
fn mutations_need_a_spanning_relation_with_an_inverse() {
    let mut w = ws();
    w.relations = RelationSet { relations: vec![], spanning: None };
    let err = w.create("a.md", "b.md").unwrap_err().message();
    assert_eq!(err, "no spanning relation configured");
    w.relations = RelationSet {
        relations: vec![Relation { name: "has".into(), inverse: None }],
        spanning: Some("has".into()),
    };
    let err = w.delete("a.md").unwrap_err().message();
    assert_eq!(err, "spanning relation `has` has no inverse");
    let err = w.rename("a.md", "b.md").unwrap_err().message();
    assert_eq!(err, "spanning relation `has` has no inverse");
}

#[test]
fn a_refused_deletion_names_the_children() {
    let mut dir = Vault::new(&[(
        "a.md",
        "---\ncontents:\n- '[B](b.md)'\n- c.md\n---\n",
    )]);
    let err = dir.delete(&mut ws(), "x/../a.md", false).unwrap_err().message();
    assert_eq!(err, "a.md contains 2 document(s) (b.md, c.md); delete them first or force");
    assert!(dir.holds("a.md"));
}

#[test]
fn an_entry_is_addressed_by_its_place_in_the_sequence() {
    // An item that is no text does not shift the ones behind it.
    let mut dir = Vault::new(&[
        ("index.md", "---\ncontents:\n- 7\n- a.md\n- b.md\n---\n"),
        ("a.md", "---\npart_of: index.md\n---\n"),
        ("b.md", "---\npart_of: index.md\n---\n"),
    ]);
    dir.rename(&mut ws(), "a.md", "c.md").unwrap();
    assert_eq!(dir.read("index.md").unwrap(), "---\ncontents:\n- 7\n- c.md\n- b.md\n---\n");
    dir.delete(&mut ws(), "c.md", false).unwrap();
    assert_eq!(dir.read("index.md").unwrap(), "---\ncontents:\n- 7\n- b.md\n---\n");
}

#[test]
fn a_rename_in_place_leaves_the_document_alone() {
    let source = "---\npart_of: index.md\n---\nbody\n";
    let mut dir = Vault::new(&[("index.md", "---\ncontents: a.md\n---\n"), ("a.md", source)]);
    dir.rename(&mut ws(), "a.md", "b.md").unwrap();
    assert_eq!(dir.read("b.md").unwrap(), source);
    // A field that is one text is addressed by its key.
    assert_eq!(dir.read("index.md").unwrap(), "---\ncontents: b.md\n---\n");
}

#[test]
fn a_move_leaves_links_alone_that_do_not_depend_on_the_place() {
    let source =
        "---\ncontents:\n- https://example.com\n- colophon:bcdfght\n- '[X](x.md)'\npart_of: ../up.md\n---\n";
    let doc = Document::parse(source).unwrap();
    let relations = RelationSet::diaryx().relations;
    let out = rerelativize(source, &doc, &relations, "a/d.md", "d.md").unwrap();
    assert_eq!(
        out,
        "---\ncontents:\n- https://example.com\n- colophon:bcdfght\n- '[X](a/x.md)'\npart_of: up.md\n---\n"
    );
}

#[test]
fn a_move_leaves_a_link_to_a_rooted_path_alone() {
    let source = "---\npart_of: /README.md\ncontents:\n- '[X](/a/../x.md)'\n- y.md\n---\n";
    let doc = Document::parse(source).unwrap();
    let relations = RelationSet::diaryx().relations;
    let out = rerelativize(source, &doc, &relations, "mid.md", "sub/mid.md").unwrap();
    assert_eq!(
        out,
        "---\npart_of: /README.md\ncontents:\n- '[X](/a/../x.md)'\n- ../y.md\n---\n"
    );
    let w = ws();
    let up = Link::parse("/README.md");
    assert_eq!(w.resolve_link("mid.md", &up), w.resolve_link("sub/mid.md", &up));
}

#[test]
fn creating_keeps_a_child_that_stood_alone() {
    for (before, field) in [
        ("---\ncontents: a.md\n---\n", "a.md"),
        ("---\ncontents: '[A](a.md)'\n---\n", "[A](a.md)"),
        (";;;\n{\"contents\": \"a.md\"}\n;;;\n", "a.md"),
        ("+++\ncontents = \"a.md\"\n+++\n", "a.md"),
        ("```fig\ncontents = a.md\n```\n", "a.md"),
    ] {
        let mut dir = Vault::new(&[("index.md", before), ("a.md", "")]);
        dir.create(&mut ws(), "b.md", "index.md").unwrap();
        let after = dir.read("index.md").unwrap();
        let doc = Document::parse(&after).unwrap();
        assert_eq!(
            ws().relations.children(&doc.meta),
            vec![field.to_string(), "b.md".to_string()],
            "{after}"
        );
    }
}

#[test]
fn creating_fills_what_holds_nothing() {
    for before in [
        "---\ntitle: Root\n---\n",
        "---\ntitle: Root\ncontents:\n---\n",
        "---\ntitle: Root\ncontents: []\n---\n",
        "+++\ntitle = \"Root\"\ncontents = []\n+++\n",
        ";;;\n{\"contents\": []}\n;;;\n",
        ";;;\n{\"contents\": null}\n;;;\n",
        "prose\n",
    ] {
        let mut dir = Vault::new(&[("index.md", before)]);
        dir.create(&mut ws(), "b.md", "index.md").unwrap();
        let after = dir.read("index.md").unwrap();
        let doc = Document::parse(&after).unwrap();
        assert_eq!(ws().relations.children(&doc.meta), vec!["b.md".to_string()], "{after}");
    }
}

#[test]
fn creating_replaces_what_is_no_link() {
    for before in [
        "---\ntitle: Root\ncontents: 7\n---\nbody\n",
        "---\ntitle: Root\ncontents:\n  a: b\n---\nbody\n",
        ";;;\n{\"title\": \"Root\", \"contents\": {\"a\": 1}}\n;;;\nbody\n",
        "+++\ntitle = \"Root\"\ncontents = true\n+++\nbody\n",
    ] {
        let mut dir = Vault::new(&[("index.md", before)]);
        dir.create(&mut ws(), "b.md", "index.md").unwrap();
        let after = dir.read("index.md").unwrap();
        let doc = Document::parse(&after).unwrap();
        assert_eq!(ws().relations.children(&doc.meta), vec!["b.md".to_string()], "{after}");
        assert_eq!(doc.title().as_deref(), Some("Root"), "{after}");
        assert!(after.ends_with("body\n"), "{after}");
    }
}

#[test]
fn deleting_a_child_that_stands_alone_removes_the_field() {
    for before in [
        "---\ntitle: Root\ncontents: a.md\n---\nbody\n",
        ";;;\n{\"title\": \"Root\", \"contents\": \"a.md\"}\n;;;\nbody\n",
    ] {
        let mut dir =
            Vault::new(&[("index.md", before), ("a.md", "---\npart_of: index.md\n---\n")]);
        dir.delete(&mut ws(), "a.md", false).unwrap();
        assert!(!dir.holds("a.md"));
        let after = dir.read("index.md").unwrap();
        let doc = Document::parse(&after).unwrap();
        assert!(doc.meta.get("contents").is_none(), "{after}");
        assert_eq!(doc.title().as_deref(), Some("Root"));
        assert!(after.ends_with("body\n"), "{after}");
    }
}

#[test]
fn deleting_undoes_creating() {
    let before = "---\ntitle: Root\ncontents:\n- a.md\n---\nbody\n";
    let mut dir = Vault::new(&[("index.md", before), ("a.md", "")]);
    let mut w = Workspace::new(Minter::eager(7), FileIndex::new(Format::Yaml));
    dir.create(&mut w, "sub/b.md", "index.md").unwrap();
    assert!(w.index.id_for_path("sub/b.md").is_some());
    dir.delete(&mut w, "sub/b.md", false).unwrap();
    assert_eq!(dir.read("index.md").unwrap(), before);
    assert!(!dir.holds("sub/b.md"));
    assert_eq!(w.index.id_for_path("sub/b.md"), None);
    assert!(w.index.is_empty());
}

#[test]
fn spanning_links_become_children() {
    let id = Id("bcdfght".into());
    let branch = |target: Target, label: Option<&str>| Branch {
        target,
        label: label.map(str::to_string),
    };
    let children = sprouts(vec![
        branch(Target::External, Some("out")),
        branch(Target::UnresolvedId(id.clone()), Some("lost")),
        branch(Target::Path("a.md".into()), None),
        branch(Target::External, None),
        branch(Target::Path("b.md".into()), Some("B")),
    ]);
    assert_eq!(
        children,
        vec![
            Sprout::Leaf(leaf(
                "colophon:bcdfght".into(),
                Some("lost".into()),
                NodeKind::UnresolvedId(id)
            )),
            Sprout::Path("a.md".into(), None),
            Sprout::Path("b.md".into(), Some("B".into())),
        ]
    );
    assert_eq!(sprouts(vec![]), vec![]);
}

#[test]
fn a_check_takes_one_turn_for_each_document() {
    let dir = Vault::new(&[
        ("index.md", "---\ncontents:\n- a.md\n- b.md\n- a.md\n---\n"),
        ("a.md", "---\npart_of: index.md\ncontents:\n- index.md\n- b.md\n---\n"),
        ("b.md", "---\npart_of: index.md\ncontents:\n- a.md\n---\n"),
    ]);
    let w = ws();
    let mut check = w.check("index.md");
    let mut turns = 0;
    while let Some(doc) = check.next() {
        turns += 1;
        let text = dir.read(&doc).map_err(|e| e.message());
        let seen = w.probes(&doc, &text).into_iter().map(|p| Seen {
            names: dir.names(&p.path),
            text: dir.read(&p.path).map_err(|e| e.message()),
            path: p.path,
        });
        w.take_up(&mut check, &doc, &text, &seen.collect());
    }
    assert_eq!(turns, 3);
}

#[test]
fn a_refused_removal_leaves_everything_as_it_was() {
    // The array ends its lines with a carriage return and a line feed, and its last item
    // cannot be taken out of it.
    let before = ";;;\r\n{\"contents\": [\r\n  \"a.md\",\r\n  \"b.md\"\r\n]}\r\n;;;\r\n";
    let mut dir = Vault::new(&[
        ("index.md", before),
        ("a.md", "---\npart_of: index.md\n---\n"),
        ("b.md", "---\npart_of: index.md\n---\n"),
    ]);
    let err = dir.delete(&mut ws(), "b.md", false).unwrap_err();
    assert!(matches!(err, WorkspaceError::Fig(_)), "{err:?}");
    assert_eq!(dir.read("index.md").unwrap(), before);
    assert!(dir.holds("b.md"));
    dir.delete(&mut ws(), "a.md", false).unwrap();
    assert!(!dir.holds("a.md"));
}

#[test]
fn in_json_deleting_undoes_creating() {
    for before in [
        ";;;\n{\"contents\": []}\n;;;\nbody\n",
        ";;;\n{\n  \"contents\": [\n    \"a.md\"\n  ],\n  \"n\": 1\n}\n;;;\nbody\n",
        "---json\n{ \"contents\": [ \"a.md\" ] }\n---\nbody\n",
    ] {
        let mut dir = Vault::new(&[("index.md", before)]);
        let mut w = ws();
        dir.create(&mut w, "sub/odd, \"name\".md", "index.md").unwrap();
        let parent = Document::parse(&dir.read("index.md").unwrap()).unwrap();
        assert_eq!(
            w.relations.children(&parent.meta).last().map(String::as_str),
            Some("sub/odd, \"name\".md")
        );
        dir.delete(&mut w, "sub/odd, \"name\".md", false).unwrap();
        assert_eq!(dir.read("index.md").unwrap(), before);
        assert!(!dir.holds("sub/odd, \"name\".md"));
    }
}

#[test]
fn in_json_a_moved_document_leads_on() {
    let mut dir = Vault::new(&[
        ("index.md", ";;;\n{\"contents\": [\"a.md\"]}\n;;;\n"),
        (
            "a.md",
            ";;;\n{\"part_of\": \"index.md\", \"contents\": [\"[B](b.md)\", \"https://x.y\"]}\n;;;\nbody\n",
        ),
        ("b.md", ";;;\n{\"part_of\": \"a.md\"}\n;;;\n"),
    ]);
    let mut w = ws();
    dir.rename(&mut w, "a.md", "deep/a.md").unwrap();
    assert_eq!(
        dir.read("deep/a.md").unwrap(),
        ";;;\n{\"part_of\": \"../index.md\", \"contents\": [\"[B](../b.md)\", \"https://x.y\"]}\n;;;\nbody\n"
    );
    assert_eq!(
        dir.read("index.md").unwrap(),
        ";;;\n{\"contents\": [\"deep/a.md\"]}\n;;;\n"
    );
    assert_eq!(dir.read("b.md").unwrap(), ";;;\n{\"part_of\": \"deep/a.md\"}\n;;;\n");
}

#[test]
fn where_appending_is_refused_no_link_is_lost() {
    // A tagged flow sequence reads as a sequence, but takes no new item.
    let mut dir = Vault::new(&[("index.md", "---\ncontents: !!seq [a.md]\n---\nbody\n")]);
    dir.create(&mut ws(), "b.md", "index.md").unwrap();
    assert_eq!(
        dir.read("index.md").unwrap(),
        "---\ncontents:\n- a.md\n- b.md\n---\nbody\n"
    );
    assert!(dir.holds("b.md"));
}

#[test]
fn where_every_edit_is_refused_nothing_is_created() {
    // Tables that repeat a key can neither take a text nor be replaced as a whole.
    let before = "+++\ntitle = \"Root\"\n\n[[contents]]\na = 1\n+++\nbody\n";
    let mut dir = Vault::new(&[("index.md", before)]);
    let err = dir.create(&mut ws(), "b.md", "index.md").unwrap_err();
    assert!(matches!(err, WorkspaceError::Fig(_)), "{err:?}");
    assert_eq!(dir.read("index.md").unwrap(), before);
    assert!(!dir.holds("b.md"));
}

#[test]
fn creating_appends_to_the_contents_that_are_there() {
    let mut dir =
        Vault::new(&[("d/index.md", "---\ncontents:\n- a.md\n---\nbody\n"), ("d/a.md", "")]);
    let mut w = ws();
    assert_eq!(dir.create(&mut w, "d/sub/.new.page.md", "d/index.md"), Ok(()));
    assert_eq!(
        dir.read("d/index.md").unwrap(),
        "---\ncontents:\n- a.md\n- sub/.new.page.md\n---\nbody\n"
    );
    let child = Document::parse(&dir.read("d/sub/.new.page.md").unwrap()).unwrap();
    assert_eq!(child.embed, Some(EmbedKind::FrontmatterYaml));
    assert_eq!(child.title().as_deref(), Some(".new.page"));
    assert_eq!(child.meta.get("part_of").unwrap().as_str(), Some("../index.md"));
}

#[test]
fn a_plan_is_carried_out_in_order() {
    let w = ws();
    let job = w.rename("a.md", "s/b.md").unwrap();
    let plan = w.rename_plan(&job, "---\ntitle: A\n---\n", &None, &vec![]).unwrap();
    assert_eq!(
        plan,
        vec![
            FsOp::CreateDirAll("s".into()),
            FsOp::Rename("a.md".into(), "s/b.md".into()),
            FsOp::Write("s/b.md".into(), "---\ntitle: A\n---\n".into()),
        ]
    );
    let job = w.delete("a.md").unwrap();
    assert_eq!(w.delete_plan(&job, &None).unwrap(), vec![FsOp::RemoveFile("a.md".into())]);
}

#[test]
fn a_document_without_metadata_cannot_change_its_directory() {
    let w = ws();
    let job = w.rename("a.md", "s/a.md").unwrap();
    let err = w.rename_plan(&job, "prose\n", &None, &vec![]).unwrap_err();
    assert_eq!(err, WorkspaceError::Fig("path or region not found".into()));
}

fn broken(message: &str) -> StorageError {
    StorageError { kind: StorageErrorKind::Other, message: message.to_string() }
}

#[test]
fn an_operation_asks_before_it_writes() {
    let w = ws();
    let job = w.rename("a.md", "b.md").unwrap();
    let mut op = Operation::begin(Task::Rename(job));
    assert_eq!(op.ask(), Some(Ask::Exists("a.md".into())));
    op = w.answer(op, Answer::Exists(Ok(true)));
    assert_eq!(op.ask(), Some(Ask::Exists("b.md".into())));
    op = w.answer(op, Answer::Exists(Ok(false)));
    assert_eq!(op.ask(), Some(Ask::Load("a.md".into())));
    let source = "---\npart_of: up.md\ncontents:\n- x.md\n- y.md\n---\n";
    op = w.answer(op, Answer::Text(Ok(source.into())));
    assert_eq!(op.ask(), Some(Ask::Load("up.md".into())));
    op = w.answer(op, Answer::Text(Ok("---\ncontents: [a.md]\n---\n".into())));
    assert_eq!(op.ask(), Some(Ask::Load("x.md".into())));
    // A child that cannot be read is passed over.
    op = w.answer(op, Answer::Text(Err(broken("gone"))));
    assert_eq!(op.ask(), Some(Ask::Load("y.md".into())));
    // An answer to something else is passed over.
    op = w.answer(op, Answer::Exists(Ok(true)));
    assert_eq!(op.ask(), Some(Ask::Load("y.md".into())));
    op = w.answer(op, Answer::Text(Ok("---\npart_of: a.md\n---\n".into())));
    let mut carried = Vec::new();
    while let Some(Ask::Carry(step)) = op.ask() {
        carried.push(step);
        op = w.answer(op, Answer::Carried(Ok(())));
    }
    assert_eq!(
        carried,
        vec![
            FsOp::CreateDirAll("".into()),
            FsOp::Rename("a.md".into(), "b.md".into()),
            FsOp::Write("b.md".into(), source.into()),
            FsOp::Write("up.md".into(), "---\ncontents: [b.md]\n---\n".into()),
            FsOp::Write("y.md".into(), "---\npart_of: b.md\n---\n".into()),
        ]
    );
    assert_eq!(op.ask(), None);
    assert_eq!(ws().finish(op), Ok(()));
}

#[test]
fn a_failing_storage_ends_an_operation() {
    let w = ws();
    let begin = || Operation::begin(Task::Rename(w.rename("a.md", "b.md").unwrap()));
    let failed = |op: Operation| ws().finish(op).unwrap_err();
    let io = |m: &str| WorkspaceError::Io(broken(m));

    let op = w.answer(begin(), Answer::Exists(Err(broken("one"))));
    assert_eq!(failed(op), io("one"));

    let op = w.answer(begin(), Answer::Exists(Ok(true)));
    let op = w.answer(op, Answer::Exists(Err(broken("two"))));
    assert_eq!(failed(op), io("two"));

    let text = || {
        let op = w.answer(begin(), Answer::Exists(Ok(true)));
        w.answer(op, Answer::Exists(Ok(false)))
    };
    let op = w.answer(text(), Answer::Text(Err(broken("three"))));
    assert_eq!(failed(op), io("three"));

    // The parent must be readable.
    let op = w.answer(text(), Answer::Text(Ok("---\npart_of: up.md\n---\n".into())));
    let op = w.answer(op, Answer::Text(Err(broken("four"))));
    assert_eq!(failed(op), io("four"));

    // A failed write stops the rest.
    let op = w.answer(text(), Answer::Text(Ok("---\ntitle: A\n---\n".into())));
    let op = w.answer(op, Answer::Carried(Ok(())));
    assert_eq!(op.ask(), Some(Ask::Carry(FsOp::Rename("a.md".into(), "b.md".into()))));
    let op = w.answer(op, Answer::Carried(Err(broken("five"))));
    assert_eq!(op.ask(), None);
    assert_eq!(failed(op), io("five"));
}

#[test]
fn a_failed_operation_leaves_the_registry_alone() {
    let mut w = id_ws();
    let id = w.register("a.md", Trigger::Link).unwrap();
    let job = w.delete("a.md").unwrap();
    let op = Operation::begin(Task::Delete(job, false));
    let op = w.answer(op, Answer::Text(Ok("---\ntitle: A\n---\n".into())));
    assert_eq!(op.ask(), Some(Ask::Carry(FsOp::RemoveFile("a.md".into()))));
    let op = w.answer(op, Answer::Carried(Err(broken("denied"))));
    assert_eq!(w.finish(op), Err(WorkspaceError::Io(broken("denied"))));
    assert_eq!(w.index.resolve(&id), Some("a.md".into()));
}
