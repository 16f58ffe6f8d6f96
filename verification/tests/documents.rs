use colophon::document::Document;
use colophon::edit::{dotted, infer_scalar, lookup, set_in_text, unset_in_text};
use colophon::embed::{cut, BlockEditor, EmbedKind, Step};
use colophon::error::WorkspaceError;
use colophon::meta::{
    into_mapping, parse_mapping, serialize_mapping, serialize_value, Format, MetaValue,
};

const KINDS: [(EmbedKind, Format); 19] = [
    (EmbedKind::FrontmatterYaml, Format::Yaml),
    (EmbedKind::FrontmatterJson, Format::Json),
    (EmbedKind::EndmatterYaml, Format::Yaml),
    (EmbedKind::FrontmatterFig, Format::Fig),
    (EmbedKind::PlusToml, Format::Toml),
    (EmbedKind::FencedYaml, Format::Yaml),
    (EmbedKind::FencedJson, Format::Json),
    (EmbedKind::FencedToml, Format::Toml),
    (EmbedKind::MdFrontmatterJson, Format::Json),
    (EmbedKind::MdFrontmatterToml, Format::Toml),
    (EmbedKind::MdFrontmatterFig, Format::Fig),
    (EmbedKind::HtmlScriptFig, Format::Fig),
    (EmbedKind::HtmlScriptYaml, Format::Yaml),
    (EmbedKind::HtmlScriptJson, Format::Json),
    (EmbedKind::HtmlScriptToml, Format::Toml),
    (EmbedKind::HtmlCodeFig, Format::Fig),
    (EmbedKind::HtmlCodeYaml, Format::Yaml),
    (EmbedKind::HtmlCodeJson, Format::Json),
    (EmbedKind::HtmlCodeToml, Format::Toml),
];

fn text(s: &str) -> MetaValue {
    MetaValue::Text(s.to_string())
}

#[test]
fn every_kind_of_embed_has_its_format() {
    for (kind, format) in KINDS {
        assert_eq!(kind.inner_format(), format, "{kind:?}");
    }
}

#[test]
fn kinds_of_embed_are_recognized() {
    let cases = [
        ("---\ntitle: T\n---\nbody\n", EmbedKind::FrontmatterYaml),
        (";;;\n{\"title\": \"T\"}\n;;;\nbody\n", EmbedKind::FrontmatterJson),
        ("```fig\ntitle = T\n```\nbody\n", EmbedKind::FrontmatterFig),
        ("+++\ntitle = \"T\"\n+++\nbody\n", EmbedKind::PlusToml),
        ("```yaml\ntitle: T\n```\nbody\n", EmbedKind::FencedYaml),
        ("```json\n{\"title\": \"T\"}\n```\nbody\n", EmbedKind::FencedJson),
        ("```toml\ntitle = \"T\"\n```\nbody\n", EmbedKind::FencedToml),
        ("---json\n{\"title\": \"T\"}\n---\nbody\n", EmbedKind::MdFrontmatterJson),
        ("---toml\ntitle = \"T\"\n---\nbody\n", EmbedKind::MdFrontmatterToml),
        ("---fig\ntitle = T\n---\nbody\n", EmbedKind::MdFrontmatterFig),
    ];
    for (source, kind) in cases {
        let doc = Document::parse(source).unwrap();
        assert_eq!(doc.embed, Some(kind), "{source}");
        assert_eq!(doc.kind(), kind);
        assert!(doc.has_meta());
        assert_eq!(doc.title().as_deref(), Some("T"), "{source}");
        assert_eq!(doc.body, "body\n", "{source}");
        // An edit stays within the block.
        let out = set_in_text(source, "title", &text("New")).unwrap();
        let doc = Document::parse(&out).unwrap();
        assert_eq!(doc.embed, Some(kind), "{out}");
        assert_eq!(doc.title().as_deref(), Some("New"), "{out}");
        assert_eq!(doc.body, "body\n", "{out}");
    }
}

#[test]
fn a_text_is_cut_at_its_block() {
    let c = cut("---\na: 1\n---\nrest\n").unwrap().unwrap();
    assert_eq!(c.kind, EmbedKind::FrontmatterYaml);
    assert_eq!(c.content, "a: 1\n");
    assert_eq!(c.body, "rest\n");
    assert!(cut("no block\n").unwrap().is_none());
    let Err(err) = cut("---\na: 1\n") else { panic!("the block is not closed") };
    assert!(matches!(err, WorkspaceError::Fig(_)), "{err:?}");
}

#[test]
fn a_text_without_a_block_has_no_metadata() {
    let doc = Document::parse("just prose\n").unwrap();
    assert_eq!(doc.embed, None);
    assert!(!doc.has_meta());
    assert_eq!(doc.meta, MetaValue::Null);
    assert_eq!(doc.body, "just prose\n");
    assert_eq!(doc.kind(), EmbedKind::FrontmatterYaml);
}

#[test]
fn an_empty_block_is_an_empty_mapping() {
    let doc = Document::parse("---\n---\nbody\n").unwrap();
    assert_eq!(doc.meta, MetaValue::Mapping(vec![]));
    assert!(doc.has_meta());
}

#[test]
fn metadata_must_be_a_mapping() {
    let err = Document::parse("---\n- a\n---\n").unwrap_err();
    assert_eq!(err, WorkspaceError::Structure("metadata must be a mapping".into()));
    for value in [MetaValue::Bool(true), MetaValue::Int(1), text("x"), MetaValue::Sequence(vec![])] {
        assert!(into_mapping(value).is_err());
    }
    assert_eq!(into_mapping(MetaValue::Null).unwrap(), vec![]);
}

#[test]
fn values_are_read_by_kind() {
    let source = "n: null\nb: true\ni: -3\ns: text\nl: [x, 1, y]\nm: {k: v}\n7: seven\nf: 1.5\n";
    let entries = parse_mapping(source, Format::Yaml).unwrap();
    let meta = MetaValue::Mapping(entries);
    assert!(meta.get("n").unwrap().is_null());
    assert_eq!(meta.get("b").unwrap().as_bool(), Some(true));
    assert_eq!(meta.get("i").unwrap().as_int(), Some(-3));
    assert_eq!(meta.get("s").unwrap().as_str(), Some("text"));
    assert_eq!(meta.get("l").unwrap().as_sequence().unwrap().len(), 3);
    assert_eq!(meta.get("m").unwrap().get("k"), Some(&text("v")));
    assert_eq!(meta.get("7"), Some(&text("seven")));
    assert!(meta.get("none").is_none());
    let float = meta.get("f").unwrap();
    assert!(float.as_int().is_none() && float.as_str().is_none() && !float.is_null());
    assert!(matches!(float, MetaValue::Scalar(s) if *s.value() == fig::Value::Float(1.5)));
}

#[test]
fn what_is_not_looked_into_is_carried_through() {
    let entries = parse_mapping("f: 1.5\nu: 18446744073709551615\n", Format::Yaml).unwrap();
    assert_eq!(
        serialize_mapping(&entries, Format::Yaml).unwrap(),
        "f: 1.5\nu: 18446744073709551615\n"
    );
}

#[test]
fn link_texts_are_a_text_or_the_texts_of_a_sequence() {
    assert_eq!(text("a.md").link_strings(), vec!["a.md"]);
    let mixed = MetaValue::Sequence(vec![text("a"), MetaValue::Int(1), text("b")]);
    assert_eq!(mixed.link_strings(), vec!["a", "b"]);
    assert!(MetaValue::Bool(true).link_strings().is_empty());
    assert!(MetaValue::Mapping(vec![]).link_strings().is_empty());
}

#[test]
fn the_later_entry_counts() {
    let meta = MetaValue::Mapping(vec![("k".into(), text("a")), ("k".into(), text("b"))]);
    assert_eq!(meta.get("k"), Some(&text("b")));
}

#[test]
fn values_are_written_in_each_format() {
    let value = MetaValue::Sequence(vec![text("a"), MetaValue::Int(2), MetaValue::Null]);
    assert_eq!(serialize_value(&value, Format::Yaml).unwrap(), "- a\n- 2\n- null\n");
    let map = MetaValue::Mapping(vec![("k".into(), MetaValue::Bool(false))]);
    assert_eq!(serialize_value(&map, Format::Json).unwrap(), "{\n  \"k\": false\n}\n");
    assert_eq!(serialize_value(&map, Format::Toml).unwrap(), "k = false\n");
    assert_eq!(serialize_value(&map, Format::Fig).unwrap(), "k = false\n");
    let MetaValue::Mapping(entries) = map else { panic!() };
    assert_eq!(serialize_mapping(&entries, Format::Yaml).unwrap(), "k: false\n");
}

#[test]
fn a_broken_block_is_an_error() {
    let err = parse_mapping("{", Format::Json).unwrap_err();
    assert!(err.message().starts_with("failed to parse input"), "{err:?}");
    assert!(Document::parse("---\na: [\n---\n").is_err());
}

#[test]
fn dotted_paths_index_by_digits() {
    assert_eq!(
        dotted("a.0.b7"),
        vec![Step::Key("a".into()), Step::Index(0), Step::Key("b7".into())]
    );
    assert_eq!(dotted(""), vec![Step::Key("".into())]);
    assert_eq!(dotted("x."), vec![Step::Key("x".into()), Step::Key("".into())]);
    assert_eq!(dotted("+5"), vec![Step::Key("+5".into())]);
    assert_eq!(
        dotted("99999999999999999999999"),
        vec![Step::Key("99999999999999999999999".into())]
    );
    assert_eq!(dotted("007"), vec![Step::Index(7)]);
}

#[test]
fn values_are_found_by_dotted_path() {
    let doc = Document::parse("---\na:\n- x: 1\n- y\n---\n").unwrap();
    assert_eq!(lookup(&doc.meta, "a.0.x").unwrap().as_int(), Some(1));
    assert_eq!(lookup(&doc.meta, "a.1").unwrap().as_str(), Some("y"));
    assert!(lookup(&doc.meta, "a.2").is_none());
    assert!(lookup(&doc.meta, "a.x").is_none());
    assert!(lookup(&doc.meta, "0").is_none());
}

#[test]
fn setting_creates_the_block() {
    let out = set_in_text("prose\n", "title", &text("T")).unwrap();
    let doc = Document::parse(&out).unwrap();
    assert_eq!(doc.title().as_deref(), Some("T"));
    assert_eq!(doc.embed, Some(EmbedKind::FrontmatterYaml));
    assert!(out.ends_with("prose\n"), "{out}");
}

#[test]
fn setting_and_unsetting_keep_the_rest() {
    let source = "---\n# note\na: 1\nb:\n- x\n- y\n---\nbody\n";
    let out = set_in_text(source, "b.1", &MetaValue::Int(5)).unwrap();
    assert_eq!(out, "---\n# note\na: 1\nb:\n- x\n- 5\n---\nbody\n");
    let out = unset_in_text(source, "b").unwrap();
    assert_eq!(out, "---\n# note\na: 1\n---\nbody\n");
    let out = set_in_text(source, "c", &MetaValue::Bool(true)).unwrap();
    assert!(out.contains("# note") && out.contains("c: true"), "{out}");
    assert!(unset_in_text(source, "zzz").is_err());
    assert!(unset_in_text("prose\n", "a").is_err());
    assert!(set_in_text(source, "b.9", &MetaValue::Int(5)).is_err());
}

#[test]
fn scalars_are_inferred() {
    assert_eq!(infer_scalar("true"), MetaValue::Bool(true));
    assert_eq!(infer_scalar("false"), MetaValue::Bool(false));
    assert_eq!(infer_scalar("null"), MetaValue::Null);
    assert_eq!(infer_scalar("42"), MetaValue::Int(42));
    assert_eq!(infer_scalar("-7"), MetaValue::Int(-7));
    assert_eq!(infer_scalar("9223372036854775807"), MetaValue::Int(i64::MAX));
    assert_eq!(infer_scalar("-9223372036854775808"), MetaValue::Int(i64::MIN));
    assert_eq!(infer_scalar("9223372036854775808"), text("9223372036854775808"));
    assert_eq!(infer_scalar("-"), text("-"));
    assert_eq!(infer_scalar("True"), text("True"));
    assert_eq!(infer_scalar(""), text(""));
}

#[test]
fn kinds_of_embed_in_markup_are_recognized() {
    let blocks = [
        ("figl", "title = T", EmbedKind::HtmlScriptFig, EmbedKind::HtmlCodeFig),
        ("yaml", "title: T", EmbedKind::HtmlScriptYaml, EmbedKind::HtmlCodeYaml),
        ("json", "{\"title\": \"T\"}", EmbedKind::HtmlScriptJson, EmbedKind::HtmlCodeJson),
        ("toml", "title = \"T\"", EmbedKind::HtmlScriptToml, EmbedKind::HtmlCodeToml),
    ];
    for (name, block, script, code) in blocks {
        let source = format!("<script type=\"application/{name}\">\n{block}\n</script>\nbody\n");
        let doc = Document::parse(&source).unwrap();
        assert_eq!(doc.embed, Some(script), "{source}");
        assert_eq!(doc.title().as_deref(), Some("T"), "{source}");
        let source =
            format!("<pre><code class=\"language-{name}\">\n{block}\n</code></pre>\nbody\n");
        assert_eq!(cut(&source).unwrap().map(|c| c.kind), Some(code), "{source}");
    }
    let doc = Document::parse("body\n```endmatter\ntitle: T\n```\n").unwrap();
    assert_eq!(doc.embed, Some(EmbedKind::EndmatterYaml));
    assert_eq!(doc.title().as_deref(), Some("T"));
    assert_eq!(doc.body, "body\n");
}

// ---- edits in JSON ----

/// One edit of a block.
#[derive(Debug, Clone)]
enum Change {
    Put(&'static str, String),
    PutAll(&'static str, Vec<String>),
    Append(&'static str, String),
    Replace(&'static str, Option<usize>, String),
    Remove(&'static str, usize),
}

fn sequence(items: &[String]) -> MetaValue {
    MetaValue::Sequence(items.iter().map(|t| text(t)).collect())
}

fn step(key: &str) -> Step {
    Step::Key(key.to_string())
}

fn ask(block: &mut BlockEditor, change: &Change) -> bool {
    match change {
        Change::Put(key, t) => block.put(&vec![step(key)], &text(t)).is_ok(),
        Change::PutAll(key, items) => block.put(&vec![step(key)], &sequence(items)).is_ok(),
        Change::Append(key, t) => block.append(&vec![step(key)], &text(t)).is_ok(),
        Change::Replace(key, None, t) => block.replace(&vec![step(key)], &text(t)).is_ok(),
        Change::Replace(key, Some(i), t) => {
            block.replace(&vec![step(key), Step::Index(*i)], &text(t)).is_ok()
        }
        Change::Remove(key, i) => block.remove(&vec![step(key)], *i).is_ok(),
    }
}

/// What a granted edit makes of the entries.
fn make(entries: &mut Vec<(String, MetaValue)>, change: &Change) {
    let key = match change {
        Change::Put(k, _) | Change::PutAll(k, _) | Change::Append(k, _) => *k,
        Change::Replace(k, _, _) | Change::Remove(k, _) => *k,
    };
    if !entries.iter().any(|(k, _)| k == key) {
        assert!(matches!(change, Change::Put(_, _) | Change::PutAll(_, _)), "{change:?}");
        entries.push((key.to_string(), MetaValue::Null));
    }
    let held = &mut entries.iter_mut().find(|(k, _)| k == key).unwrap().1;
    match change {
        Change::Put(_, t) | Change::Replace(_, None, t) => *held = text(t),
        Change::PutAll(_, items) => *held = sequence(items),
        Change::Replace(_, Some(i), t) => match held {
            MetaValue::Sequence(items) => items[*i] = text(t),
            other => panic!("{other:?}"),
        },
        Change::Append(_, t) => match held {
            MetaValue::Sequence(items) => items.push(text(t)),
            other => panic!("{other:?}"),
        },
        Change::Remove(_, i) => match held {
            MetaValue::Sequence(items) => {
                items.remove(*i);
            }
            other => panic!("{other:?}"),
        },
    }
}

fn entries_of(host: &str) -> Vec<(String, MetaValue)> {
    match Document::parse(host).unwrap().meta {
        MetaValue::Mapping(entries) => entries,
        other => panic!("{other:?}"),
    }
}

const JSON_FENCES: [(&str, &str); 4] = [
    (";;;\n", ";;;\nbody\n;;;\n"),
    ("---json\n", "---\n\nbody\n---\n"),
    ("```json\n", "```\nbody\n"),
    ("<html>\n  <script type=\"application/json\">\n", "  </script>\n<p>body</p>\n</html>\n"),
];

const JSON_BLOCKS: [&str; 14] = [
    "{}\n",
    "{ }\n",
    "{\n}\n",
    "{\"contents\": []}\n",
    "{\"contents\": [\n]}\n",
    "{\"title\":\"t\",\"contents\":[\"a.md\"]}\n",
    "{ \"contents\" : [ \"a.md\" , \"b.md\" , \"c.md\" ] , \"n\" : 1.50 }\n",
    "{\n  \"title\": \"T\",\n  \"contents\": [\n    \"a.md\",\n    \"b.md\"\n  ],\n  \"z\": {\"k\": [1, {}]}\n}\n",
    "{\r\n\t\"contents\": [\r\n\t\t\"a.md\",\r\n\t\t\"b.md\"\r\n\t]\r\n}\r\n",
    "{\"contents\": [\"a.md\", 7, null, [\"x\"], {\"q\": \"\\u00e9\\n\"}], \"part_of\": \"up.md\"}\n\n",
    "\n\n  {\"contents\"\n:\n[\"a,]\\\"\"\n,\n\"b.md\"]\n}\n  \n",
    "{\"contents\": \"alone.md\", \"title\": null}\n",
    "{\"contents\": {\"k\": \"v\"}, \"title\": [\"t\"]}\n",
    "{\"a\": 18446744073709551616, \"contents\": [\"a\",\"a\"\n,\"a\"]}\n",
];

const ODD_TEXTS: [&str; 16] = [
    "", "b.md", "a, b", "0o17", "---", ";;;", "```", "</script>", "say \"hi\"", "back\\slash",
    "two\nlines\r\n;;;\n", "\ttab\u{8}\u{c}\u{0}\u{1f}\u{7f}", "\u{e9}\u{1f600}\u{2028}\u{feff}",
    "[x](y)", "]},", "<script type=\"application/json\">",
];

#[test]
fn edits_to_json_read_back() {
    let mut granted = 0;
    for (open, close) in JSON_FENCES {
        for block in JSON_BLOCKS {
            let host = format!("{open}{block}{close}");
            let before = Document::parse(&host).unwrap();
            for odd in ODD_TEXTS {
                let mut changes = vec![
                    Change::Put("title", odd.to_string()),
                    Change::Put("new \"key\"", odd.to_string()),
                    Change::PutAll("contents", vec!["a".into(), odd.to_string()]),
                    Change::PutAll("fresh", vec![]),
                    Change::Append("contents", odd.to_string()),
                    Change::Replace("title", None, odd.to_string()),
                    Change::Replace("contents", None, odd.to_string()),
                ];
                for i in 0..4 {
                    changes.push(Change::Replace("contents", Some(i), odd.to_string()));
                    changes.push(Change::Remove("contents", i));
                }
                for first in &changes {
                    for second in [Change::Append("contents", "last".into()), first.clone()] {
                        let mut editor = BlockEditor::open(&host, before.kind()).unwrap();
                        let mut expected = entries_of(&host);
                        for change in [first, &second] {
                            if ask(&mut editor, change) {
                                make(&mut expected, change);
                                granted += 1;
                            }
                        }
                        let after = editor.render().unwrap();
                        let now = Document::parse(&after).unwrap();
                        assert_eq!(now.meta, MetaValue::Mapping(expected), "{host:?} {first:?} {after:?}");
                        assert_eq!(now.embed, before.embed, "{host:?} {first:?}");
                        assert_eq!(now.body, before.body, "{host:?} {first:?}");
                    }
                }
            }
        }
    }
    assert!(granted > 10_000, "{granted}");
}

#[test]
fn a_block_begun_in_json_reads_back() {
    for kind in [
        EmbedKind::FrontmatterJson,
        EmbedKind::MdFrontmatterJson,
        EmbedKind::FencedJson,
        EmbedKind::HtmlScriptJson,
    ] {
        for odd in ODD_TEXTS {
            let mut editor = BlockEditor::open_or_init("", kind).unwrap();
            editor.put(&vec![step("title")], &text(odd)).unwrap();
            editor.put(&vec![step("part_of")], &text("up.md")).unwrap();
            let now = Document::parse(&editor.render().unwrap()).unwrap();
            assert_eq!(
                now,
                Document {
                    meta: MetaValue::Mapping(vec![
                        ("title".into(), text(odd)),
                        ("part_of".into(), text("up.md")),
                    ]),
                    embed: Some(kind),
                    body: String::new(),
                }
            );
        }
    }
}

#[test]
fn the_first_of_two_equal_keys_is_edited() {
    let host = ";;;\n{\"contents\": [\"a\"], \"contents\": [\"b\"]}\n;;;\n";
    let mut editor = BlockEditor::open(host, EmbedKind::FrontmatterJson).unwrap();
    editor.append(&vec![step("contents")], &text("c")).unwrap();
    assert_eq!(
        editor.render().unwrap(),
        ";;;\n{\"contents\": [\"a\", \"c\"], \"contents\": [\"b\"]}\n;;;\n"
    );
}

#[test]
fn some_texts_do_not_read_back_in_yaml() {
    let appended = |host: &str, t: &str| {
        let mut editor = BlockEditor::open(host, EmbedKind::FrontmatterYaml).unwrap();
        editor.append(&vec![step("contents")], &text(t)).unwrap();
        Document::parse(&editor.render().unwrap()).map(|d| d.meta)
    };
    let listed = |items: &[&str]| {
        let items = items.iter().map(|t| text(t)).collect();
        MetaValue::Mapping(vec![("contents".to_string(), MetaValue::Sequence(items))])
    };
    // Read as a number, and then refused as one.
    assert_eq!(
        appended("---\ncontents:\n- a.md\n---\n", "0o17"),
        Err(WorkspaceError::Fig("invalid number: 0o17".into()))
    );
    assert_eq!(
        appended("---\ncontents: [a.md]\n---\n", "b, c.md"),
        Ok(listed(&["a.md", "b", "c.md"]))
    );
    assert_eq!(
        appended("---\ncontents: [a.md]\n---\n", "b.md"),
        Ok(listed(&["a.md", "b.md"]))
    );
}
