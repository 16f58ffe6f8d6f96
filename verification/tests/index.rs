use colophon::error::WorkspaceError;
use colophon::identity::Id;
use colophon::index::{FileIndex, InMemoryIndex, IndexStore, NoIndex};
use colophon::meta::{parse_mapping, Format};

/// The formats that are compiled in.
const FORMATS: [Format; 6] = [
    Format::Json,
    Format::Jsonc,
    Format::Json5,
    Format::Yaml,
    Format::Toml,
    Format::Fig,
];

#[test]
fn registers_and_resolves_both_directions() {
    let mut ix = InMemoryIndex::new();
    let id = Id("ajp7eq".into());
    ix.register(&id, "notes/a.md");
    assert_eq!(ix.resolve(&id), Some("notes/a.md".to_string()));
    assert_eq!(ix.id_for_path("notes/a.md"), Some(id.clone()));
    assert_eq!(ix.len(), 1);
}

#[test]
fn move_updates_path_and_clears_stale_reverse() {
    let mut ix = InMemoryIndex::new();
    let id = Id("ajp7eq".into());
    ix.register(&id, "a.md");
    ix.set_path(&id, "moved/a.md");
    assert_eq!(ix.resolve(&id), Some("moved/a.md".to_string()));
    assert_eq!(ix.id_for_path("a.md"), None);
    assert_eq!(ix.id_for_path("moved/a.md"), Some(id));
}

#[test]
fn unregister_removes_both_directions() {
    let mut ix = InMemoryIndex::new();
    let id = Id("x".into());
    ix.register(&id, "a.md");
    ix.unregister(&id);
    assert!(ix.is_empty());
    assert_eq!(ix.id_for_path("a.md"), None);
}

#[test]
fn file_index_round_trips_sorted_with_tombstones() {
    let mut ix = FileIndex::new(Format::Yaml);
    ix.register(&Id("zzzzzzz".into()), "z.md");
    ix.register(&Id("bcdfghj".into()), "notes/a.md");
    ix.register(&Id("mmmmmmm".into()), "gone.md");
    ix.unregister(&Id("mmmmmmm".into()));

    let text = ix.render().unwrap();
    // Sorted, one record per line, tombstone as null.
    let b = text.find("bcdfghj").unwrap();
    let m = text.find("mmmmmmm").unwrap();
    let z = text.find("zzzzzzz").unwrap();
    assert!(b < m && m < z, "{text}");
    assert!(text.contains("mmmmmmm: null"), "{text}");

    let back = FileIndex::from_str(&text, Format::Yaml).unwrap();
    assert_eq!(back.resolve(&Id("bcdfghj".into())), Some("notes/a.md".to_string()));
    assert_eq!(back.resolve(&Id("mmmmmmm".into())), None);
    assert!(back.is_known(&Id("mmmmmmm".into())), "tombstone survives the round-trip");
    assert!(back.is_tombstoned(&Id("mmmmmmm".into())));
    assert!(!back.is_dirty());
}

#[test]
fn tombstoned_ids_are_never_free_for_reminting() {
    let mut ix = FileIndex::new(Format::Yaml);
    let id = Id("bcdfghj".into());
    ix.register(&id, "a.md");
    ix.unregister(&id);
    assert_eq!(ix.resolve(&id), None, "does not resolve");
    assert!(ix.is_known(&id), "but is still known — never reminted");
}

#[test]
fn dirty_tracks_mutations() {
    let mut ix = FileIndex::new(Format::Yaml);
    assert!(!ix.is_dirty());
    ix.register(&Id("x".into()), "a.md");
    assert!(ix.is_dirty());
    ix.mark_clean();
    assert!(!ix.is_dirty());
}

#[test]
fn empty_text_is_an_empty_registry() {
    let ix = FileIndex::from_str("", Format::Yaml).unwrap();
    assert!(ix.is_empty());
}

#[test]
fn an_empty_text_is_an_empty_registry_in_every_format() {
    for format in FORMATS {
        assert_eq!(FileIndex::from_str("", format).unwrap().len(), 0);
    }
    assert_eq!(FileIndex::from_str("", Format::Zon).unwrap().len(), 0);
    // That format is not compiled in.
    let err = FileIndex::new(Format::Zon).render().unwrap_err();
    assert_eq!(err, WorkspaceError::Fig("unsupported format".into()));
}

#[test]
fn no_index_holds_nothing() {
    let mut ix = NoIndex;
    let id = Id("x".into());
    ix.register(&id, "a.md");
    ix.set_path(&id, "b.md");
    assert_eq!(ix.resolve(&id), None);
    assert_eq!(ix.id_for_path("a.md"), None);
    assert!(!ix.is_known(&id));
    ix.unregister(&id);
    assert!(!ix.is_known(&id));
}

#[test]
fn a_plain_registry_forgets_what_it_retires() {
    let mut ix = InMemoryIndex::new();
    let id = Id("x".into());
    ix.register(&id, "a.md");
    assert!(ix.is_known(&id));
    ix.unregister(&id);
    assert!(!ix.is_known(&id));
    assert_eq!(ix.len(), 0);
    ix.unregister(&id);
    assert!(ix.is_empty());
}

#[test]
fn registering_again_replaces_the_path_and_clears_the_old_one() {
    let mut ix = InMemoryIndex::new();
    let id = Id("x".into());
    ix.register(&id, "a.md");
    ix.register(&id, "b.md");
    assert_eq!(ix.len(), 1);
    assert_eq!(ix.resolve(&id), Some("b.md".to_string()));
    assert_eq!(ix.id_for_path("b.md"), Some(id.clone()));
    assert_eq!(ix.id_for_path("a.md"), None);

    // The persistent registry does the same, and so does reading the records back.
    let mut ix = FileIndex::new(Format::Yaml);
    ix.register(&id, "a.md");
    ix.register(&id, "b.md");
    assert_eq!(ix.len(), 1);
    assert_eq!(ix.id_for_path("a.md"), None);
    assert_eq!(ix.id_for_path("b.md"), Some(id));
}

#[test]
fn retiring_an_id_undoes_registering_it() {
    let mut ix = FileIndex::new(Format::Yaml);
    let (old, new) = (Id("x".into()), Id("y".into()));
    ix.register(&old, "a.md");
    ix.register(&new, "b.md");
    ix.unregister(&new);
    assert_eq!(ix.id_for_path("a.md"), Some(old.clone()));
    assert_eq!(ix.resolve(&old), Some("a.md".to_string()));
    assert_eq!(ix.id_for_path("b.md"), None);
    assert_eq!(ix.resolve(&new), None);
    assert!(ix.is_known(&new));
}

#[test]
fn paths_are_found_by_their_components() {
    let mut ix = InMemoryIndex::new();
    let id = Id("x".into());
    ix.register(&id, "notes//a.md");
    assert_eq!(ix.id_for_path("notes/a.md"), Some(id.clone()));
    assert_eq!(ix.resolve(&id), Some("notes//a.md".to_string()));
}

#[test]
fn the_text_is_one_record_per_line() {
    let mut ix = FileIndex::new(Format::Yaml);
    ix.register(&Id("zzzzzzz".into()), "z.md");
    ix.register(&Id("bcdfghj".into()), "notes/a.md");
    ix.unregister(&Id("mmmmmmm".into()));
    assert_eq!(
        ix.render().unwrap(),
        "registry:\n  bcdfghj: notes/a.md\n  mmmmmmm: null\n  zzzzzzz: z.md\n"
    );
    assert_eq!(FileIndex::new(Format::Yaml).render().unwrap(), "registry: {}\n");
}

#[test]
fn ids_made_of_digits_read_back() {
    let mut ix = FileIndex::new(Format::Yaml);
    for id in ["2345678", "9999999", "2222223"] {
        ix.register(&Id(id.into()), &format!("notes/{id}.md"));
    }
    ix.unregister(&Id("9999999".into()));
    let back = FileIndex::from_str(&ix.render().unwrap(), Format::Yaml).unwrap();
    assert_eq!(back.resolve(&Id("2345678".into())), Some("notes/2345678.md".to_string()));
    assert_eq!(back.resolve(&Id("2222223".into())), Some("notes/2222223.md".to_string()));
    assert!(back.is_tombstoned(&Id("9999999".into())));
    assert_eq!(back.iter(), ix.iter());
}

#[test]
fn plain_paths_read_back() {
    let mut ix = FileIndex::new(Format::Yaml);
    let paths = [
        "a.md", "null", "true", ".inf", "12", "1.5", "1e3", "my notes/a b.md", "a-b_c.d/e", "..",
        "0", "07", "No", "a /b", "trailing ",
    ];
    for (i, path) in paths.iter().enumerate() {
        ix.register(&Id(format!("id{i}")), path);
    }
    let back = FileIndex::from_str(&ix.render().unwrap(), Format::Yaml).unwrap();
    for (i, path) in paths.iter().enumerate() {
        assert_eq!(back.resolve(&Id(format!("id{i}"))), Some(path.to_string()));
    }
}

#[test]
fn json_registries_read_back() {
    let mut ix = FileIndex::new(Format::Json);
    ix.register(&Id("bcdfghj".into()), "notes/a.md");
    ix.unregister(&Id("mmmmmmm".into()));
    let text = ix.render().unwrap();
    let back = FileIndex::from_str(&text, Format::Json).unwrap();
    assert_eq!(back.resolve(&Id("bcdfghj".into())), Some("notes/a.md".to_string()));
    assert!(back.is_tombstoned(&Id("mmmmmmm".into())));
}

#[test]
fn a_record_must_be_a_path_or_null() {
    let err = FileIndex::from_str("registry:\n  abc: 5\n", Format::Yaml).unwrap_err();
    assert_eq!(
        err,
        WorkspaceError::Structure(
            "registry entry `abc` must be a path or null (tombstone)".to_string()
        )
    );
}

#[test]
fn a_registry_must_be_a_mapping() {
    let err = FileIndex::from_str("- a\n- b\n", Format::Yaml).unwrap_err();
    assert_eq!(err, WorkspaceError::Structure("metadata must be a mapping".to_string()));
    let err = FileIndex::from_str("{", Format::Json).unwrap_err();
    assert!(matches!(err, WorkspaceError::Fig(_)), "{err:?}");
    assert!(!err.message().is_empty());
}

#[test]
fn without_a_registry_section_the_registry_is_empty() {
    assert!(FileIndex::from_str("other: 1\n", Format::Yaml).unwrap().is_empty());
    assert!(FileIndex::from_str("registry: text\n", Format::Yaml).unwrap().is_empty());
}

#[test]
fn an_integer_key_is_an_id_in_decimal() {
    let ix = FileIndex::from_str("registry:\n  2345678: a.md\n", Format::Yaml).unwrap();
    assert_eq!(ix.resolve(&Id("2345678".into())), Some("a.md".to_string()));
}

#[test]
fn live_records_are_listed_sorted() {
    let mut ix = FileIndex::new(Format::Yaml);
    ix.register(&Id("q".into()), "q.md");
    ix.register(&Id("b".into()), "b.md");
    ix.register(&Id("bb".into()), "bb.md");
    let listed: Vec<String> = ix.iter().into_iter().map(|(id, path)| id.0 + " " + &path).collect();
    assert_eq!(listed, vec!["b b.md", "bb bb.md", "q q.md"]);
}

#[test]
fn an_id_that_is_registered_again_is_no_tombstone() {
    let mut ix = FileIndex::new(Format::Yaml);
    let id = Id("bcdfghj".into());
    ix.register(&id, "a.md");
    ix.unregister(&id);
    assert!(ix.is_tombstoned(&id));
    ix.register(&id, "b.md");
    assert!(!ix.is_tombstoned(&id), "it resolves again");
    assert!(ix.is_known(&id));
    assert_eq!(ix.render().unwrap(), "registry:\n  bcdfghj: b.md\n");
}

#[test]
fn an_empty_registry_reads_back_in_every_format() {
    for (format, text) in [
        (Format::Yaml, "registry: {}\n"),
        (Format::Toml, "[registry]\n"),
        (Format::Fig, "registry = {}\n"),
    ] {
        assert_eq!(FileIndex::new(format).render().unwrap(), text);
    }
    for format in FORMATS {
        let text = FileIndex::new(format).render().unwrap();
        let back = FileIndex::from_str(&text, format).unwrap();
        assert!(back.is_empty(), "{format:?}: {text}");
        assert!(!back.is_dirty());
        let top = parse_mapping(&text, format).unwrap();
        assert_eq!(top.len(), 1, "{format:?}: {text}");
        assert_eq!(top[0].0, "registry");
        assert_eq!(top[0].1.as_mapping().unwrap().len(), 0, "{format:?}: {text}");
    }
}

#[test]
fn ordinary_registries_read_back_in_every_format() {
    for format in FORMATS {
        for count in 1..4 {
            let mut ix = FileIndex::new(format);
            for n in 0..count {
                ix.register(&Id(format!("bcdfgh{n}")), &format!("notes/a{n}.md"));
            }
            let text = ix.render().unwrap();
            let back = FileIndex::from_str(&text, format).unwrap();
            assert_eq!(back.iter(), ix.iter(), "{format:?}: {text}");
        }
    }
}

#[test]
fn odd_texts_read_back_where_they_are_kept() {
    let odd = [
        "", " ", "a b", "a=b", "a.b", "#x", "\"q\"", "'q'", "back\\slash", "tab\tx", "line\nx",
        "cr\rx", "nul\0x", "del\u{7f}", "esc\u{1b}", "é", "中", "\u{feff}", "\"\"\"", "'''", "[x]",
        "{x}", "true", "null", "~", "1", "1.5", "2024-01-01", "- x", "a: b", ": x", "<<", "*a", "&a",
        "!t", "|", ">", "%x", "@x", "`x", ",", "x\n", "\nx", "x ", "\u{85}", "\u{2028}",
    ];
    for format in FORMATS {
        if format == Format::Fig {
            continue;
        }
        for text in odd {
            let mut ix = FileIndex::new(format);
            ix.register(&Id(text.into()), text);
            ix.register(&Id("bcdfght".into()), text);
            let written = ix.render().unwrap();
            let back = FileIndex::from_str(&written, format).unwrap();
            assert_eq!(back.iter(), ix.iter(), "{format:?}: {written:?}");
        }
    }
}

#[test]
fn a_format_without_null_refuses_tombstones() {
    let mut ix = FileIndex::new(Format::Toml);
    ix.unregister(&Id("bcdfghj".into()));
    assert!(matches!(ix.render(), Err(WorkspaceError::Fig(_))));
}
