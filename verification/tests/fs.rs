use std::collections::BTreeMap;

use colophon::error::{StorageError, StorageErrorKind};
use colophon::fs::{
    temp_sibling, try_exists, Action, AtomicWrite, Capabilities, DirEntry, FileType, Metadata,
    StdFs, Storage,
};

/// Files in memory that keep a log of what was done to them, and fail where asked to.
struct RecordingFs {
    files: BTreeMap<String, String>,
    log: Vec<Action>,
    caps: Capabilities,
    fail: Option<&'static str>,
}

impl RecordingFs {
    fn with_caps(caps: Capabilities) -> RecordingFs {
        RecordingFs { files: BTreeMap::new(), log: Vec::new(), caps, fail: None }
    }

    fn perform(&mut self, action: &Action, contents: &str) -> Result<(), StorageError> {
        self.log.push(action.clone());
        let step = match action {
            Action::Write(_) => "write",
            Action::Sync(_) => "sync",
            Action::Rename(_, _) => "rename",
            Action::Remove(_) => "remove",
        };
        if self.fail == Some(step) {
            return Err(StorageError {
                kind: StorageErrorKind::Other,
                message: format!("{step} failed (test)"),
            });
        }
        match action {
            Action::Write(p) => {
                self.files.insert(p.clone(), contents.to_string());
            }
            Action::Sync(_) => {}
            Action::Rename(a, b) => {
                let held = self.files.remove(a).unwrap();
                self.files.insert(b.clone(), held);
            }
            Action::Remove(p) => {
                self.files.remove(p);
            }
        }
        Ok(())
    }

    fn write_atomic(&mut self, path: &str, contents: &str) -> Result<(), StorageError> {
        let mut write = AtomicWrite::write_atomic(path, self.capabilities());
        while let Some(action) = write.action() {
            let outcome = self.perform(&action, contents);
            write.advance(outcome);
        }
        write.outcome()
    }
}

impl Storage for RecordingFs {
    fn capabilities(&self) -> Capabilities {
        self.caps
    }
}

/// A storage that says nothing of what it can do.
struct PlainFs;

impl Storage for PlainFs {}

#[test]
fn stdfs_declares_the_local_filesystem_guarantees() {
    // The native adapter promises atomic replacement and durable fsync, but
    // not native transactions — the journal's job, not the filesystem's.
    assert_eq!(StdFs.capabilities(), Capabilities::local_fs());
    assert!(StdFs.capabilities().atomic_replace);
    assert!(StdFs.capabilities().durable_sync);
    assert!(!StdFs.capabilities().native_transactions);
}

#[test]
fn the_default_capability_promises_nothing() {
    let bare = RecordingFs::with_caps(Capabilities::none());
    assert_eq!(bare.capabilities(), Capabilities::none());
    // Every field at its pessimistic value.
    assert_eq!(
        Capabilities::none(),
        Capabilities { atomic_replace: false, durable_sync: false, native_transactions: false }
    );
}

#[test]
fn a_storage_that_declares_nothing_promises_nothing() {
    assert_eq!(PlainFs.capabilities(), Capabilities::none());
    let local = RecordingFs::with_caps(Capabilities::local_fs());
    assert_eq!(local.capabilities(), Capabilities::local_fs());
}

#[test]
fn write_atomic_follows_the_durable_replace_protocol() {
    let mut fs = RecordingFs::with_caps(Capabilities::local_fs());
    fs.files.insert("protocol/doc.md".into(), "old".into());
    let target = "protocol/doc.md".to_string();
    let temp = "protocol/.doc.md.colophon-tmp".to_string();

    fs.write_atomic(&target, "new").unwrap();

    assert_eq!(fs.files[&target], "new");
    assert!(!fs.files.contains_key(&temp), "the staging file must be gone");
    assert_eq!(
        fs.log,
        vec![
            Action::Write(temp.clone()),
            Action::Sync(temp.clone()),
            Action::Rename(temp.clone(), target.clone()),
            Action::Sync(target.clone()),
        ],
        "the atomic-replace protocol ran out of order"
    );
}

#[test]
fn a_torn_atomic_write_leaves_the_target_untouched_and_no_litter() {
    let mut fs = RecordingFs::with_caps(Capabilities::local_fs());
    fs.files.insert("atomic-fail/doc.md".into(), "old".into());
    fs.fail = Some("rename");
    let target = "atomic-fail/doc.md".to_string();
    let temp = "atomic-fail/.doc.md.colophon-tmp".to_string();

    let err = fs.write_atomic(&target, "new").unwrap_err();

    assert!(err.message.contains("rename failed"), "{err:?}");
    assert_eq!(fs.files[&target], "old", "target was touched");
    assert!(!fs.files.contains_key(&temp), "the staging file was left behind");
}

#[test]
fn write_atomic_creates_a_new_file_without_disturbing_the_directory() {
    let mut fs = RecordingFs::with_caps(Capabilities::local_fs());
    let target = "atomic-create/fresh.md".to_string();
    let temp = "atomic-create/.fresh.md.colophon-tmp".to_string();

    fs.write_atomic(&target, "hello").unwrap();

    assert_eq!(fs.files[&target], "hello");
    assert!(!fs.files.contains_key(&temp));
    assert_eq!(fs.log.first(), Some(&Action::Write(temp)));
}

#[test]
fn a_non_atomic_backend_writes_straight_through_without_claiming_atomicity() {
    let mut fs = RecordingFs::with_caps(Capabilities::none());
    let target = "fallback/doc.md".to_string();

    fs.write_atomic(&target, "hello").unwrap();

    assert_eq!(fs.files[&target], "hello");
    assert_eq!(
        fs.log,
        vec![Action::Write(target.clone()), Action::Sync(target)],
        "the fallback must write the target directly, with no staging rename"
    );
    assert!(!fs.files.contains_key("fallback/.doc.md.colophon-tmp"));
}

#[test]
fn a_failed_staging_write_or_flush_is_cleaned_up() {
    for step in ["write", "sync"] {
        let mut fs = RecordingFs::with_caps(Capabilities::local_fs());
        fs.files.insert("doc.md".into(), "old".into());
        fs.fail = Some(step);
        let err = fs.write_atomic("doc.md", "new").unwrap_err();
        assert!(err.message.contains(step), "{err:?}");
        assert_eq!(fs.files["doc.md"], "old");
        assert_eq!(fs.log.last(), Some(&Action::Remove(".doc.md.colophon-tmp".into())));
        assert_eq!(fs.files.len(), 1);
    }
}

#[test]
fn a_failed_plain_write_stops_at_once() {
    let mut fs = RecordingFs::with_caps(Capabilities::none());
    fs.fail = Some("write");
    assert!(fs.write_atomic("doc.md", "new").is_err());
    assert_eq!(fs.log, vec![Action::Write("doc.md".into())]);
}

#[test]
fn the_staging_file_is_a_dotted_sibling() {
    assert_eq!(temp_sibling("a/b/doc.md"), "a/b/.doc.md.colophon-tmp");
    assert_eq!(temp_sibling("doc.md"), ".doc.md.colophon-tmp");
    assert_eq!(temp_sibling("/doc"), "/.doc.colophon-tmp");
    assert_eq!(temp_sibling(".."), "../.document.colophon-tmp");
    assert_eq!(temp_sibling(""), ".document.colophon-tmp");
}

#[test]
fn only_not_found_means_that_nothing_exists() {
    let md = Metadata::new(FileType::file(), 3, None);
    assert_eq!(try_exists(Ok(md)), Ok(true));
    let gone = StorageError { kind: StorageErrorKind::NotFound, message: "gone".into() };
    assert_eq!(try_exists(Err(gone)), Ok(false));
    let odd = StorageError { kind: StorageErrorKind::Other, message: "denied".into() };
    assert_eq!(try_exists(Err(odd.clone())), Err(odd));
}

#[test]
fn entries_and_metadata_report_what_they_hold() {
    let file = FileType::file();
    let dir = FileType::dir();
    let link = FileType::symlink();
    assert!(file.is_file() && !file.is_dir() && !file.is_symlink());
    assert!(!dir.is_file() && dir.is_dir() && !dir.is_symlink());
    assert!(!link.is_file() && !link.is_dir() && link.is_symlink());

    let entry = DirEntry::new("notes/a.md".to_string(), file);
    assert_eq!(entry.path(), "notes/a.md");
    assert_eq!(entry.file_name(), Some("a.md".to_string()));
    assert_eq!(entry.file_type(), file);

    let now = std::time::SystemTime::UNIX_EPOCH;
    let md = Metadata::new(dir, 0, Some(now));
    assert!(md.is_dir() && !md.is_file() && md.is_empty());
    assert_eq!(md.len(), 0);
    assert_eq!(md.file_type(), dir);
    assert_eq!(md.modified(), Ok(now));
    let err = Metadata::new(file, 5, None).modified().unwrap_err();
    assert_eq!(err.kind, StorageErrorKind::Unsupported);
    assert_eq!(err.message, "modified time unavailable");
    assert!(!Metadata::new(file, 5, None).is_empty());
}
