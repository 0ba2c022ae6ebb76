use std::collections::BTreeMap;

use base64::Engine;

use rrdpit::rrdp::{Error, NotificationRefs, Reference, RepoState, SavePlan, Snapshot};
use rrdpit::session::SessionId;
use rrdpit::sync::{CurrentFile, EncodedHash, HttpsUri, RsyncUri};

const RSYNC_FILE1: &str = "rsync://localhost/repo/file1.txt";
const RSYNC_FILE2: &str = "rsync://localhost/repo/file2.txt";
const RSYNC_FILE3: &str = "rsync://localhost/repo/file3.txt";
const RSYNC_FILE4: &str = "rsync://localhost/repo/file4.txt";
const RSYNC_FILE5: &str = "rsync://localhost/repo/file5.txt";

const SESSION: u128 = 0x1f2e3d4c_5b6a_4798_8a7b_6c5d4e3f2a1b;

fn file(uri: &str, content: &[u8]) -> CurrentFile {
    CurrentFile::new(RsyncUri::from(uri), content)
}

/// The files of the first source tree.
fn source_1() -> Vec<CurrentFile> {
    vec![file(RSYNC_FILE1, b"a"), file(RSYNC_FILE2, &[b'b'; 1000]), file(RSYNC_FILE3, b"c")]
}

/// file1 changed, file2 kept, file3 gone, file4 new.
fn source_2() -> Vec<CurrentFile> {
    vec![file(RSYNC_FILE1, b"A"), file(RSYNC_FILE2, &[b'b'; 1000]), file(RSYNC_FILE4, b"d")]
}

/// As the second, with file5 added.
fn source_3() -> Vec<CurrentFile> {
    vec![
        file(RSYNC_FILE1, b"A"),
        file(RSYNC_FILE2, &[b'b'; 1000]),
        file(RSYNC_FILE4, b"d"),
        file(RSYNC_FILE5, b"e"),
    ]
}

fn snapshot_source_1() -> Snapshot {
    Snapshot::new(SessionId::new(SESSION), 1, source_1())
}

fn snapshot_from_src(session: SessionId, serial: u64, files: Vec<CurrentFile>) -> Snapshot {
    Snapshot::new(session, serial, files)
}

/// A directory tree held in memory, keyed by path.
#[derive(Default)]
struct Disk {
    files: BTreeMap<Vec<u8>, Vec<u8>>,
}

fn dir_prefix(dir: &[u8]) -> Vec<u8> {
    let mut d = dir.to_vec();
    if d.last() != Some(&b'/') {
        d.push(b'/');
    }
    d
}

impl Disk {
    fn children(&self, dir: &[u8]) -> Vec<Vec<u8>> {
        let prefix = dir_prefix(dir);
        let mut names: Vec<Vec<u8>> = Vec::new();
        for path in self.files.keys() {
            if path.starts_with(&prefix) {
                let rest = &path[prefix.len()..];
                let name = rest.split(|b| *b == b'/').next().unwrap().to_vec();
                if !names.contains(&name) {
                    names.push(name);
                }
            }
        }
        names
    }

    fn retain(&mut self, dir: &[u8], keep: impl Fn(&[u8]) -> bool) {
        let prefix = dir_prefix(dir);
        for name in self.children(dir) {
            if !keep(&name) {
                let mut child = prefix.clone();
                child.extend_from_slice(&name);
                let under = dir_prefix(&child);
                self.files.retain(|p, _| *p != child && !p.starts_with(&under));
            }
        }
    }

    fn apply(&mut self, plan: SavePlan) {
        for w in plan.writes {
            self.files.insert(w.path, w.content);
        }
        if let Some(c) = plan.cleanup {
            self.retain(&c.base_dir, |n| c.keeps_in_base(n));
            if c.min_serial.is_some() {
                self.retain(&c.session_dir, |n| c.keeps_in_session(n));
            }
        }
    }

    fn holds(&self, dir: &str) -> bool {
        let prefix = dir_prefix(dir.as_bytes());
        self.files.keys().any(|p| p.starts_with(&prefix))
    }

    fn read(&self, path: &str) -> Option<Vec<u8>> {
        self.files.get(path.as_bytes()).cloned()
    }
}

fn reconstitute(disk: &Disk, base_uri: &str, base_dir: &str) -> Result<RepoState, Error> {
    let base = HttpsUri::from(base_uri);
    let mut notification_path = base_dir.as_bytes().to_vec();
    notification_path.extend_from_slice(b"notification.xml");
    let bytes = match disk.files.get(&notification_path) {
        Some(b) => b.clone(),
        None => return Err(Error::InvalidRepoState),
    };
    let refs = RepoState::read_notification(&base, base_dir, &bytes)?;
    let mut files = vec![disk.files.get(&refs.snapshot.path).cloned()];
    for d in &refs.deltas {
        files.push(disk.files.get(&d.path).cloned());
    }
    RepoState::reconstitute(base, base_dir, &refs, files)
}

fn text(b: &[u8]) -> String {
    String::from_utf8(b.to_vec()).unwrap()
}

fn count(haystack: &[u8], needle: &str) -> usize {
    let n = needle.as_bytes();
    haystack.windows(n.len()).filter(|w| *w == n).count()
}

#[test]
fn save_and_reload_snapshot() {
    let snapshot = snapshot_source_1();

    let xml = snapshot.write_xml();
    let loaded_snapshot = Snapshot::from_xml(&xml).unwrap();

    assert_eq!(snapshot, loaded_snapshot);
}

#[test]
fn diff_snapshot() {
    let snapshot_1 = snapshot_source_1();
    let snapshot_2 = snapshot_from_src(snapshot_1.session(), snapshot_1.serial() + 1, source_2());

    let delta = snapshot_1.to(&snapshot_2).unwrap();

    assert_eq!(2, delta.serial());

    let (_, _, elements) = delta.unwrap();

    let (publishes, updates, withdraws) = elements.unwrap();

    assert_eq!(1, publishes.len());
    assert_eq!(&RsyncUri::from(RSYNC_FILE4), publishes.get(0).unwrap().uri());

    assert_eq!(1, updates.len());
    assert_eq!(&RsyncUri::from(RSYNC_FILE1), updates.get(0).unwrap().uri());

    assert_eq!(1, withdraws.len());
    assert_eq!(&RsyncUri::from(RSYNC_FILE3), withdraws.get(0).unwrap().uri());
}

#[test]
fn save_and_reload_current_state() {
    let mut disk = Disk::default();
    let snapshot_1 = snapshot_source_1();

    let state = RepoState::new(snapshot_1, HttpsUri::from("https://localhost/rrdp/"), "./test-work/");
    let session = text(&state.session().text());
    let target_dir_1 = format!("./test-work/{}/1", session);

    disk.apply(state.clone().save(25, true));

    let mut loaded_state =
        reconstitute(&disk, "https://localhost/rrdp/", "./test-work/").unwrap();

    assert_eq!(state, loaded_state);

    let snapshot_2 =
        snapshot_from_src(loaded_state.session(), loaded_state.serial() + 1, source_2());
    let target_dir_2 = format!("./test-work/{}/2", session);

    loaded_state.apply(snapshot_2).unwrap();
    disk.apply(loaded_state.save(25, true));

    let mut state = reconstitute(&disk, "https://localhost/rrdp/", "./test-work/").unwrap();
    let target_dir_3 = format!("./test-work/{}/3", session);

    let snapshot_3 = snapshot_from_src(state.session(), state.serial() + 1, source_3());
    state.apply(snapshot_3).unwrap();
    disk.apply(state.save(25, true));

    assert!(!disk.holds(&target_dir_1)); // dir 1 should be cleaned up (too much space)
    assert!(disk.holds(&target_dir_3));

    // Applying a zero delta should be a no-op, so the new target dir should not exist
    // Furthermore, delta 2 should be removed if we limit the max_deltas to 1. I.e.
    // we will only have target dir 3 remaining.
    let mut state = reconstitute(&disk, "https://localhost/rrdp/", "./test-work/").unwrap();

    let target_dir_4 = format!("./test-work/{}/4", session);

    let snapshot_4 = snapshot_from_src(state.session(), state.serial() + 1, source_3());
    state.apply(snapshot_4).unwrap();
    disk.apply(state.save(1, true));

    assert!(!disk.holds(&target_dir_2));
    assert!(disk.holds(&target_dir_3));
    assert!(!disk.holds(&target_dir_4));
}

const BASE_URI: &str = "https://localhost/rrdp/";
const BASE_DIR: &str = "./target-dir/";

/// Publishes `files` as the next serial, or as a fresh session where nothing valid is on disk.
fn cycle(disk: &mut Disk, files: Vec<CurrentFile>, fresh: u128, max_deltas: usize) -> RepoState {
    let state = match reconstitute(disk, BASE_URI, BASE_DIR) {
        Ok(mut state) => {
            let snapshot = Snapshot::new(state.session(), state.serial() + 1, files);
            state.apply(snapshot).unwrap();
            state
        }
        Err(_) => {
            let snapshot = Snapshot::new(SessionId::new(fresh), 1, files);
            RepoState::new(snapshot, HttpsUri::from(BASE_URI), BASE_DIR)
        }
    };
    disk.apply(state.clone().save(max_deltas, true));
    state
}

fn notification(disk: &Disk) -> Vec<u8> {
    disk.read(&format!("{}notification.xml", BASE_DIR)).unwrap()
}

#[test]
fn fresh_publish_at_serial_one() {
    let mut disk = Disk::default();
    let state = cycle(&mut disk, source_1(), SESSION, 25);
    assert_eq!(1, state.serial());
    let session = text(&state.session().text());
    let n = notification(&disk);
    assert!(count(&n, "serial=\"1\"") == 1);
    assert!(count(&n, &format!("session_id=\"{}\"", session)) == 1);
    assert_eq!(1, count(&n, "<snapshot uri="));
    assert_eq!(0, count(&n, "<delta "));
    let snap = disk.read(&format!("{}{}/1/snapshot.xml", BASE_DIR, session)).unwrap();
    assert_eq!(3, count(&snap, "<publish "));
    for uri in [RSYNC_FILE1, RSYNC_FILE2, RSYNC_FILE3] {
        assert_eq!(1, count(&snap, &format!("uri=\"{}\"", uri)));
    }
}

#[test]
fn advance_to_serial_two() {
    let mut disk = Disk::default();
    let first = cycle(&mut disk, source_1(), SESSION, 25);
    let second = cycle(&mut disk, source_2(), 7, 25);
    assert_eq!(2, second.serial());
    assert_eq!(first.session(), second.session());
    let n = notification(&disk);
    assert!(count(&n, "serial=\"2\"") == 2);
    assert_eq!(1, count(&n, "<delta "));
    let session = text(&second.session().text());
    let delta = disk.read(&format!("{}{}/2/delta.xml", BASE_DIR, session)).unwrap();
    let hash_a = "ca978112ca1bbdcafac231b39a23dc4da786eff8147c4e72b9807785afee48bb";
    assert_eq!(2, count(&delta, "<publish "));
    assert_eq!(1, count(&delta, &format!("<publish uri=\"{}\">", RSYNC_FILE4)));
    assert_eq!(1, count(&delta, &format!("<publish uri=\"{}\" hash=\"{}\">", RSYNC_FILE1, hash_a)));
    assert_eq!(1, count(&delta, "<withdraw "));
    assert_eq!(1, count(&delta, &format!("<withdraw uri=\"{}\" hash=", RSYNC_FILE3)));
}

#[test]
fn no_op_cycle_keeps_serial_and_deltas() {
    let mut disk = Disk::default();
    cycle(&mut disk, source_1(), SESSION, 25);
    cycle(&mut disk, source_2(), 7, 25);
    let before = notification(&disk);
    let saved = reconstitute(&disk, BASE_URI, BASE_DIR).unwrap();
    assert_eq!(1, saved.deltas().len());
    let third = cycle(&mut disk, source_2(), 7, 25);
    assert_eq!(2, third.serial());
    assert_eq!(saved.deltas(), third.deltas());
    assert_eq!(before, notification(&disk));
}

#[test]
fn apply_of_unchanged_snapshot_changes_nothing() {
    let state = RepoState::new(snapshot_source_1(), HttpsUri::from(BASE_URI), BASE_DIR);
    let mut applied = state.clone();
    applied.apply(Snapshot::new(SessionId::new(SESSION), 2, source_1())).unwrap();
    assert_eq!(state, applied);
}

/// A large file that never changes, so that the deltas stay small next to the snapshot.
fn filler() -> CurrentFile {
    file("rsync://localhost/repo/filler.bin", &vec![7u8; 50_000])
}

#[test]
fn prunes_deltas_by_count() {
    let mut disk = Disk::default();
    let mut state = cycle(&mut disk, vec![filler()], SESSION, 5);
    let mut files = vec![filler()];
    for i in 0..24 {
        files.push(file(&format!("rsync://localhost/repo/f{}.txt", i), b"x"));
        state = cycle(&mut disk, files.clone(), 7, 5);
    }
    let n = state.serial();
    assert_eq!(25, n);
    let deltas = reconstitute(&disk, BASE_URI, BASE_DIR).unwrap();
    let serials: Vec<u64> = deltas.deltas().iter().map(|d| d.serial()).collect();
    assert_eq!(vec![n, n - 1, n - 2, n - 3, n - 4], serials);
    let session = text(&state.session().text());
    assert!(!disk.holds(&format!("{}{}/{}", BASE_DIR, session, n - 5)));
    assert!(disk.holds(&format!("{}{}/{}", BASE_DIR, session, n - 4)));
}

#[test]
fn prunes_deltas_by_size() {
    let files = |round: u8| {
        vec![
            file("rsync://localhost/repo/a.txt", &vec![round; 150]),
            file("rsync://localhost/repo/b.txt", &vec![100u8; 150]),
            file("rsync://localhost/repo/c.txt", &vec![200u8; 150]),
        ]
    };
    let mut disk = Disk::default();
    let first = Snapshot::new(SessionId::new(SESSION), 1, files(0));
    disk.apply(RepoState::new(first, HttpsUri::from(BASE_URI), BASE_DIR).save(25, false));
    for round in 1..5u8 {
        let mut state = reconstitute(&disk, BASE_URI, BASE_DIR).unwrap();
        let next = Snapshot::new(state.session(), state.serial() + 1, files(round));
        state.apply(next).unwrap();
        disk.apply(state.save(25, false));
    }
    let loaded = reconstitute(&disk, BASE_URI, BASE_DIR).unwrap();
    assert_eq!(5, loaded.serial());
    let session = text(&loaded.session().text());
    let snapshot_size = disk
        .read(&format!("{}{}/5/snapshot.xml", BASE_DIR, session))
        .unwrap()
        .len();
    let sizes: Vec<usize> = loaded.deltas().iter().map(|d| d.size()).collect();
    let kept: usize = sizes.iter().sum();
    assert!(sizes.len() < 4);
    assert!(kept < snapshot_size);
    let dropped = disk
        .read(&format!("{}{}/{}/delta.xml", BASE_DIR, session, 5 - sizes.len()))
        .unwrap()
        .len();
    assert!(kept + dropped >= snapshot_size);
}

#[test]
fn session_reset_on_tamper() {
    let mut disk = Disk::default();
    let first = cycle(&mut disk, source_1(), SESSION, 25);
    let old_session = text(&first.session().text());
    let path = format!("{}{}/1/snapshot.xml", BASE_DIR, old_session).into_bytes();
    disk.files.get_mut(&path).unwrap()[60] ^= 1;
    assert!(matches!(
        reconstitute(&disk, BASE_URI, BASE_DIR),
        Err(Error::InvalidRepoState)
    ));
    let second = cycle(&mut disk, source_2(), 0x99, 25);
    assert_eq!(1, second.serial());
    assert_eq!(0x99, second.session().as_u128());
    assert!(!disk.holds(&format!("{}{}", BASE_DIR, old_session)));
    assert!(disk.read(&format!("{}notification.xml", BASE_DIR)).is_some());
}

#[test]
fn tampered_delta_is_rejected() {
    let mut disk = Disk::default();
    cycle(&mut disk, source_1(), SESSION, 25);
    let second = cycle(&mut disk, source_2(), 7, 25);
    let session = text(&second.session().text());
    let path = format!("{}{}/2/delta.xml", BASE_DIR, session).into_bytes();
    let last = disk.files.get(&path).unwrap().len() - 3;
    disk.files.get_mut(&path).unwrap()[last] ^= 0x20;
    assert!(matches!(
        reconstitute(&disk, BASE_URI, BASE_DIR),
        Err(Error::InvalidRepoState)
    ));
}

#[test]
fn missing_delta_is_rejected() {
    let mut disk = Disk::default();
    cycle(&mut disk, source_1(), SESSION, 25);
    let second = cycle(&mut disk, source_2(), 7, 25);
    let session = text(&second.session().text());
    disk.files.remove(format!("{}{}/2/delta.xml", BASE_DIR, session).as_bytes());
    assert!(reconstitute(&disk, BASE_URI, BASE_DIR).is_err());
}

#[test]
fn saved_refs_match_written_bytes() {
    let state = RepoState::new(snapshot_source_1(), HttpsUri::from(BASE_URI), BASE_DIR);
    let mut state = state;
    state.apply(Snapshot::new(SessionId::new(SESSION), 2, source_2())).unwrap();
    let plan = state.save(25, false);
    assert_eq!(3, plan.writes.len());
    assert!(plan.cleanup.is_none());
    let session = "1f2e3d4c-5b6a-4798-8a7b-6c5d4e3f2a1b";
    assert_eq!(format!("{}{}/2/snapshot.xml", BASE_DIR, session).into_bytes(), plan.writes[0].path);
    assert_eq!(format!("{}{}/2/delta.xml", BASE_DIR, session).into_bytes(), plan.writes[1].path);
    assert_eq!(format!("{}notification.xml", BASE_DIR).into_bytes(), plan.writes[2].path);
    let n = &plan.writes[2].content;
    let snap_hash = EncodedHash::from_content(&plan.writes[0].content);
    let delta_hash = EncodedHash::from_content(&plan.writes[1].content);
    assert_eq!(1, count(n, &text(snap_hash.as_bytes())));
    assert_eq!(1, count(n, &text(delta_hash.as_bytes())));
    assert_eq!(
        1,
        count(n, &format!("uri=\"{}{}/2/delta.xml\"", BASE_URI, session))
    );
}

#[test]
fn apply_rejects_wrong_serial_session_or_pending_delta() {
    let mut state = RepoState::new(snapshot_source_1(), HttpsUri::from(BASE_URI), BASE_DIR);
    assert!(matches!(
        state.apply(Snapshot::new(SessionId::new(SESSION), 3, source_2())),
        Err(Error::InvalidDelta)
    ));
    assert!(matches!(
        state.apply(Snapshot::new(SessionId::new(SESSION + 1), 2, source_2())),
        Err(Error::InvalidDelta)
    ));
    state.apply(Snapshot::new(SessionId::new(SESSION), 2, source_2())).unwrap();
    assert_eq!(2, state.serial());
    assert!(matches!(
        state.apply(Snapshot::new(SessionId::new(SESSION), 3, source_3())),
        Err(Error::InvalidDelta)
    ));
}

#[test]
fn diff_rejects_non_consecutive_snapshots() {
    let s1 = snapshot_source_1();
    let s3 = Snapshot::new(SessionId::new(SESSION), 3, source_2());
    assert!(matches!(s1.to(&s3), Err(Error::InvalidDelta)));
    let other = Snapshot::new(SessionId::new(5), 2, source_2());
    assert!(matches!(s1.to(&other), Err(Error::InvalidDelta)));
}

#[test]
fn diff_of_equal_snapshots_is_empty() {
    let s1 = snapshot_source_1();
    let s2 = Snapshot::new(SessionId::new(SESSION), 2, source_1());
    let delta = s1.to(&s2).unwrap();
    assert!(delta.is_empty());
    assert_eq!(0, delta.len());
}

#[test]
fn diff_applied_gives_new_index() {
    let s1 = snapshot_source_1();
    let s2 = Snapshot::new(SessionId::new(SESSION), 2, source_3());
    let delta = s1.to(&s2).unwrap();
    let mut index: BTreeMap<Vec<u8>, Vec<u8>> = s1
        .current_objects()
        .iter()
        .map(|f| (f.uri().as_bytes().to_vec(), f.hash().as_bytes().to_vec()))
        .collect();
    for w in delta.elements().withdraws() {
        assert_eq!(index.remove(w.uri().as_bytes()).unwrap(), w.hash().as_bytes());
    }
    for u in delta.elements().updates() {
        assert_eq!(index.get(u.uri().as_bytes()).unwrap().as_slice(), u.hash().as_bytes());
        let content = base64_decode(u.base64().as_bytes());
        index.insert(u.uri().as_bytes().to_vec(), EncodedHash::from_content(&content).as_bytes().to_vec());
    }
    for p in delta.elements().publishes() {
        assert!(!index.contains_key(p.uri().as_bytes()));
        let content = base64_decode(p.base64().as_bytes());
        index.insert(p.uri().as_bytes().to_vec(), EncodedHash::from_content(&content).as_bytes().to_vec());
    }
    let expected: BTreeMap<Vec<u8>, Vec<u8>> = s2
        .current_objects()
        .iter()
        .map(|f| (f.uri().as_bytes().to_vec(), f.hash().as_bytes().to_vec()))
        .collect();
    assert_eq!(expected, index);
}

fn base64_decode(b: &[u8]) -> Vec<u8> {
    base64::engine::general_purpose::STANDARD.decode(b).unwrap()
}

#[test]
fn snapshot_with_markup_in_uri_round_trips() {
    let files = vec![
        file("rsync://localhost/repo/a&b<c>\"d'e.txt", b"<&>"),
        file(RSYNC_FILE2, b""),
    ];
    let s = Snapshot::new(SessionId::new(u128::MAX), u64::MAX, files);
    let xml = s.write_xml();
    assert_eq!(1, count(&xml, "a&amp;b&lt;c&gt;&quot;d&apos;e.txt"));
    assert_eq!(s, Snapshot::from_xml(&xml).unwrap());
}

#[test]
fn snapshot_reader_rejects_other_documents() {
    assert!(matches!(Snapshot::from_xml(b"<snapshot/>"), Err(Error::InvalidXml(_))));
    let d = Snapshot::new(SessionId::new(SESSION), 1, source_1());
    let mut xml = d.write_xml();
    let pos = xml.windows(12).position(|w| w == b"version=\"1\" ").unwrap();
    xml[pos + 9] = b'2';
    assert!(matches!(Snapshot::from_xml(&xml), Err(Error::InvalidXml(_))));
}

#[test]
fn notification_outside_base_is_rejected() {
    let mut disk = Disk::default();
    cycle(&mut disk, source_1(), SESSION, 25);
    let bytes = notification(&disk);
    let other = HttpsUri::from("https://elsewhere/");
    assert!(matches!(
        RepoState::read_notification(&other, BASE_DIR, &bytes),
        Err(Error::InvalidRepoState)
    ));
}

#[test]
fn empty_snapshot_round_trips() {
    let s = Snapshot::new(SessionId::new(SESSION), 1, Vec::new());
    let xml = s.write_xml();
    assert_eq!(0, count(&xml, "<publish"));
    let loaded = Snapshot::from_xml(&xml).unwrap();
    assert!(loaded.is_empty());
    assert_eq!(s, loaded);
}

#[test]
fn zero_max_deltas_lists_none() {
    let mut state = RepoState::new(snapshot_source_1(), HttpsUri::from(BASE_URI), BASE_DIR);
    state.apply(Snapshot::new(SessionId::new(SESSION), 2, source_2())).unwrap();
    let plan = state.save(0, true);
    assert_eq!(0, count(&plan.writes[2].content, "<delta "));
    assert_eq!(None, plan.cleanup.unwrap().min_serial);
}

#[test]
fn later_file_counts_for_a_repeated_uri() {
    let old = Snapshot::new(
        SessionId::new(SESSION),
        1,
        vec![file(RSYNC_FILE1, b"a"), file(RSYNC_FILE2, b"x"), file(RSYNC_FILE1, b"b")],
    );
    let same = Snapshot::new(SessionId::new(SESSION), 2, vec![file(RSYNC_FILE2, b"x"), file(RSYNC_FILE1, b"b")]);
    assert!(old.to(&same).unwrap().is_empty());
    let changed = Snapshot::new(
        SessionId::new(SESSION),
        2,
        vec![file(RSYNC_FILE1, b"b"), file(RSYNC_FILE1, b"c")],
    );
    let delta = old.to(&changed).unwrap();
    let (publishes, updates, withdraws) = delta.elements().clone().unwrap();
    assert_eq!(0, publishes.len());
    assert_eq!(1, updates.len());
    assert_eq!(
        EncodedHash::from_content(b"b").as_bytes(),
        updates[0].hash().as_bytes()
    );
    assert_eq!(b"Yw==", updates[0].base64().as_bytes());
    assert_eq!(1, withdraws.len());
    assert_eq!(&RsyncUri::from(RSYNC_FILE2), withdraws[0].uri());
}

#[test]
fn foreign_child_tag_is_named() {
    let s = Snapshot::new(SessionId::new(SESSION), 1, vec![file(RSYNC_FILE1, b"")]);
    let xml = String::from_utf8(s.write_xml()).unwrap().replace("<publish ", "<publiss ");
    match Snapshot::from_xml(xml.as_bytes()) {
        Err(Error::InvalidXml(m)) => assert_eq!("Unexpected tag: publiss", m),
        _ => panic!("foreign tag accepted"),
    }
}

#[test]
fn snapshot_reader_rejects_bad_attributes() {
    let s = Snapshot::new(SessionId::new(SESSION), 1, source_1());
    let xml = String::from_utf8(s.write_xml()).unwrap();
    for (from, to) in [
        (" serial=\"1\"", " serial=\"x\""),
        (" serial=\"1\"", " serial=\"1\" extra=\"y\""),
        (" serial=\"1\"", ""),
        ("session_id=\"1f2e", "session_id=\"zz2e"),
        (">YQ==<", ">Y!==<"),
        ("<publish uri=", "<publish hash=\"h\" uri="),
    ] {
        let bad = xml.replacen(from, to, 1);
        assert!(bad != xml);
        assert!(matches!(Snapshot::from_xml(bad.as_bytes()), Err(Error::InvalidXml(_))), "{}", to);
    }
}

#[test]
fn notification_of_other_version_is_rejected() {
    let mut disk = Disk::default();
    cycle(&mut disk, source_1(), SESSION, 25);
    let bytes = String::from_utf8(notification(&disk)).unwrap();
    let base = HttpsUri::from(BASE_URI);
    assert!(RepoState::read_notification(&base, BASE_DIR, bytes.as_bytes()).is_ok());
    for (from, to) in [
        ("version=\"1\" ", "version=\"2\" "),
        ("<notification ", "<notifications "),
        ("<snapshot uri=", "<snapshot serial=\"1\" uri="),
    ] {
        let bad = bytes.replacen(from, to, 1);
        assert!(bad != bytes);
        assert!(matches!(
            RepoState::read_notification(&base, BASE_DIR, bad.as_bytes()),
            Err(Error::InvalidRepoState)
        ));
    }
}

#[test]
fn snapshot_file_that_does_not_parse_is_rejected() {
    let garbage = b"not a snapshot".to_vec();
    let refs = NotificationRefs {
        session: SessionId::new(SESSION),
        serial: 1,
        snapshot: Reference {
            serial: 0,
            uri: format!("{}x/1/snapshot.xml", BASE_URI).into_bytes(),
            hash: EncodedHash::from_content(&garbage).as_bytes().to_vec(),
            path: format!("{}x/1/snapshot.xml", BASE_DIR).into_bytes(),
        },
        deltas: Vec::new(),
    };
    let r = RepoState::reconstitute(HttpsUri::from(BASE_URI), BASE_DIR, &refs, vec![Some(garbage)]);
    assert!(matches!(r, Err(Error::InvalidRepoState)));
}

#[test]
fn diff_lists_follow_object_order() {
    let old = Snapshot::new(
        SessionId::new(SESSION),
        1,
        vec![file(RSYNC_FILE3, b"3"), file(RSYNC_FILE1, b"1"), file(RSYNC_FILE2, b"2"), file(RSYNC_FILE4, b"4")],
    );
    let new = Snapshot::new(
        SessionId::new(SESSION),
        2,
        vec![file(RSYNC_FILE5, b"5"), file(RSYNC_FILE3, b"x"), file("rsync://localhost/repo/a.txt", b"a"), file(RSYNC_FILE1, b"y")],
    );
    let d1 = old.to(&new).unwrap();
    let d2 = old.to(&new).unwrap();
    assert_eq!(d1, d2);
    let uris = |v: Vec<&RsyncUri>| v.into_iter().map(|u| text(u.as_bytes())).collect::<Vec<_>>();
    let e = d1.elements();
    assert_eq!(vec![RSYNC_FILE5.to_string(), "rsync://localhost/repo/a.txt".to_string()], uris(e.publishes().iter().map(|p| p.uri()).collect()));
    assert_eq!(vec![RSYNC_FILE3.to_string(), RSYNC_FILE1.to_string()], uris(e.updates().iter().map(|u| u.uri()).collect()));
    assert_eq!(vec![RSYNC_FILE2.to_string(), RSYNC_FILE4.to_string()], uris(e.withdraws().iter().map(|w| w.uri()).collect()));
}
