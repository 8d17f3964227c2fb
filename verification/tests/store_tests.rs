use gachix::ingest::emit_archive;
use gachix::nar::{encode_nar_bytes, NarNode};
use gachix::narinfo::NarInfo;
use gachix::paths::NixPath;
use gachix::store::{
    Action, ClosureRun, DaemonReply, DaemonSpec, PathInfoRecord, Store, StoreSettings,
};
use gachix::StoreError;

fn hash_of(i: usize) -> String {
    // a distinct 32-character base-32 hash per index
    let digits = ['a', 'b', 'c', 'd', 'f', 'g', 'h', 'i', 'j', 'k'];
    let mut h = String::new();
    let mut n = i;
    for _ in 0..32 {
        h.push(digits[n % 10]);
        n /= 10;
    }
    h
}

fn path_of(i: usize, name: &str) -> String {
    format!("/nix/store/{}-{}", hash_of(i), name)
}

/// A package for the synthetic daemon: its path, archive and references.
struct Pkg {
    path: String,
    nar: Vec<u8>,
    refs: Vec<String>,
}

fn pkg(i: usize, name: &str, refs: Vec<String>) -> Pkg {
    let node = NarNode::Directory {
        entries: vec![(
            b"content".to_vec(),
            NarNode::File {
                executable: false,
                contents: format!("package {i} {name}").into_bytes(),
            },
        )],
    };
    Pkg { path: path_of(i, name), nar: encode_nar_bytes(&node), refs }
}

fn fresh_store(dir: &tempfile::TempDir, remotes: Vec<String>, local: bool) -> Store {
    let path = dir.path().join("gachix").to_str().unwrap().to_string();
    Store::new(StoreSettings {
        path,
        builders: vec![],
        remotes,
        use_local_nix_daemon: local,
    })
    .unwrap()
}

/// Drives a run against a synthetic set of daemon-held packages; every
/// configured daemon serves the same set.
fn drive(store: &mut Store, root: &str, pkgs: &[Pkg], down_daemons: usize) -> Action {
    let root_path = NixPath::new(root).unwrap();
    let (mut run, mut act) = store.add_closure_begin(&root_path);
    let mut steps = 0usize;
    loop {
        match act {
            Action::QueryDaemon { daemon, ref path } => {
                steps += 1;
                assert!(steps < 100000, "resolver did not settle");
                let reply = if daemon < down_daemons {
                    DaemonReply::Unavailable
                } else {
                    match pkgs.iter().find(|p| p.path == path.get_path()) {
                        Some(p) => DaemonReply::Found {
                            nar: p.nar.clone(),
                            info: PathInfoRecord {
                                nar_size: p.nar.len() as u64,
                                references: p.refs.clone(),
                                deriver: None,
                            },
                        },
                        None => DaemonReply::Missing,
                    }
                };
                act = store.add_closure_reply(&mut run, reply);
            }
            other => return other,
        }
    }
}

fn expect_done(act: Action) -> Vec<u8> {
    match act {
        Action::Done { commit } => commit,
        Action::Failed { error } => panic!("closure addition failed: {}", error.describe()),
        Action::QueryDaemon { .. } => unreachable!(),
    }
}

fn list_refs(store: &Store) -> Vec<(String, String)> {
    let repo = git2::Repository::open(&store.settings.path).unwrap();
    let mut out = vec![];
    for r in repo.references().unwrap() {
        let r = r.unwrap();
        out.push((r.name().unwrap().to_string(), r.target().unwrap().to_string()));
    }
    out.sort();
    out
}

#[test]
fn single_package_gets_both_refs_and_a_root_commit() {
    let dir = tempfile::TempDir::new().unwrap();
    let mut store = fresh_store(&dir, vec![], true);
    let pkgs = [pkg(1, "hello", vec![])];
    let commit = expect_done(drive(&mut store, &pkgs[0].path, &pkgs, 0));

    let h = hash_of(1);
    assert!(store.entry_exists(&h).unwrap());
    assert!(store.get_narinfo(&h).unwrap().is_some());
    // a package without references is a root commit
    let repo = git2::Repository::open(&store.settings.path).unwrap();
    let c = repo.find_commit(git2::Oid::from_bytes(&commit).unwrap()).unwrap();
    assert_eq!(c.parent_count(), 0);
    assert_eq!(c.author().name().unwrap(), "gachix");
    assert_eq!(c.time().seconds(), 0);
}

#[test]
fn closure_pulls_dependencies_and_chains_parents() {
    let dir = tempfile::TempDir::new().unwrap();
    let mut store = fresh_store(&dir, vec![], true);
    let pkgs = [
        pkg(1, "app", vec![path_of(2, "libx"), path_of(3, "liby")]),
        pkg(2, "libx", vec![path_of(3, "liby")]),
        pkg(3, "liby", vec![]),
    ];
    let commit = expect_done(drive(&mut store, &pkgs[0].path, &pkgs, 0));

    for i in 1..=3 {
        assert!(store.entry_exists(&hash_of(i)).unwrap(), "entry {i} missing");
    }
    // the root commit's parents are the two dependency commits, in the
    // order the metadata lists them
    let repo = git2::Repository::open(&store.settings.path).unwrap();
    let c = repo.find_commit(git2::Oid::from_bytes(&commit).unwrap()).unwrap();
    assert_eq!(c.parent_count(), 2);
    let p0 = c.parent_id(0).unwrap().as_bytes().to_vec();
    let p1 = c.parent_id(1).unwrap().as_bytes().to_vec();
    assert_eq!(Some(p0), store.get_commit(&hash_of(2)));
    assert_eq!(Some(p1), store.get_commit(&hash_of(3)));
}

#[test]
fn duplicate_references_yield_one_parent() {
    let dir = tempfile::TempDir::new().unwrap();
    let mut store = fresh_store(&dir, vec![], true);
    let dep = path_of(2, "lib");
    let pkgs = [pkg(1, "app", vec![dep.clone(), dep]), pkg(2, "lib", vec![])];
    let commit = expect_done(drive(&mut store, &pkgs[0].path, &pkgs, 0));

    let repo = git2::Repository::open(&store.settings.path).unwrap();
    let c = repo.find_commit(git2::Oid::from_bytes(&commit).unwrap()).unwrap();
    assert_eq!(c.parent_count(), 1);
    // the stored metadata still lists the dependency twice, in order
    let blob = store.get_narinfo(&hash_of(1)).unwrap().unwrap();
    let rec = NarInfo::parse(&String::from_utf8(blob).unwrap()).unwrap();
    assert_eq!(rec.get_dependencies().len(), 2);
}

#[test]
fn adding_twice_changes_nothing() {
    let dir = tempfile::TempDir::new().unwrap();
    let mut store = fresh_store(&dir, vec![], true);
    let pkgs = [pkg(1, "sl", vec![path_of(2, "ncurses")]), pkg(2, "ncurses", vec![])];
    let c1 = expect_done(drive(&mut store, &pkgs[0].path, &pkgs, 0));
    let before = list_refs(&store);
    let n_before = store.num_available_packages().unwrap();

    let c2 = expect_done(drive(&mut store, &pkgs[0].path, &pkgs, 0));
    assert_eq!(c1, c2);
    assert_eq!(list_refs(&store), before);
    assert_eq!(store.num_available_packages().unwrap(), n_before);
    assert_eq!(n_before, 2);
}

#[test]
fn depth_cap_accepts_100_and_rejects_101() {
    for (count, ok) in [(100usize, true), (101usize, false)] {
        let dir = tempfile::TempDir::new().unwrap();
        let mut store = fresh_store(&dir, vec![], true);
        let mut pkgs: Vec<Pkg> = vec![];
        for i in 1..=count {
            let refs = if i < count { vec![path_of(i + 1, "link")] } else { vec![] };
            pkgs.push(pkg(i, "link", refs));
        }
        let act = drive(&mut store, &pkgs[0].path, &pkgs, 0);
        if ok {
            expect_done(act);
            assert!(store.entry_exists(&hash_of(count)).unwrap());
        } else {
            match act {
                Action::Failed { error } => assert_eq!(error, StoreError::DepthExceeded),
                _ => panic!("a chain beyond the bound must be refused"),
            }
        }
    }
}

#[test]
fn unreachable_daemon_is_skipped() {
    let dir = tempfile::TempDir::new().unwrap();
    let path = dir.path().join("gachix").to_str().unwrap().to_string();
    // two daemons: the local one (which the test marks unreachable) and a
    // builder that answers
    let mut store = Store::new(StoreSettings {
        path,
        builders: vec![String::from("builder.example:22")],
        remotes: vec![],
        use_local_nix_daemon: true,
    })
    .unwrap();
    assert_eq!(
        store.available_daemons().unwrap(),
        vec![DaemonSpec::Local, DaemonSpec::Remote(String::from("builder.example:22"))]
    );
    let pkgs = [pkg(1, "hello", vec![])];
    expect_done(drive(&mut store, &pkgs[0].path, &pkgs, 1));
    assert!(store.entry_exists(&hash_of(1)).unwrap());
}

#[test]
fn no_daemon_has_the_path() {
    let dir = tempfile::TempDir::new().unwrap();
    let mut store = fresh_store(&dir, vec![], true);
    let pkgs: [Pkg; 0] = [];
    match drive(&mut store, &path_of(9, "ghost"), &pkgs, 0) {
        Action::Failed { error } => assert_eq!(error, StoreError::Unresolvable),
        _ => panic!("an absent path must be unresolvable"),
    }
}

#[test]
fn entry_exists_needs_both_refs() {
    let dir = tempfile::TempDir::new().unwrap();
    let mut store = fresh_store(&dir, vec![], true);
    let pkgs = [pkg(1, "kitty", vec![])];
    expect_done(drive(&mut store, &pkgs[0].path, &pkgs, 0));
    let h = hash_of(1);
    assert!(store.entry_exists(&h).unwrap());

    assert_eq!(store.num_available_packages().unwrap(), 1);

    // delete the metadata reference; the entry no longer exists and is
    // no longer counted
    let repo = git2::Repository::open(&store.settings.path).unwrap();
    repo.find_reference(&format!("refs/{h}/narinfo")).unwrap().delete().unwrap();
    assert!(!store.entry_exists(&h).unwrap());
    assert!(store.get_commit(&h).is_some());
    assert_eq!(store.num_available_packages().unwrap(), 0);
}

#[test]
fn peer_replication_reproduces_commit_ids() {
    let dir_a = tempfile::TempDir::new().unwrap();
    let mut store_a = fresh_store(&dir_a, vec![], true);
    let pkgs = [pkg(1, "kitty", vec![path_of(2, "fontconfig")]), pkg(2, "fontconfig", vec![])];
    let c_a = expect_done(drive(&mut store_a, &pkgs[0].path, &pkgs, 0));

    // a second instance with no daemons, only the first as a Git peer
    let dir_b = tempfile::TempDir::new().unwrap();
    let mut store_b = fresh_store(&dir_b, vec![store_a.settings.path.clone()], false);
    let none: [Pkg; 0] = [];
    let c_b = expect_done(drive(&mut store_b, &pkgs[0].path, &none, 0));

    assert_eq!(c_a, c_b);
    assert!(store_b.entry_exists(&hash_of(1)).unwrap());
    assert!(store_b.entry_exists(&hash_of(2)).unwrap());
    assert_eq!(list_refs(&store_a), list_refs(&store_b));
}

#[test]
fn stored_metadata_parses_and_names_the_tree() {
    let dir = tempfile::TempDir::new().unwrap();
    let mut store = fresh_store(&dir, vec![], true);
    let pkgs = [pkg(1, "hello", vec![])];
    let commit = expect_done(drive(&mut store, &pkgs[0].path, &pkgs, 0));

    let blob = store.get_narinfo(&hash_of(1)).unwrap().unwrap();
    let rec = NarInfo::parse(&String::from_utf8(blob).unwrap()).unwrap();
    assert_eq!(rec.store_path.get_path(), pkgs[0].path);
    assert_eq!(rec.nar_size, pkgs[0].nar.len() as u64);
    // the content key is the hex id of the commit's root tree
    let repo = git2::Repository::open(&store.settings.path).unwrap();
    let c = repo.find_commit(git2::Oid::from_bytes(&commit).unwrap()).unwrap();
    assert_eq!(rec.content_key, c.tree_id().to_string());
}

#[test]
fn emitted_archive_matches_ingested_bytes() {
    let dir = tempfile::TempDir::new().unwrap();
    let mut store = fresh_store(&dir, vec![], true);
    let pkgs = [pkg(1, "hello", vec![])];
    let commit = expect_done(drive(&mut store, &pkgs[0].path, &pkgs, 0));

    let repo = git2::Repository::open(&store.settings.path).unwrap();
    let c = repo.find_commit(git2::Oid::from_bytes(&commit).unwrap()).unwrap();
    let tree_oid = c.tree_id().as_bytes().to_vec();
    let (_, bytes) = emit_archive(&store.repo, &tree_oid).unwrap();
    assert_eq!(bytes, pkgs[0].nar);
}

#[test]
fn health_check_reports_daemon_failures() {
    let dir = tempfile::TempDir::new().unwrap();
    let store = fresh_store(&dir, vec![], true);
    assert!(store.peer_health_check(&vec![true, true]));
    assert!(!store.peer_health_check(&vec![true, false]));
}

#[test]
fn nar_stream_by_hex_key_reproduces_the_archive() {
    let dir = tempfile::TempDir::new().unwrap();
    let mut store = fresh_store(&dir, vec![], true);
    let pkgs = [pkg(1, "hello", vec![])];
    let commit = expect_done(drive(&mut store, &pkgs[0].path, &pkgs, 0));

    let repo = git2::Repository::open(&store.settings.path).unwrap();
    let c = repo.find_commit(git2::Oid::from_bytes(&commit).unwrap()).unwrap();
    let key = c.tree_id().to_string();
    let (_, bytes) = store.get_as_nar_stream(&key).unwrap().unwrap();
    assert_eq!(bytes, pkgs[0].nar);
    assert_eq!(store.get_as_nar_stream("zz").unwrap_err(), StoreError::InvalidPath);
    // entries are listed under their two reference names
    let names = store.list_entries().unwrap();
    assert!(names.contains(&format!("refs/{}/result", hash_of(1))));
    assert!(names.contains(&format!("refs/{}/narinfo", hash_of(1))));
}
