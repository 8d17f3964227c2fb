use gachix::nar::{encode_nar_bytes, parse_nar_bytes, NarNode};
use gachix::narinfo::NarInfo;
use gachix::paths::NixPath;
use gachix::refnames::{make_narinfo_ref, make_pkg_ref, make_result_ref};
use gachix::StoreError;

const HASH_A: &str = "aaaaaaaaaaaaaaaaaaaaaaaaaaaaaaaa";

fn path_str(hash: &str, name: &str) -> String {
    format!("/nix/store/{hash}-{name}")
}

#[test]
fn parse_store_path_parts() {
    let s = path_str(HASH_A, "hello-2.12.1");
    let p = NixPath::new(&s).unwrap();
    assert_eq!(p.get_path(), s.as_str());
    assert_eq!(p.get_base_32_hash(), HASH_A);
    assert_eq!(p.get_name(), "hello-2.12.1");
}

#[test]
fn parse_store_path_rejects_bad_forms() {
    assert_eq!(NixPath::new("").unwrap_err(), StoreError::InvalidPath);
    assert_eq!(NixPath::new("/nix/store/short-x").unwrap_err(), StoreError::InvalidPath);
    // hash with a letter outside the alphabet (e is excluded)
    let bad = path_str("eaaaaaaaaaaaaaaaaaaaaaaaaaaaaaaa", "x");
    assert_eq!(NixPath::new(&bad).unwrap_err(), StoreError::InvalidPath);
    // missing dash after the hash
    let bad2 = format!("/nix/store/{HASH_A}x");
    assert_eq!(NixPath::new(&bad2).unwrap_err(), StoreError::InvalidPath);
    // missing name
    let bad3 = format!("/nix/store/{HASH_A}-");
    assert_eq!(NixPath::new(&bad3).unwrap_err(), StoreError::InvalidPath);
    // wrong prefix
    let bad4 = format!("/nix/stor2/{HASH_A}-x");
    assert_eq!(NixPath::new(&bad4).unwrap_err(), StoreError::InvalidPath);
}

#[test]
fn reference_names_are_deterministic() {
    assert_eq!(make_pkg_ref(HASH_A), format!("refs/{HASH_A}"));
    assert_eq!(make_result_ref(HASH_A), format!("refs/{HASH_A}/result"));
    assert_eq!(make_narinfo_ref(HASH_A), format!("refs/{HASH_A}/narinfo"));
}

fn sample_narinfo() -> NarInfo {
    let sp = NixPath::new(&path_str(HASH_A, "hello-2.12.1")).unwrap();
    let d1 = NixPath::new(&path_str("bbbbbbbbbbbbbbbbbbbbbbbbbbbbbbbb", "glibc-2.39")).unwrap();
    let d2 = NixPath::new(&path_str("cccccccccccccccccccccccccccccccc", "zlib-1.3")).unwrap();
    NarInfo::new(
        sp,
        String::from("0123456789abcdef0123456789abcdef01234567"),
        String::new(),
        None,
        123456,
        Some(NixPath::new(&path_str("dddddddddddddddddddddddddddddddd", "hello.drv")).unwrap()),
        vec![d1, d2],
    )
}

#[test]
fn narinfo_serializes_canonically() {
    let rec = sample_narinfo();
    let text = rec.to_text();
    let expected = format!(
        "StorePath: {}\nContentKey: 0123456789abcdef0123456789abcdef01234567\nCompression: \nFileHash: \nNarSize: 123456\nDeriver: {}\nReferences: {} {}\n",
        path_str(HASH_A, "hello-2.12.1"),
        path_str("dddddddddddddddddddddddddddddddd", "hello.drv"),
        path_str("bbbbbbbbbbbbbbbbbbbbbbbbbbbbbbbb", "glibc-2.39"),
        path_str("cccccccccccccccccccccccccccccccc", "zlib-1.3"),
    );
    assert_eq!(text, expected);
}

#[test]
fn narinfo_round_trips_through_serialize_and_parse() {
    let rec = sample_narinfo();
    let text = rec.to_text();
    let back = NarInfo::parse(&text).unwrap();
    assert_eq!(back, rec);
}

#[test]
fn narinfo_round_trips_without_optional_fields() {
    let sp = NixPath::new(&path_str(HASH_A, "sl-5.05")).unwrap();
    let rec = NarInfo::new(
        sp,
        String::from("ff00"),
        String::new(),
        None,
        0,
        None,
        vec![],
    );
    let text = rec.to_text();
    assert_eq!(
        text,
        format!(
            "StorePath: {}\nContentKey: ff00\nCompression: \nFileHash: \nNarSize: 0\nDeriver: \nReferences: \n",
            path_str(HASH_A, "sl-5.05")
        )
    );
    let back = NarInfo::parse(&text).unwrap();
    assert_eq!(back, rec);
}

#[test]
fn narinfo_parse_ignores_unknown_keys() {
    let rec = sample_narinfo();
    let mut text = String::from("Sig: cache.example.org:unchecked\n");
    text.push_str(&rec.to_text());
    text.push_str("URL: nar/xyz.nar.xz\n");
    let back = NarInfo::parse(&text).unwrap();
    assert_eq!(back, rec);
}

#[test]
fn narinfo_parse_rejects_missing_required_fields() {
    assert!(NarInfo::parse("ContentKey: ab\nNarSize: 1\n").is_err());
    assert!(NarInfo::parse(&format!("StorePath: {}\nNarSize: 1\n", path_str(HASH_A, "x"))).is_err());
    assert!(NarInfo::parse("no separator line\n").is_err());
    assert!(NarInfo::parse("NarSize: twelve\n").is_err());
}

fn sample_tree() -> NarNode {
    NarNode::Directory {
        entries: vec![
            (
                b"bin".to_vec(),
                NarNode::Directory {
                    entries: vec![(
                        b"hello".to_vec(),
                        NarNode::File { executable: true, contents: b"\x7fELF...".to_vec() },
                    )],
                },
            ),
            (b"empty".to_vec(), NarNode::Directory { entries: vec![] }),
            (
                b"readme".to_vec(),
                NarNode::File { executable: false, contents: b"hello world\n".to_vec() },
            ),
            (b"run".to_vec(), NarNode::Symlink { target: b"bin/hello".to_vec() }),
        ],
    }
}

#[test]
fn archive_bytes_round_trip_through_parse_and_print() {
    let bytes = encode_nar_bytes(&sample_tree());
    let (node, used) = parse_nar_bytes(&bytes).unwrap();
    assert_eq!(used, bytes.len());
    // printing the parsed tree reproduces the stream byte for byte
    assert_eq!(encode_nar_bytes(&node), bytes);
}

#[test]
fn archive_single_file_round_trips() {
    let n = NarNode::File { executable: false, contents: vec![0u8, 1, 2, 255] };
    let bytes = encode_nar_bytes(&n);
    let (node, used) = parse_nar_bytes(&bytes).unwrap();
    assert_eq!(used, bytes.len());
    assert_eq!(encode_nar_bytes(&node), bytes);
}

#[test]
fn archive_known_framing() {
    // an empty, non-executable file: every token is length-prefixed and
    // padded to 8 bytes
    let n = NarNode::File { executable: false, contents: vec![] };
    let bytes = encode_nar_bytes(&n);
    let mut expected: Vec<u8> = Vec::new();
    for tok in ["nix-archive-1", "(", "type", "regular", "contents", "", ")"] {
        let b = tok.as_bytes();
        expected.extend_from_slice(&(b.len() as u64).to_le_bytes());
        expected.extend_from_slice(b);
        let pad = (8 - b.len() % 8) % 8;
        expected.extend_from_slice(&vec![0u8; pad]);
    }
    assert_eq!(bytes, expected);
}

#[test]
fn archive_parse_rejects_malformed_input() {
    assert_eq!(parse_nar_bytes(b"").unwrap_err(), StoreError::MalformedArchive);
    assert_eq!(parse_nar_bytes(b"nix-archive-1").unwrap_err(), StoreError::MalformedArchive);
    let good = encode_nar_bytes(&sample_tree());
    // truncation breaks the framing
    assert!(parse_nar_bytes(&good[..good.len() - 1]).is_err());
    // a non-zero padding byte is not canonical
    let mut bad = good.clone();
    // the magic token "nix-archive-1" is 13 bytes, padded with 3 zeros
    bad[8 + 13] = 1;
    assert_eq!(parse_nar_bytes(&bad).unwrap_err(), StoreError::MalformedArchive);
}

#[test]
fn archive_parse_rejects_unsorted_directories() {
    let unsorted = NarNode::Directory {
        entries: vec![
            (b"b".to_vec(), NarNode::Directory { entries: vec![] }),
            (b"a".to_vec(), NarNode::Directory { entries: vec![] }),
        ],
    };
    let bytes = encode_nar_bytes(&unsorted);
    assert_eq!(parse_nar_bytes(&bytes).unwrap_err(), StoreError::MalformedArchive);
}

#[test]
fn archive_parse_rejects_unknown_node_kind() {
    let mut bytes: Vec<u8> = Vec::new();
    for tok in ["nix-archive-1", "(", "type", "fifo"] {
        let b = tok.as_bytes();
        bytes.extend_from_slice(&(b.len() as u64).to_le_bytes());
        bytes.extend_from_slice(b);
        let pad = (8 - b.len() % 8) % 8;
        bytes.extend_from_slice(&vec![0u8; pad]);
    }
    assert_eq!(parse_nar_bytes(&bytes).unwrap_err(), StoreError::UnsupportedEntry);
}
