use vstd::prelude::*;

use crate::errors::StoreError;
use crate::gitrepo::{
    git_blob_oid, git_tree_oid, is_oid, objects_grow, repo_refs, GitRepo, TreeEntry,
    tree_entries_view,
};
use crate::nar::{
    bytes_lt, encode_nar, encode_node, parse_nar_bytes, valid_name, valid_node, NarNode,
};

verus! {

// The bridge between the archive codec and the Git object model: a file
// becomes a blob whose mode carries the executable bit, a symlink a blob
// with the link mode, a directory a tree with the entries in canonical
// order. Ingesting consumes archive bytes and yields the root id; emitting
// walks the objects back into archive bytes.

pub const MODE_FILE: u32 = 0o100644;

pub const MODE_EXEC: u32 = 0o100755;

pub const MODE_SYMLINK: u32 = 0o120000;

pub const MODE_DIR: u32 = 0o40000;

/// The git file mode that encodes a node's kind.
pub open spec fn node_mode(n: NarNode) -> u32 {
    match n {
        NarNode::File { executable, .. } => if executable {
            MODE_EXEC
        } else {
            MODE_FILE
        },
        NarNode::Symlink { .. } => MODE_SYMLINK,
        NarNode::Directory { .. } => MODE_DIR,
    }
}

/// The git object id a node maps to.
pub open spec fn git_node_oid(n: NarNode) -> Seq<u8>
    decreases n,
{
    match n {
        NarNode::File { contents, .. } => git_blob_oid(contents@),
        NarNode::Symlink { target } => git_blob_oid(target@),
        NarNode::Directory { entries } => git_tree_oid(node_entries_view(entries@)),
    }
}

/// The tree entries a directory's children map to.
pub open spec fn node_entries_view(es: Seq<(Vec<u8>, NarNode)>) -> Seq<(Seq<u8>, u32, Seq<u8>)>
    decreases es,
{
    if es.len() == 0 {
        Seq::<(Seq<u8>, u32, Seq<u8>)>::empty()
    } else {
        seq![(es[0].0@, node_mode(es[0].1), git_node_oid(es[0].1))] + node_entries_view(
            es.skip(1),
        )
    }
}

/// Mapping children to tree entries, one more child at a time.
proof fn lemma_node_entries_push(es: Seq<(Vec<u8>, NarNode)>, e: (Vec<u8>, NarNode))
    ensures
        node_entries_view(es.push(e)) == node_entries_view(es) + seq![
            (e.0@, node_mode(e.1), git_node_oid(e.1)),
        ],
    decreases es,
{
    if es.len() == 0 {
        assert(es.push(e)[0] == e);
        assert(es.push(e).skip(1) =~= Seq::<(Vec<u8>, NarNode)>::empty());
        assert(node_entries_view(Seq::<(Vec<u8>, NarNode)>::empty()) =~= Seq::<
            (Seq<u8>, u32, Seq<u8>),
        >::empty());
        assert(node_entries_view(es) =~= Seq::<(Seq<u8>, u32, Seq<u8>)>::empty());
        assert(node_entries_view(es.push(e)) == seq![(e.0@, node_mode(e.1), git_node_oid(e.1))]
            + node_entries_view(Seq::<(Vec<u8>, NarNode)>::empty()));
        assert(node_entries_view(es.push(e)) =~= node_entries_view(es) + seq![
            (e.0@, node_mode(e.1), git_node_oid(e.1)),
        ]);
    } else {
        assert(es.push(e).skip(1) =~= es.skip(1).push(e));
        lemma_node_entries_push(es.skip(1), e);
        assert(es.push(e)[0] == es[0]);
        assert(node_entries_view(es.push(e)) =~= node_entries_view(es) + seq![
            (e.0@, node_mode(e.1), git_node_oid(e.1)),
        ]);
    }
}

/// Writes a node into the object database; the returned id is determined
/// by the node alone, so every peer stores it under the same id.
pub fn write_node(repo: &mut GitRepo, n: &NarNode) -> (r: Result<(Vec<u8>, u32), StoreError>)
    requires
        valid_node(*n),
    ensures
        match r {
            Ok(d) => {
                &&& d.0@ == git_node_oid(*n)
                &&& d.1 == node_mode(*n)
                &&& is_oid(d.0@)
                &&& repo_refs(final(repo).repo) == repo_refs(old(repo).repo)
                &&& objects_grow(old(repo).repo, final(repo).repo)
            },
            Err(e) => e == StoreError::StorageFault && repo_refs(final(repo).repo) == repo_refs(
                old(repo).repo,
            ) && objects_grow(old(repo).repo, final(repo).repo),
        },
    decreases *n,
{
    match n {
        NarNode::File { executable, contents } => {
            let oid = repo.blob(contents.as_slice())?;
            let mode = if *executable {
                MODE_EXEC
            } else {
                MODE_FILE
            };
            Ok((oid, mode))
        },
        NarNode::Symlink { target } => {
            let oid = repo.blob(target.as_slice())?;
            Ok((oid, MODE_SYMLINK))
        },
        NarNode::Directory { entries } => {
            proof {
                assert(decreases_to!(*n => n->Directory_entries));
            }
            let tes = write_entries(repo, entries)?;
            let oid = repo.tree(&tes)?;
            proof {
                assert(git_node_oid(*n) == git_tree_oid(node_entries_view(entries@)));
            }
            Ok((oid, MODE_DIR))
        },
    }
}

/// Writes a directory's children and gathers their tree entries.
fn write_entries(repo: &mut GitRepo, entries: &Vec<(Vec<u8>, NarNode)>) -> (r: Result<
    Vec<TreeEntry>,
    StoreError,
>)
    requires
        forall|i: int| 0 <= i < entries@.len() ==> valid_name((#[trigger] entries@[i]).0@),
        forall|i: int| 0 <= i < entries@.len() ==> valid_node((#[trigger] entries@[i]).1),
        forall|i: int|
            0 <= i && i + 1 < entries@.len() ==> bytes_lt(
                (#[trigger] entries@[i]).0@,
                entries@[i + 1].0@,
            ),
    ensures
        match r {
            Ok(tes) => {
                &&& tree_entries_view(tes@) == node_entries_view(entries@)
                &&& (forall|i: int|
                    0 <= i < tes@.len() ==> (#[trigger] tes@[i]).name@ == entries@[i].0@)
                &&& tes@.len() == entries@.len()
                &&& repo_refs(final(repo).repo) == repo_refs(old(repo).repo)
                &&& objects_grow(old(repo).repo, final(repo).repo)
            },
            Err(e) => e == StoreError::StorageFault && repo_refs(final(repo).repo) == repo_refs(
                old(repo).repo,
            ) && objects_grow(old(repo).repo, final(repo).repo),
        },
    decreases *entries,
{
    let mut tes: Vec<TreeEntry> = Vec::new();
    let mut i: usize = 0;
    proof {
        assert(entries@.take(0) =~= Seq::<(Vec<u8>, NarNode)>::empty());
        assert(tree_entries_view(tes@) =~= node_entries_view(entries@.take(0)));
    }
    #[verifier::loop_isolation(false)]
    while i < entries.len()
        invariant
            i <= entries@.len(),
            tes@.len() == i,
            tree_entries_view(tes@) == node_entries_view(entries@.take(i as int)),
            forall|j: int| 0 <= j < i ==> (#[trigger] tes@[j]).name@ == entries@[j].0@,
            repo_refs(repo.repo) == repo_refs(old(repo).repo),
            objects_grow(old(repo).repo, repo.repo),
        decreases entries@.len() - i,
    {
        proof {
            assert(decreases_to!(*entries => entries@));
            assert(decreases_to!(entries@ => entries@[i as int]));
            assert(decreases_to!(entries@[i as int] => entries@[i as int].1));
            assert(decreases_to!(*entries => entries@[i as int].1));
        }
        let (oid, mode) = write_node(repo, &entries[i].1)?;
        let te = TreeEntry { name: entries[i].0.clone(), mode, oid };
        tes.push(te);
        proof {
            lemma_node_entries_push(entries@.take(i as int), entries@[i as int]);
            assert(entries@.take(i + 1) =~= entries@.take(i as int).push(entries@[i as int]));
            assert(tree_entries_view(tes@) =~= node_entries_view(entries@.take(i + 1)));
        }
        i = i + 1;
    }
    proof {
        assert(entries@.take(entries@.len() as int) =~= entries@);
    }
    Ok(tes)
}

/// Ingests one archive: reads the canonical byte stream, stores the tree
/// it describes, and returns the parsed root node, its id, and the count
/// of bytes consumed. The consumed bytes are exactly the canonical print
/// of the returned node, and the id is determined by the node.
pub fn ingest_archive(repo: &mut GitRepo, nar: &Vec<u8>) -> (r: Result<
    (NarNode, Vec<u8>, usize),
    StoreError,
>)
    ensures
        match r {
            Ok(d) => {
                &&& valid_node(d.0)
                &&& d.2 == nar@.len()
                &&& encode_nar(d.0) == nar@
                &&& d.1@ == git_node_oid(d.0)
                &&& is_oid(d.1@)
                &&& repo_refs(final(repo).repo) == repo_refs(old(repo).repo)
                &&& objects_grow(old(repo).repo, final(repo).repo)
            },
            Err(e) => (e == StoreError::MalformedArchive || e == StoreError::UnsupportedEntry
                || e == StoreError::StorageFault) && repo_refs(final(repo).repo) == repo_refs(
                old(repo).repo,
            ) && objects_grow(old(repo).repo, final(repo).repo),
        },
{
    let (node, used) = parse_nar_bytes(nar.as_slice())?;
    if used != nar.len() {
        return Err(StoreError::MalformedArchive);
    }
    proof {
        assert(nar@.subrange(0, used as int) =~= nar@);
    }
    let (oid, _mode) = write_node(repo, &node)?;
    Ok((node, oid, used))
}

/// Reads a node back from the object database, given its id and mode.
/// The returned node maps to exactly the id it was read from; a mode
/// outside the four node kinds is always refused.
#[verifier::rlimit(100)]
pub fn emit_node(repo: &GitRepo, oid: &Vec<u8>, mode: u32, fuel: usize) -> (r: Result<
    NarNode,
    StoreError,
>)
    ensures
        !(mode == MODE_FILE || mode == MODE_EXEC || mode == MODE_SYMLINK || mode == MODE_DIR)
            ==> r is Err,
        match r {
            Ok(node) => {
                &&& valid_node(node)
                &&& git_node_oid(node) == oid@
                &&& node_mode(node) == mode
            },
            Err(e) => e == StoreError::StorageFault || e == StoreError::DepthExceeded || e
                == StoreError::UnsupportedEntry,
        },
    decreases fuel,
{
    if mode == MODE_FILE || mode == MODE_EXEC {
        let contents = repo.get_blob(oid)?;
        Ok(NarNode::File { executable: mode == MODE_EXEC, contents })
    } else if mode == MODE_SYMLINK {
        let target = repo.get_blob(oid)?;
        Ok(NarNode::Symlink { target })
    } else if mode == MODE_DIR {
        if fuel == 0 {
            return Err(StoreError::DepthExceeded);
        }
        let tes = repo.read_tree(oid)?;
        let mut entries: Vec<(Vec<u8>, NarNode)> = Vec::new();
        let mut i: usize = 0;
        proof {
            assert(tes@.take(0) =~= Seq::<TreeEntry>::empty());
            assert(node_entries_view(entries@) =~= tree_entries_view(tes@.take(0)));
        }
        #[verifier::loop_isolation(false)]
        while i < tes.len()
            invariant
                i <= tes@.len(),
                entries@.len() == i,
                node_entries_view(entries@) == tree_entries_view(tes@.take(i as int)),
                forall|j: int|
                    0 <= j < entries@.len() ==> valid_name((#[trigger] entries@[j]).0@),
                forall|j: int|
                    0 <= j < entries@.len() ==> valid_node((#[trigger] entries@[j]).1),
                forall|j: int|
                    0 <= j && j + 1 < entries@.len() ==> bytes_lt(
                        (#[trigger] entries@[j]).0@,
                        entries@[j + 1].0@,
                    ),
                forall|j: int|
                    0 <= j < entries@.len() ==> (#[trigger] entries@[j]).0@ == tes@[j].name@,
            decreases tes@.len() - i,
        {
            if !crate::nar::check_name(&tes[i].name) {
                return Err(StoreError::UnsupportedEntry);
            }
            if entries.len() > 0 {
                if !crate::nar::lt_bytes(&entries[entries.len() - 1].0, &tes[i].name) {
                    return Err(StoreError::UnsupportedEntry);
                }
            }
            let child = emit_node(repo, &tes[i].oid, tes[i].mode, fuel - 1)?;
            let ghost old_entries = entries@;
            entries.push((tes[i].name.clone(), child));
            proof {
                let en = entries@[old_entries.len() as int];
                assert(entries@ =~= old_entries.push(en));
                lemma_node_entries_push(old_entries, en);
                assert(tes@.take(i + 1) =~= tes@.take(i as int).push(tes@[i as int]));
                crate::gitrepo::lemma_tree_entries_push(tes@.take(i as int), tes@[i as int]);
                assert(node_entries_view(entries@) =~= tree_entries_view(tes@.take(i + 1)));
                assert forall|j: int| 0 <= j && j + 1 < entries@.len() implies bytes_lt(
                    (#[trigger] entries@[j]).0@,
                    entries@[j + 1].0@,
                ) by {
                    if j + 1 < old_entries.len() {
                        assert(entries@[j] == old_entries[j]);
                        assert(entries@[j + 1] == old_entries[j + 1]);
                    } else {
                        assert(entries@[j + 1] == en);
                        assert(entries@[j] == old_entries[old_entries.len() - 1]);
                    }
                }
            }
            i = i + 1;
        }
        let node = NarNode::Directory { entries };
        proof {
            assert(tes@.take(tes@.len() as int) =~= tes@);
            assert(git_node_oid(node) == git_tree_oid(tree_entries_view(tes@)));
        }
        Ok(node)
    } else {
        Err(StoreError::UnsupportedEntry)
    }
}

/// Streams a stored directory tree back in the canonical archive format:
/// the bytes are the canonical print of a node that maps to exactly the
/// given id. Only a tree id is accepted: a bare blob does not carry its
/// executable bit in the object database, so emitting one would have to
/// guess it.
pub fn emit_archive(repo: &GitRepo, oid: &Vec<u8>) -> (r: Result<(NarNode, Vec<u8>), StoreError>)
    ensures
        match r {
            Ok(d) => {
                &&& valid_node(d.0)
                &&& git_node_oid(d.0) == oid@
                &&& d.1@ == encode_nar(d.0)
            },
            Err(e) => e == StoreError::StorageFault || e == StoreError::DepthExceeded || e
                == StoreError::UnsupportedEntry,
        },
{
    let node = emit_node(repo, oid, MODE_DIR, crate::store::MAX_DEPTH)?;
    let bytes = crate::nar::encode_nar_bytes(&node);
    Ok((node, bytes))
}


/// Every byte string inside the node is short enough for the archive's
/// 8-byte length fields; true of every node an executable holds.
pub open spec fn bounded_node(n: NarNode) -> bool
    decreases n,
{
    match n {
        NarNode::File { contents, .. } => contents@.len() < crate::nar::pow256(8),
        NarNode::Symlink { target } => target@.len() < crate::nar::pow256(8),
        NarNode::Directory { entries } => (forall|i: int|
            0 <= i < entries@.len() ==> (#[trigger] entries@[i]).0@.len() < crate::nar::pow256(8))
            && (forall|i: int| 0 <= i < entries@.len() ==> bounded_node((#[trigger] entries@[i]).1)),
    }
}

/// The keyword that prints a node's kind.
pub open spec fn type_kw(n: NarNode) -> Seq<u8> {
    match n {
        NarNode::File { .. } => crate::nar::kw("regular"@),
        NarNode::Symlink { .. } => crate::nar::kw("symlink"@),
        NarNode::Directory { .. } => crate::nar::kw("directory"@),
    }
}

/// What follows a node's type keyword in its canonical print.
pub open spec fn node_body(n: NarNode) -> Seq<u8> {
    match n {
        NarNode::File { executable, contents } => (if executable {
            crate::nar::frame(crate::nar::kw("executable"@)) + crate::nar::frame(
                Seq::<u8>::empty(),
            )
        } else {
            Seq::<u8>::empty()
        }) + crate::nar::frame(crate::nar::kw("contents"@)) + crate::nar::frame(contents@)
            + crate::nar::frame(crate::nar::kw(")"@)),
        NarNode::Symlink { target } => crate::nar::frame(crate::nar::kw("target"@))
            + crate::nar::frame(target@) + crate::nar::frame(crate::nar::kw(")"@)),
        NarNode::Directory { entries } => crate::nar::encode_entries(entries@) + crate::nar::frame(
            crate::nar::kw(")"@),
        ),
    }
}

/// The print of a regular file after its type keyword, from its parts.
pub open spec fn file_body(exec: bool, c: Seq<u8>) -> Seq<u8> {
    (if exec {
        crate::nar::frame(crate::nar::kw("executable"@)) + crate::nar::frame(Seq::<u8>::empty())
    } else {
        Seq::<u8>::empty()
    }) + crate::nar::frame(crate::nar::kw("contents"@)) + crate::nar::frame(c) + crate::nar::frame(
        crate::nar::kw(")"@),
    )
}

/// Two nodes with the same canonical print, followed by the same stream,
/// map to the same git object id and mode: the print pins the stored
/// object down. With `emit_archive` and `ingest_archive` this closes the
/// round trip on ids: re-ingesting an emitted archive stores the tree
/// under the id it was emitted from.
pub proof fn lemma_print_determines_oid(a: NarNode, b: NarNode, ra: Seq<u8>, rb: Seq<u8>)
    requires
        encode_nar(a) + ra == encode_nar(b) + rb,
        bounded_node(a),
        bounded_node(b),
    ensures
        git_node_oid(a) == git_node_oid(b),
        node_mode(a) == node_mode(b),
        ra == rb,
{
    crate::nar::lemma_pow256_8();
    reveal_strlit("nix-archive-1");
    let na = encode_node(a) + ra;
    let nb = encode_node(b) + rb;
    assert(encode_nar(a) + ra =~= crate::nar::frame(crate::nar::kw("nix-archive-1"@)) + na);
    assert(encode_nar(b) + rb =~= crate::nar::frame(crate::nar::kw("nix-archive-1"@)) + nb);
    crate::nar::lemma_frame_prefix(
        crate::nar::kw("nix-archive-1"@),
        crate::nar::kw("nix-archive-1"@),
        na,
        nb,
    );
    lemma_node_print_determines_oid(a, b, ra, rb);
}

/// A node's print opens with the bracket, the type keyword marker, its
/// kind keyword, and then its body.
#[verifier::rlimit(100)]
proof fn lemma_node_open(n: NarNode, r: Seq<u8>)
    ensures
        encode_node(n) + r == crate::nar::frame(crate::nar::kw("("@)) + (crate::nar::frame(
            crate::nar::kw("type"@),
        ) + (crate::nar::frame(type_kw(n)) + (node_body(n) + r))),
{
    match n {
        NarNode::File { .. } => {
            assert(encode_node(n) + r =~= crate::nar::frame(crate::nar::kw("("@)) + (
            crate::nar::frame(crate::nar::kw("type"@)) + (crate::nar::frame(type_kw(n)) + (
            node_body(n) + r))));
        },
        NarNode::Symlink { .. } => {
            assert(encode_node(n) + r =~= crate::nar::frame(crate::nar::kw("("@)) + (
            crate::nar::frame(crate::nar::kw("type"@)) + (crate::nar::frame(type_kw(n)) + (
            node_body(n) + r))));
        },
        NarNode::Directory { .. } => {
            assert(encode_node(n) + r =~= crate::nar::frame(crate::nar::kw("("@)) + (
            crate::nar::frame(crate::nar::kw("type"@)) + (crate::nar::frame(type_kw(n)) + (
            node_body(n) + r))));
        },
    }
}

/// Equal kind keywords mean equal node kinds.
proof fn lemma_same_kind(a: NarNode, b: NarNode)
    requires
        type_kw(a) == type_kw(b),
    ensures
        a is File <==> b is File,
        a is Symlink <==> b is Symlink,
        a is Directory <==> b is Directory,
{
    reveal_strlit("regular");
    reveal_strlit("symlink");
    reveal_strlit("directory");
    assert(crate::nar::kw("regular"@).len() == 7);
    assert(crate::nar::kw("symlink"@).len() == 7);
    assert(crate::nar::kw("directory"@).len() == 9);
    assert(crate::nar::kw("regular"@)[0] == 'r' as u8);
    assert(crate::nar::kw("symlink"@)[0] == 's' as u8);
}

/// The node-level heart of the round trip on ids.
#[verifier::rlimit(100)]
pub proof fn lemma_node_print_determines_oid(a: NarNode, b: NarNode, ra: Seq<u8>, rb: Seq<u8>)
    requires
        encode_node(a) + ra == encode_node(b) + rb,
        bounded_node(a),
        bounded_node(b),
    ensures
        git_node_oid(a) == git_node_oid(b),
        node_mode(a) == node_mode(b),
        ra == rb,
    decreases a, 0int,
{
    crate::nar::lemma_pow256_8();
    reveal_strlit("(");
    reveal_strlit(")");
    reveal_strlit("type");
    reveal_strlit("regular");
    reveal_strlit("symlink");
    reveal_strlit("directory");
    lemma_node_open(a, ra);
    lemma_node_open(b, rb);
    crate::nar::lemma_frame_prefix(
        crate::nar::kw("("@),
        crate::nar::kw("("@),
        crate::nar::frame(crate::nar::kw("type"@)) + (crate::nar::frame(type_kw(a)) + (
        node_body(a) + ra)),
        crate::nar::frame(crate::nar::kw("type"@)) + (crate::nar::frame(type_kw(b)) + (
        node_body(b) + rb)),
    );
    crate::nar::lemma_frame_prefix(
        crate::nar::kw("type"@),
        crate::nar::kw("type"@),
        crate::nar::frame(type_kw(a)) + (node_body(a) + ra),
        crate::nar::frame(type_kw(b)) + (node_body(b) + rb),
    );
    crate::nar::lemma_frame_prefix(type_kw(a), type_kw(b), node_body(a) + ra, node_body(b) + rb);
    lemma_same_kind(a, b);
    match (a, b) {
        (
            NarNode::File { executable: xa, contents: ca },
            NarNode::File { executable: xb, contents: cb },
        ) => {
            assert(node_body(a) == file_body(xa, ca@));
            assert(node_body(b) == file_body(xb, cb@));
            lemma_file_bodies(xa, ca@, xb, cb@, ra, rb);
        },
        (NarNode::Symlink { target: ca }, NarNode::Symlink { target: cb }) => {
            assert(node_body(a) == symlink_body(ca@));
            assert(node_body(b) == symlink_body(cb@));
            lemma_symlink_bodies(ca@, cb@, ra, rb);
        },
        (NarNode::Directory { entries: ea }, NarNode::Directory { entries: eb }) => {
            assert(node_body(a) + ra =~= crate::nar::encode_entries(ea@) + (crate::nar::frame(
                crate::nar::kw(")"@),
            ) + ra));
            assert(node_body(b) + rb =~= crate::nar::encode_entries(eb@) + (crate::nar::frame(
                crate::nar::kw(")"@),
            ) + rb));
            assert(decreases_to!(a => a->Directory_entries));
            lemma_entries_print_determine(ea@, eb@, ra, rb);
            assert(git_node_oid(a) == crate::gitrepo::git_tree_oid(node_entries_view(ea@)));
        },
        _ => {
            assert(false);
        },
    }
}

/// Equal-printed regular-file bodies have the same flag, contents and
/// rest.
#[verifier::rlimit(100)]
proof fn lemma_file_bodies(xa: bool, ca: Seq<u8>, xb: bool, cb: Seq<u8>, ra: Seq<u8>, rb: Seq<u8>)
    requires
        file_body(xa, ca) + ra == file_body(xb, cb) + rb,
        ca.len() < crate::nar::pow256(8),
        cb.len() < crate::nar::pow256(8),
    ensures
        xa == xb,
        ca == cb,
        ra == rb,
{
    crate::nar::lemma_pow256_8();
    reveal_strlit("executable");
    reveal_strlit("contents");
    reveal_strlit(")");
    let ta = crate::nar::frame(ca) + (crate::nar::frame(crate::nar::kw(")"@)) + ra);
    let tb = crate::nar::frame(cb) + (crate::nar::frame(crate::nar::kw(")"@)) + rb);
    let ya = crate::nar::frame(crate::nar::kw("contents"@)) + ta;
    let yb = crate::nar::frame(crate::nar::kw("contents"@)) + tb;
    if xa && !xb {
        assert(file_body(xa, ca) + ra =~= crate::nar::frame(crate::nar::kw("executable"@)) + (
        crate::nar::frame(Seq::<u8>::empty()) + ya));
        assert(file_body(xb, cb) + rb =~= crate::nar::frame(crate::nar::kw("contents"@)) + tb);
        crate::nar::lemma_frame_prefix(
            crate::nar::kw("executable"@),
            crate::nar::kw("contents"@),
            crate::nar::frame(Seq::<u8>::empty()) + ya,
            tb,
        );
        assert(crate::nar::kw("executable"@).len() == 10);
        assert(crate::nar::kw("contents"@).len() == 8);
    } else if !xa && xb {
        assert(file_body(xa, ca) + ra =~= crate::nar::frame(crate::nar::kw("contents"@)) + ta);
        assert(file_body(xb, cb) + rb =~= crate::nar::frame(crate::nar::kw("executable"@)) + (
        crate::nar::frame(Seq::<u8>::empty()) + yb));
        crate::nar::lemma_frame_prefix(
            crate::nar::kw("contents"@),
            crate::nar::kw("executable"@),
            ta,
            crate::nar::frame(Seq::<u8>::empty()) + yb,
        );
        assert(crate::nar::kw("executable"@).len() == 10);
        assert(crate::nar::kw("contents"@).len() == 8);
    } else if xa && xb {
        assert(file_body(xa, ca) + ra =~= crate::nar::frame(crate::nar::kw("executable"@)) + (
        crate::nar::frame(Seq::<u8>::empty()) + ya));
        assert(file_body(xb, cb) + rb =~= crate::nar::frame(crate::nar::kw("executable"@)) + (
        crate::nar::frame(Seq::<u8>::empty()) + yb));
        crate::nar::lemma_frame_prefix(
            crate::nar::kw("executable"@),
            crate::nar::kw("executable"@),
            crate::nar::frame(Seq::<u8>::empty()) + ya,
            crate::nar::frame(Seq::<u8>::empty()) + yb,
        );
        crate::nar::lemma_frame_prefix(Seq::<u8>::empty(), Seq::<u8>::empty(), ya, yb);
    } else {
        assert(file_body(xa, ca) + ra =~= ya);
        assert(file_body(xb, cb) + rb =~= yb);
    }
    if xa == xb {
        crate::nar::lemma_frame_prefix(
            crate::nar::kw("contents"@),
            crate::nar::kw("contents"@),
            ta,
            tb,
        );
        crate::nar::lemma_frame_prefix(
            ca,
            cb,
            crate::nar::frame(crate::nar::kw(")"@)) + ra,
            crate::nar::frame(crate::nar::kw(")"@)) + rb,
        );
        crate::nar::lemma_frame_prefix(crate::nar::kw(")"@), crate::nar::kw(")"@), ra, rb);
    }
}

/// Equal-printed symlink bodies have the same target and rest.
#[verifier::rlimit(100)]
proof fn lemma_symlink_bodies(ca: Seq<u8>, cb: Seq<u8>, ra: Seq<u8>, rb: Seq<u8>)
    requires
        symlink_body(ca) + ra == symlink_body(cb) + rb,
        ca.len() < crate::nar::pow256(8),
        cb.len() < crate::nar::pow256(8),
    ensures
        ca == cb,
        ra == rb,
{
    crate::nar::lemma_pow256_8();
    reveal_strlit("target");
    reveal_strlit(")");
    let ta = crate::nar::frame(ca) + (crate::nar::frame(crate::nar::kw(")"@)) + ra);
    let tb = crate::nar::frame(cb) + (crate::nar::frame(crate::nar::kw(")"@)) + rb);
    assert(symlink_body(ca) + ra =~= crate::nar::frame(crate::nar::kw("target"@)) + ta);
    assert(symlink_body(cb) + rb =~= crate::nar::frame(crate::nar::kw("target"@)) + tb);
    crate::nar::lemma_frame_prefix(crate::nar::kw("target"@), crate::nar::kw("target"@), ta, tb);
    crate::nar::lemma_frame_prefix(
        ca,
        cb,
        crate::nar::frame(crate::nar::kw(")"@)) + ra,
        crate::nar::frame(crate::nar::kw(")"@)) + rb,
    );
    crate::nar::lemma_frame_prefix(crate::nar::kw(")"@), crate::nar::kw(")"@), ra, rb);
}

/// The print of a symlink after its type keyword, from its target.
pub open spec fn symlink_body(t: Seq<u8>) -> Seq<u8> {
    crate::nar::frame(crate::nar::kw("target"@)) + crate::nar::frame(t) + crate::nar::frame(
        crate::nar::kw(")"@),
    )
}

/// The print that one entry opens, after its `entry` keyword.
spec fn entry_tail(e: (Vec<u8>, NarNode), rest: Seq<u8>) -> Seq<u8> {
    crate::nar::frame(crate::nar::kw("("@)) + (crate::nar::frame(crate::nar::kw("name"@)) + (
    crate::nar::frame(e.0@) + (crate::nar::frame(crate::nar::kw("node"@)) + (encode_node(e.1) + (
    crate::nar::frame(crate::nar::kw(")"@)) + rest)))))
}

/// A nonempty run of entries opens with the entry keyword and then one
/// entry's print.
#[verifier::rlimit(100)]
proof fn lemma_entries_open(es: Seq<(Vec<u8>, NarNode)>, r: Seq<u8>)
    requires
        es.len() > 0,
    ensures
        crate::nar::encode_entries(es) + (crate::nar::frame(crate::nar::kw(")"@)) + r)
            == crate::nar::frame(crate::nar::kw("entry"@)) + entry_tail(
            es[0],
            crate::nar::encode_entries(es.skip(1)) + (crate::nar::frame(crate::nar::kw(")"@))
                + r),
        ),
{
    assert(crate::nar::encode_entries(es) == crate::nar::encode_entry(es[0])
        + crate::nar::encode_entries(es.skip(1)));
    assert(crate::nar::encode_entries(es) + (crate::nar::frame(crate::nar::kw(")"@)) + r)
        =~= crate::nar::frame(crate::nar::kw("entry"@)) + entry_tail(
        es[0],
        crate::nar::encode_entries(es.skip(1)) + (crate::nar::frame(crate::nar::kw(")"@)) + r),
    ));
}

/// Runs of directory entries with the same print, closed by the same
/// token and followed by the same stream, map to the same tree entries.
#[verifier::rlimit(100)]
proof fn lemma_entries_print_determine(
    ea: Seq<(Vec<u8>, NarNode)>,
    eb: Seq<(Vec<u8>, NarNode)>,
    ra: Seq<u8>,
    rb: Seq<u8>,
)
    requires
        crate::nar::encode_entries(ea) + (crate::nar::frame(crate::nar::kw(")"@)) + ra)
            == crate::nar::encode_entries(eb) + (crate::nar::frame(crate::nar::kw(")"@)) + rb),
        forall|i: int| 0 <= i < ea.len() ==> (#[trigger] ea[i]).0@.len() < crate::nar::pow256(8),
        forall|i: int| 0 <= i < ea.len() ==> bounded_node((#[trigger] ea[i]).1),
        forall|i: int| 0 <= i < eb.len() ==> (#[trigger] eb[i]).0@.len() < crate::nar::pow256(8),
        forall|i: int| 0 <= i < eb.len() ==> bounded_node((#[trigger] eb[i]).1),
    ensures
        node_entries_view(ea) == node_entries_view(eb),
        ra == rb,
    decreases ea, 1int,
{
    crate::nar::lemma_pow256_8();
    reveal_strlit(")");
    reveal_strlit("entry");
    if ea.len() == 0 && eb.len() == 0 {
        assert(crate::nar::encode_entries(ea) =~= Seq::<u8>::empty());
        assert(crate::nar::encode_entries(eb) =~= Seq::<u8>::empty());
        assert(crate::nar::frame(crate::nar::kw(")"@)) + ra =~= crate::nar::encode_entries(ea) + (
        crate::nar::frame(crate::nar::kw(")"@)) + ra));
        assert(crate::nar::frame(crate::nar::kw(")"@)) + rb =~= crate::nar::encode_entries(eb) + (
        crate::nar::frame(crate::nar::kw(")"@)) + rb));
        crate::nar::lemma_frame_prefix(crate::nar::kw(")"@), crate::nar::kw(")"@), ra, rb);
        assert(node_entries_view(ea) =~= node_entries_view(eb));
    } else if ea.len() > 0 && eb.len() == 0 {
        lemma_entries_open(ea, ra);
        assert(crate::nar::encode_entries(eb) =~= Seq::<u8>::empty());
        assert(crate::nar::encode_entries(eb) + (crate::nar::frame(crate::nar::kw(")"@)) + rb)
            =~= crate::nar::frame(crate::nar::kw(")"@)) + rb);
        crate::nar::lemma_frame_prefix(
            crate::nar::kw("entry"@),
            crate::nar::kw(")"@),
            entry_tail(
                ea[0],
                crate::nar::encode_entries(ea.skip(1)) + (crate::nar::frame(crate::nar::kw(")"@))
                    + ra),
            ),
            rb,
        );
        assert(crate::nar::kw("entry"@).len() == 5);
        assert(crate::nar::kw(")"@).len() == 1);
    } else if ea.len() == 0 && eb.len() > 0 {
        lemma_entries_open(eb, rb);
        assert(crate::nar::encode_entries(ea) =~= Seq::<u8>::empty());
        assert(crate::nar::encode_entries(ea) + (crate::nar::frame(crate::nar::kw(")"@)) + ra)
            =~= crate::nar::frame(crate::nar::kw(")"@)) + ra);
        crate::nar::lemma_frame_prefix(
            crate::nar::kw(")"@),
            crate::nar::kw("entry"@),
            ra,
            entry_tail(
                eb[0],
                crate::nar::encode_entries(eb.skip(1)) + (crate::nar::frame(crate::nar::kw(")"@))
                    + rb),
            ),
        );
        assert(crate::nar::kw("entry"@).len() == 5);
        assert(crate::nar::kw(")"@).len() == 1);
    } else {
        lemma_entries_open(ea, ra);
        lemma_entries_open(eb, rb);
        crate::nar::lemma_frame_prefix(
            crate::nar::kw("entry"@),
            crate::nar::kw("entry"@),
            entry_tail(
                ea[0],
                crate::nar::encode_entries(ea.skip(1)) + (crate::nar::frame(crate::nar::kw(")"@))
                    + ra),
            ),
            entry_tail(
                eb[0],
                crate::nar::encode_entries(eb.skip(1)) + (crate::nar::frame(crate::nar::kw(")"@))
                    + rb),
            ),
        );
        lemma_entry_bodies(ea, eb, ra, rb);
    }
}

/// The bodies of two equal-printed leading entries agree, and so do the
/// runs behind them.
#[verifier::rlimit(100)]
proof fn lemma_entry_bodies(
    ea: Seq<(Vec<u8>, NarNode)>,
    eb: Seq<(Vec<u8>, NarNode)>,
    ra: Seq<u8>,
    rb: Seq<u8>,
)
    requires
        ea.len() > 0,
        eb.len() > 0,
        entry_tail(ea[0], crate::nar::encode_entries(ea.skip(1)) + (crate::nar::frame(
            crate::nar::kw(")"@),
        ) + ra)) == entry_tail(eb[0], crate::nar::encode_entries(eb.skip(1)) + (crate::nar::frame(
            crate::nar::kw(")"@),
        ) + rb)),
        forall|i: int| 0 <= i < ea.len() ==> (#[trigger] ea[i]).0@.len() < crate::nar::pow256(8),
        forall|i: int| 0 <= i < ea.len() ==> bounded_node((#[trigger] ea[i]).1),
        forall|i: int| 0 <= i < eb.len() ==> (#[trigger] eb[i]).0@.len() < crate::nar::pow256(8),
        forall|i: int| 0 <= i < eb.len() ==> bounded_node((#[trigger] eb[i]).1),
    ensures
        node_entries_view(ea) == node_entries_view(eb),
        ra == rb,
    decreases ea, 0int,
{
    crate::nar::lemma_pow256_8();
    reveal_strlit(")");
    reveal_strlit("(");
    reveal_strlit("name");
    reveal_strlit("node");
    let followa = crate::nar::encode_entries(ea.skip(1)) + (crate::nar::frame(
        crate::nar::kw(")"@),
    ) + ra);
    let followb = crate::nar::encode_entries(eb.skip(1)) + (crate::nar::frame(
        crate::nar::kw(")"@),
    ) + rb);
    crate::nar::lemma_frame_prefix(
        crate::nar::kw("("@),
        crate::nar::kw("("@),
        crate::nar::frame(crate::nar::kw("name"@)) + (crate::nar::frame(ea[0].0@) + (
        crate::nar::frame(crate::nar::kw("node"@)) + (encode_node(ea[0].1) + (crate::nar::frame(
            crate::nar::kw(")"@),
        ) + followa)))),
        crate::nar::frame(crate::nar::kw("name"@)) + (crate::nar::frame(eb[0].0@) + (
        crate::nar::frame(crate::nar::kw("node"@)) + (encode_node(eb[0].1) + (crate::nar::frame(
            crate::nar::kw(")"@),
        ) + followb)))),
    );
    crate::nar::lemma_frame_prefix(
        crate::nar::kw("name"@),
        crate::nar::kw("name"@),
        crate::nar::frame(ea[0].0@) + (crate::nar::frame(crate::nar::kw("node"@)) + (encode_node(
            ea[0].1,
        ) + (crate::nar::frame(crate::nar::kw(")"@)) + followa))),
        crate::nar::frame(eb[0].0@) + (crate::nar::frame(crate::nar::kw("node"@)) + (encode_node(
            eb[0].1,
        ) + (crate::nar::frame(crate::nar::kw(")"@)) + followb))),
    );
    crate::nar::lemma_frame_prefix(
        ea[0].0@,
        eb[0].0@,
        crate::nar::frame(crate::nar::kw("node"@)) + (encode_node(ea[0].1) + (crate::nar::frame(
            crate::nar::kw(")"@),
        ) + followa)),
        crate::nar::frame(crate::nar::kw("node"@)) + (encode_node(eb[0].1) + (crate::nar::frame(
            crate::nar::kw(")"@),
        ) + followb)),
    );
    crate::nar::lemma_frame_prefix(
        crate::nar::kw("node"@),
        crate::nar::kw("node"@),
        encode_node(ea[0].1) + (crate::nar::frame(crate::nar::kw(")"@)) + followa),
        encode_node(eb[0].1) + (crate::nar::frame(crate::nar::kw(")"@)) + followb),
    );
    assert(decreases_to!(ea => ea[0]));
    assert(decreases_to!(ea[0] => ea[0].1));
    lemma_node_print_determines_oid(
        ea[0].1,
        eb[0].1,
        crate::nar::frame(crate::nar::kw(")"@)) + followa,
        crate::nar::frame(crate::nar::kw(")"@)) + followb,
    );
    crate::nar::lemma_frame_prefix(crate::nar::kw(")"@), crate::nar::kw(")"@), followa, followb);
    assert(decreases_to!(ea => ea.subrange(1, ea.len() as int)));
    assert(ea.skip(1) == ea.subrange(1, ea.len() as int));
    assert forall|i: int| 0 <= i < ea.skip(1).len() implies (#[trigger] ea.skip(1)[i]).0@.len()
        < crate::nar::pow256(8) && bounded_node(ea.skip(1)[i].1) by {
        assert(ea.skip(1)[i] == ea[i + 1]);
    }
    assert forall|i: int| 0 <= i < eb.skip(1).len() implies (#[trigger] eb.skip(1)[i]).0@.len()
        < crate::nar::pow256(8) && bounded_node(eb.skip(1)[i].1) by {
        assert(eb.skip(1)[i] == eb[i + 1]);
    }
    lemma_entries_print_determine(ea.skip(1), eb.skip(1), ra, rb);
    assert(node_entries_view(ea) == seq![
        (ea[0].0@, node_mode(ea[0].1), git_node_oid(ea[0].1)),
    ] + node_entries_view(ea.skip(1)));
    assert(node_entries_view(eb) == seq![
        (eb[0].0@, node_mode(eb[0].1), git_node_oid(eb[0].1)),
    ] + node_entries_view(eb.skip(1)));
    assert(node_entries_view(ea) =~= node_entries_view(eb));
}

} // verus!
