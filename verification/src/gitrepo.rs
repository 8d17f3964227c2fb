use vstd::prelude::*;

use crate::errors::StoreError;

verus! {

// The capability layer over the local Git object database. Everything the
// library knows about a repository is stated here, over four views of its
// contents (references, blobs, trees, commits) and three content-address
// functions. Each wrapper makes exactly one kind of libgit2 call; its
// contract states what that call does to the views, and nothing more than
// the libgit2 documentation and source show.

#[verifier::external_type_specification]
#[verifier::external_body]
pub struct ExRepository(git2::Repository);

/// The direct references of the repository whose names lie under `refs/`
/// and are UTF-8: full name to the 20 target bytes of the object id.
/// Special names outside that namespace (the head, the fetch marker) are
/// not part of this view, and the wrappers below only speak of names
/// inside it.
pub uninterp spec fn repo_refs(r: git2::Repository) -> Map<Seq<char>, Seq<u8>>;

/// Whether a reference name lies in the modeled namespace.
pub open spec fn in_refs_namespace(n: Seq<char>) -> bool {
    n.len() >= 5 && n.take(5) == "refs/"@
}

/// The ids of the blob objects present.
pub uninterp spec fn repo_blobs(r: git2::Repository) -> Set<Seq<u8>>;

/// The stored contents of a blob object present in the repository.
pub uninterp spec fn repo_blob_content(r: git2::Repository, oid: Seq<u8>) -> Seq<u8>;

/// The ids of the tree objects present.
pub uninterp spec fn repo_trees(r: git2::Repository) -> Set<Seq<u8>>;

/// The stored entries of a tree object present in the repository, in
/// stored order: name bytes, file mode, child id.
pub uninterp spec fn repo_tree_entries(r: git2::Repository, oid: Seq<u8>) -> Seq<
    (Seq<u8>, u32, Seq<u8>),
>;

/// The ids of the commit objects present.
pub uninterp spec fn repo_commits(r: git2::Repository) -> Set<Seq<u8>>;

/// The object id git computes for a blob with these contents.
pub uninterp spec fn git_blob_oid(content: Seq<u8>) -> Seq<u8>;

/// The object id git computes for a tree with these entries, given as
/// (name bytes, file mode, child id), already in git's canonical order.
pub uninterp spec fn git_tree_oid(entries: Seq<(Seq<u8>, u32, Seq<u8>)>) -> Seq<u8>;

/// The object id git computes for a commit with this root tree, these
/// parents in order, and this message, under the store's fixed signature
/// with the epoch timestamp.
pub uninterp spec fn git_commit_oid(tree: Seq<u8>, parents: Seq<Seq<u8>>, message: Seq<char>) -> Seq<
    u8,
>;

/// A well-formed object id: 20 bytes.
pub open spec fn is_oid(o: Seq<u8>) -> bool {
    o.len() == 20
}

/// One entry handed to the tree builder.
pub struct TreeEntry {
    pub name: Vec<u8>,
    pub mode: u32,
    pub oid: Vec<u8>,
}

/// The mathematical content of a run of tree entries.
pub open spec fn tree_entries_view(es: Seq<TreeEntry>) -> Seq<(Seq<u8>, u32, Seq<u8>)> {
    es.map(|i: int, e: TreeEntry| (e.name@, e.mode, e.oid@))
}

/// Mapping tree entries one more entry at a time.
pub proof fn lemma_tree_entries_push(es: Seq<TreeEntry>, e: TreeEntry)
    ensures
        tree_entries_view(es.push(e)) == tree_entries_view(es).push((e.name@, e.mode, e.oid@)),
{
    assert(tree_entries_view(es.push(e)) =~= tree_entries_view(es).push((e.name@, e.mode, e.oid@)));
}

/// The ids of a run of parent commits.
pub open spec fn parent_oids_view(ps: Seq<Vec<u8>>) -> Seq<Seq<u8>> {
    ps.map(|i: int, p: Vec<u8>| p@)
}

/// Whether `n` lies in the reference namespace of the package hash `h`,
/// that is, under `refs/<h>/`.
pub open spec fn in_pkg_namespace(n: Seq<char>, h: Seq<char>) -> bool {
    let p = crate::refnames::pkg_ref_seq(h) + seq!['/'];
    n.len() >= p.len() && n.take(p.len() as int) == p
}

/// The blobs, trees and commits of `old` are still in `new`, and the
/// contents of every old blob are unchanged: git objects are immutable and
/// never removed by the store's operations.
pub open spec fn objects_grow(old: git2::Repository, new: git2::Repository) -> bool {
    &&& forall|o: Seq<u8>| repo_blobs(old).contains(o) ==> repo_blobs(new).contains(o)
    &&& forall|o: Seq<u8>| repo_trees(old).contains(o) ==> repo_trees(new).contains(o)
    &&& forall|o: Seq<u8>| repo_commits(old).contains(o) ==> repo_commits(new).contains(o)
    &&& forall|o: Seq<u8>|
        repo_blobs(old).contains(o) ==> repo_blob_content(new, o) == repo_blob_content(old, o)
    &&& forall|o: Seq<u8>|
        repo_trees(old).contains(o) ==> repo_tree_entries(new, o) == repo_tree_entries(old, o)
}

/// The local Git object store.
pub struct GitRepo {
    pub repo: git2::Repository,
}

impl GitRepo {
    /// Relies on git2::Repository::open and ::init: opens the repository
    /// at `path`, creating it when absent. Nothing is assumed about the
    /// contents found on disk.
    #[verifier::external_body]
    pub fn open(path: &str) -> (r: Result<GitRepo, StoreError>)
        ensures
            r is Err ==> r->Err_0 == StoreError::StorageFault,
    {
        match git2::Repository::open(path) {
            Ok(repo) => Ok(GitRepo { repo }),
            Err(_) => match git2::Repository::init(path) {
                Ok(repo) => Ok(GitRepo { repo }),
                Err(_) => Err(StoreError::StorageFault),
            },
        }
    }

    /// Relies on git2::Repository::blob: stores a blob and returns the id
    /// of exactly these contents; the id is a function of the contents.
    #[verifier::external_body]
    pub fn blob(&mut self, data: &[u8]) -> (r: Result<Vec<u8>, StoreError>)
        ensures
            match r {
                Ok(oid) => {
                    &&& oid@ == git_blob_oid(data@)
                    &&& is_oid(oid@)
                    &&& repo_blobs(final(self).repo) == repo_blobs(old(self).repo).insert(oid@)
                    &&& repo_blob_content(final(self).repo, oid@) == data@
                    &&& repo_refs(final(self).repo) == repo_refs(old(self).repo)
                    &&& objects_grow(old(self).repo, final(self).repo)
                    &&& repo_trees(final(self).repo) == repo_trees(old(self).repo)
                    &&& repo_commits(final(self).repo) == repo_commits(old(self).repo)
                },
                Err(e) => e == StoreError::StorageFault && repo_refs(final(self).repo)
                    == repo_refs(old(self).repo) && objects_grow(old(self).repo, final(self).repo),
            },
    {
        match self.repo.blob(data) {
            Ok(o) => Ok(o.as_bytes().to_vec()),
            Err(_) => Err(StoreError::StorageFault),
        }
    }

    /// Relies on git2::TreeBuilder insert and write: stores a tree with
    /// these entries and returns its id, a function of the given entry
    /// sequence. The builder canonicalizes the entry order itself before
    /// hashing, so nothing is claimed about the stored order; reading the
    /// tree back yields the stored, canonical order.
    #[verifier::external_body]
    pub fn tree(&mut self, entries: &Vec<TreeEntry>) -> (r: Result<Vec<u8>, StoreError>)
        requires
            forall|i: int|
                0 <= i && i + 1 < entries@.len() ==> crate::nar::bytes_lt(
                    (#[trigger] entries@[i]).name@,
                    entries@[i + 1].name@,
                ),
        ensures
            match r {
                Ok(oid) => {
                    &&& oid@ == git_tree_oid(tree_entries_view(entries@))
                    &&& is_oid(oid@)
                    &&& repo_trees(final(self).repo) == repo_trees(old(self).repo).insert(oid@)
                    &&& repo_refs(final(self).repo) == repo_refs(old(self).repo)
                    &&& objects_grow(old(self).repo, final(self).repo)
                    &&& repo_blobs(final(self).repo) == repo_blobs(old(self).repo)
                    &&& repo_commits(final(self).repo) == repo_commits(old(self).repo)
                },
                Err(e) => e == StoreError::StorageFault && repo_refs(final(self).repo)
                    == repo_refs(old(self).repo) && objects_grow(old(self).repo, final(self).repo),
            },
    {
        let inner = |entries: &Vec<TreeEntry>| -> Result<git2::Oid, git2::Error> {
            let mut b = self.repo.treebuilder(None)?;
            for e in entries.iter() {
                b.insert(e.name.as_slice(), git2::Oid::from_bytes(&e.oid)?, e.mode as i32)?;
            }
            b.write()
        };
        match inner(entries) {
            Ok(o) => Ok(o.as_bytes().to_vec()),
            Err(_) => Err(StoreError::StorageFault),
        }
    }

    /// Relies on git2::Repository::commit with a fixed signature and the
    /// epoch timestamp, updating no reference: the id is a function of
    /// tree, parents and message alone, so peers reproduce it.
    #[verifier::external_body]
    pub fn commit(&mut self, tree: &Vec<u8>, parents: &Vec<Vec<u8>>, message: &str) -> (r: Result<
        Vec<u8>,
        StoreError,
    >)
        ensures
            match r {
                Ok(c) => {
                    &&& c@ == git_commit_oid(tree@, parent_oids_view(parents@), message@)
                    &&& is_oid(c@)
                    &&& repo_commits(final(self).repo) == repo_commits(old(self).repo).insert(c@)
                    &&& repo_refs(final(self).repo) == repo_refs(old(self).repo)
                    &&& objects_grow(old(self).repo, final(self).repo)
                    &&& repo_blobs(final(self).repo) == repo_blobs(old(self).repo)
                    &&& repo_trees(final(self).repo) == repo_trees(old(self).repo)
                },
                Err(e) => e == StoreError::StorageFault && repo_refs(final(self).repo)
                    == repo_refs(old(self).repo) && objects_grow(old(self).repo, final(self).repo),
            },
    {
        let inner = || -> Result<git2::Oid, git2::Error> {
            let mut ps = Vec::new();
            for p in parents.iter() {
                ps.push(self.repo.find_commit(git2::Oid::from_bytes(p)?)?);
            }
            let pr: Vec<&git2::Commit> = ps.iter().collect();
            let sig = git2::Signature::new("gachix", "gachix@gachix.com", &git2::Time::new(0, 0))?;
            let t = self.repo.find_tree(git2::Oid::from_bytes(tree)?)?;
            self.repo.commit(None, &sig, &sig, message, &t, &pr)
        };
        inner().map(|o| o.as_bytes().to_vec()).map_err(|_| StoreError::StorageFault)
    }

    /// Relies on git2::Repository::reference with force: creates or
    /// retargets the reference, last writer wins; other references keep
    /// their targets.
    #[verifier::external_body]
    pub fn set_ref(&mut self, name: &str, oid: &Vec<u8>) -> (r: Result<(), StoreError>)
        requires
            in_refs_namespace(name@),
        ensures
            match r {
                Ok(()) => {
                    &&& repo_refs(final(self).repo) == repo_refs(old(self).repo).insert(
                        name@,
                        oid@,
                    )
                    &&& objects_grow(old(self).repo, final(self).repo)
                    &&& repo_blobs(final(self).repo) == repo_blobs(old(self).repo)
                    &&& repo_trees(final(self).repo) == repo_trees(old(self).repo)
                    &&& repo_commits(final(self).repo) == repo_commits(old(self).repo)
                },
                Err(e) => e == StoreError::StorageFault && repo_refs(final(self).repo)
                    == repo_refs(old(self).repo) && objects_grow(old(self).repo, final(self).repo),
            },
    {
        let inner = || -> Result<(), git2::Error> {
            self.repo.reference(name, git2::Oid::from_bytes(oid)?, true, "update")?;
            Ok(())
        };
        match inner() {
            Ok(()) => Ok(()),
            Err(_) => Err(StoreError::StorageFault),
        }
    }

    /// Relies on git2::Repository::find_reference and Reference::target:
    /// returns the target id of a direct reference exactly when the name
    /// is present in the modeled namespace.
    #[verifier::external_body]
    pub fn ref_oid(&self, name: &str) -> (r: Option<Vec<u8>>)
        requires
            in_refs_namespace(name@),
        ensures
            match r {
                Some(o) => repo_refs(self.repo).contains_key(name@) && repo_refs(self.repo)[name@]
                    == o@ && is_oid(o@),
                None => !repo_refs(self.repo).contains_key(name@),
            },
    {
        match self.repo.find_reference(name) {
            Ok(re) => re.target().map(|o| o.as_bytes().to_vec()),
            Err(_) => None,
        }
    }

    /// Relies on git2::Repository::find_reference and Reference::target:
    /// whether the name is present as a direct reference.
    #[verifier::external_body]
    pub fn ref_exists(&self, name: &str) -> (r: bool)
        requires
            in_refs_namespace(name@),
        ensures
            r == repo_refs(self.repo).contains_key(name@),
    {
        match self.repo.find_reference(name) {
            Ok(re) => re.target().is_some(),
            Err(_) => false,
        }
    }

    /// Relies on git2::Repository::find_blob and Blob::content: the
    /// returned bytes are the stored contents, whose id is the one asked
    /// for.
    #[verifier::external_body]
    pub fn get_blob(&self, oid: &Vec<u8>) -> (r: Result<Vec<u8>, StoreError>)
        ensures
            match r {
                Ok(d) => git_blob_oid(d@) == oid@ && (repo_blobs(self.repo).contains(oid@) ==> d@
                    == repo_blob_content(self.repo, oid@)),
                Err(e) => e == StoreError::StorageFault,
            },
    {
        let inner = || -> Result<Vec<u8>, git2::Error> {
            Ok(self.repo.find_blob(git2::Oid::from_bytes(oid)?)?.content().to_vec())
        };
        match inner() {
            Ok(d) => Ok(d),
            Err(_) => Err(StoreError::StorageFault),
        }
    }

    /// Relies on git2::Repository::find_tree and Tree::iter: the returned
    /// entries, in stored order, are exactly the tree whose id was asked
    /// for.
    #[verifier::external_body]
    pub fn read_tree(&self, oid: &Vec<u8>) -> (r: Result<Vec<TreeEntry>, StoreError>)
        ensures
            match r {
                Ok(es) => git_tree_oid(tree_entries_view(es@)) == oid@ && (forall|i: int|
                    0 <= i < es@.len() ==> is_oid((#[trigger] es@[i]).oid@)) && (repo_trees(
                    self.repo,
                ).contains(oid@) ==> tree_entries_view(es@) == repo_tree_entries(
                    self.repo,
                    oid@,
                )),
                Err(e) => e == StoreError::StorageFault,
            },
    {
        let inner = || -> Result<Vec<TreeEntry>, git2::Error> {
            let t = self.repo.find_tree(git2::Oid::from_bytes(oid)?)?;
            let mut out = Vec::new();
            for e in t.iter() {
                let (name, mode) = (e.name_bytes().to_vec(), e.filemode() as u32);
                out.push(TreeEntry { name, mode, oid: e.id().as_bytes().to_vec() });
            }
            Ok(out)
        };
        inner().map_err(|_| StoreError::StorageFault)
    }

    /// Relies on git2::Remote::fetch with the refspec `refs/<h>/*`:
    /// within the modeled namespace only references under `refs/<h>/` can
    /// appear or change, no reference is removed, and objects only
    /// arrive. The fetch marker the call also writes lies outside the
    /// namespace.
    #[verifier::external_body]
    pub fn fetch_pkg_refs(&mut self, url: &str, hash: &str) -> (r: Result<(), StoreError>)
        ensures
            objects_grow(old(self).repo, final(self).repo),
            forall|n: Seq<char>|
                repo_refs(old(self).repo).contains_key(n) ==> repo_refs(
                    final(self).repo,
                ).contains_key(n),
            forall|n: Seq<char>|
                repo_refs(old(self).repo).contains_key(n) && !in_pkg_namespace(n, hash@)
                    ==> repo_refs(final(self).repo)[n] == repo_refs(old(self).repo)[n],
            forall|n: Seq<char>|
                repo_refs(final(self).repo).contains_key(n) ==> repo_refs(
                    old(self).repo,
                ).contains_key(n) || in_pkg_namespace(n, hash@),
            r is Err ==> r->Err_0 == StoreError::PeerUnavailable,
    {
        let inner = || -> Result<(), git2::Error> {
            let mut remote = self.repo.remote_anonymous(url)?;
            let spec = format!("refs/{hash}/*:refs/{hash}/*");
            remote.fetch(&[spec.as_str()], None, None)
        };
        match inner() {
            Ok(()) => Ok(()),
            Err(_) => Err(StoreError::PeerUnavailable),
        }
    }

    /// Relies on git2::Remote::connect: probes the remote without
    /// changing local state.
    #[verifier::external_body]
    pub fn check_remote(&self, url: &str) -> (r: Result<(), StoreError>)
        ensures
            r is Err ==> r->Err_0 == StoreError::PeerUnavailable,
    {
        let inner = || -> Result<(), git2::Error> {
            let mut remote = self.repo.remote_anonymous(url)?;
            remote.connect(git2::Direction::Fetch)?;
            Ok(())
        };
        match inner() {
            Ok(()) => Ok(()),
            Err(_) => Err(StoreError::PeerUnavailable),
        }
    }

    /// Relies on git2::Repository::references_glob over `refs/*`: lists
    /// the name of every direct reference in the modeled namespace
    /// exactly once.
    #[verifier::external_body]
    pub fn list_refs(&self) -> (r: Result<Vec<String>, StoreError>)
        ensures
            match r {
                Ok(v) => {
                    &&& repo_refs(self.repo).dom().finite()
                    &&& v@.len() == repo_refs(self.repo).dom().len()
                    &&& forall|i: int|
                        0 <= i < v@.len() ==> repo_refs(self.repo).contains_key(
                            (#[trigger] v@[i])@,
                        )
                    &&& forall|i: int, j: int|
                        0 <= i < j < v@.len() ==> (#[trigger] v@[i])@ != (#[trigger] v@[j])@
                },
                Err(e) => e == StoreError::StorageFault,
            },
    {
        let inner = || -> Result<Vec<String>, git2::Error> {
            let mut out = Vec::new();
            for re in self.repo.references_glob("refs/*")? {
                let re = re?;
                if re.target().is_some() {
                    if let Ok(n) = re.name() {
                        out.push(n.to_string());
                    }
                }
            }
            Ok(out)
        };
        inner().map_err(|_| StoreError::StorageFault)
    }
}

} // verus!
