use vstd::prelude::*;

use crate::errors::StoreError;
use crate::gitrepo::{repo_refs, GitRepo};
use crate::narinfo::{paths_view, spec_parse_narinfo, NarInfo};
use crate::paths::NixPath;
use crate::refnames::{
    make_narinfo_ref, make_pkg_ref, make_result_ref, narinfo_ref_seq, pkg_ref_seq, result_ref_seq,
};

verus! {

// The store: a Git repository holding packages as trees and commits, with
// two references per package hash, plus the configuration of upstream
// daemons and Git peers.

/// The recursion bound on closure expansion.
pub const MAX_DEPTH: usize = 100;

/// Configuration of a store: repository location, upstream daemons and
/// Git peers, in priority order.
pub struct StoreSettings {
    pub path: String,
    pub builders: Vec<String>,
    pub remotes: Vec<String>,
    pub use_local_nix_daemon: bool,
}

/// A daemon the store may consult: the local socket daemon or a remote
/// one reached by its address.
#[derive(Debug, PartialEq, Eq)]
pub enum DaemonSpec {
    Local,
    Remote(String),
}

impl Clone for DaemonSpec {
    fn clone(&self) -> (r: Self)
        ensures
            r == *self,
    {
        match self {
            DaemonSpec::Local => DaemonSpec::Local,
            DaemonSpec::Remote(s) => DaemonSpec::Remote(s.clone()),
        }
    }
}

/// The daemons a configuration names, in consultation order: the local
/// daemon first when enabled, then the configured builders.
pub open spec fn daemon_specs(s: StoreSettings) -> Seq<DaemonSpec> {
    (if s.use_local_nix_daemon {
        seq![DaemonSpec::Local]
    } else {
        Seq::<DaemonSpec>::empty()
    }) + s.builders@.map(|i: int, u: String| DaemonSpec::Remote(u))
}

pub struct Store {
    pub settings: StoreSettings,
    pub repo: GitRepo,
}

/// The references of the store's repository.
pub open spec fn store_refs(s: Store) -> Map<Seq<char>, Seq<u8>> {
    repo_refs(s.repo.repo)
}

/// The name is exactly the metadata reference of some 32-character hash.
pub open spec fn is_entry_narinfo_name(n: Seq<char>) -> bool {
    n.len() == 45 && n == narinfo_ref_seq(n.subrange(5, 37))
}

/// The name is the metadata reference of a hash whose commit reference is
/// present too: one complete package entry.
pub open spec fn is_complete_entry_name(m: Map<Seq<char>, Seq<u8>>, n: Seq<char>) -> bool {
    is_entry_narinfo_name(n) && m.contains_key(result_ref_seq(n.subrange(5, 37)))
}

/// How many package entries the map holds: hashes with both the commit
/// and the metadata reference present, counted by their metadata name.
pub open spec fn entry_count(m: Map<Seq<char>, Seq<u8>>) -> nat {
    m.dom().filter(|n: Seq<char>| is_complete_entry_name(m, n)).len()
}

impl Store {
    /// Opens (or creates) the repository named by the settings.
    pub fn new(settings: StoreSettings) -> (r: Result<Store, StoreError>)
        ensures
            match r {
                Ok(s) => s.settings == settings,
                Err(e) => e == StoreError::StorageFault,
            },
    {
        let repo = GitRepo::open(settings.path.as_str())?;
        Ok(Store { settings, repo })
    }

    /// The daemons to consult, in order: the local daemon first when
    /// enabled, then the configured builders.
    pub fn available_daemons(&self) -> (r: Result<Vec<DaemonSpec>, StoreError>)
        ensures
            match r {
                Ok(v) => v@ == daemon_specs(self.settings),
                Err(_) => false,
            },
    {
        let mut daemons: Vec<DaemonSpec> = Vec::new();
        if self.settings.use_local_nix_daemon {
            daemons.push(DaemonSpec::Local);
        }
        let ghost head = daemons@;
        let mut i: usize = 0;
        while i < self.settings.builders.len()
            invariant
                i <= self.settings.builders@.len(),
                head == (if self.settings.use_local_nix_daemon {
                    seq![DaemonSpec::Local]
                } else {
                    Seq::<DaemonSpec>::empty()
                }),
                daemons@ == head + self.settings.builders@.take(i as int).map(
                    |j: int, u: String| DaemonSpec::Remote(u),
                ),
            decreases self.settings.builders@.len() - i,
        {
            daemons.push(DaemonSpec::Remote(self.settings.builders[i].clone()));
            proof {
                assert(daemons@ =~= head + self.settings.builders@.take(i + 1).map(
                    |j: int, u: String| DaemonSpec::Remote(u),
                ));
            }
            i = i + 1;
        }
        proof {
            assert(self.settings.builders@.take(self.settings.builders@.len() as int)
                =~= self.settings.builders@);
            assert(daemons@ =~= daemon_specs(self.settings));
        }
        Ok(daemons)
    }

    /// The reference namespace of one package hash.
    pub fn get_package_ref(&self, hash: &str) -> (r: String)
        ensures
            r@ == pkg_ref_seq(hash@),
    {
        make_pkg_ref(hash)
    }

    /// The reference that names a package's commit.
    pub fn get_result_ref(&self, hash: &str) -> (r: String)
        ensures
            r@ == result_ref_seq(hash@),
    {
        make_result_ref(hash)
    }

    /// The reference that names a package's metadata blob.
    pub fn get_narinfo_ref(&self, hash: &str) -> (r: String)
        ensures
            r@ == narinfo_ref_seq(hash@),
    {
        make_narinfo_ref(hash)
    }

    /// A package entry exists when both of its references are present.
    pub fn entry_exists(&self, base32_hash: &str) -> (r: Result<bool, StoreError>)
        ensures
            match r {
                Ok(b) => b == (store_refs(*self).contains_key(result_ref_seq(base32_hash@))
                    && store_refs(*self).contains_key(narinfo_ref_seq(base32_hash@))),
                Err(_) => false,
            },
    {
        let result_ref = self.get_result_ref(base32_hash);
        let narinfo_ref = self.get_narinfo_ref(base32_hash);
        proof {
            crate::refnames::lemma_pkg_names_in_namespace(base32_hash@);
        }
        Ok(self.repo.ref_exists(result_ref.as_str()) && self.repo.ref_exists(
            narinfo_ref.as_str(),
        ))
    }

    /// The package commit of a hash, when its result reference exists.
    pub fn get_commit(&self, hash: &str) -> (r: Option<Vec<u8>>)
        ensures
            match r {
                Some(o) => store_refs(*self).contains_key(result_ref_seq(hash@)) && store_refs(
                    *self,
                )[result_ref_seq(hash@)] == o@ && crate::gitrepo::is_oid(o@),
                None => !store_refs(*self).contains_key(result_ref_seq(hash@)),
            },
    {
        let result_ref = self.get_result_ref(hash);
        proof {
            crate::refnames::lemma_pkg_names_in_namespace(hash@);
        }
        self.repo.ref_oid(result_ref.as_str())
    }

    /// The stored metadata blob of a hash, when its reference exists; an
    /// absent reference is answered with nothing, never with an error.
    pub fn get_narinfo(&self, base32_hash: &str) -> (r: Result<Option<Vec<u8>>, StoreError>)
        ensures
            !store_refs(*self).contains_key(narinfo_ref_seq(base32_hash@)) ==> r
                == Result::<Option<Vec<u8>>, StoreError>::Ok(None),
            match r {
                Ok(Some(d)) => {
                    &&& store_refs(*self).contains_key(narinfo_ref_seq(base32_hash@))
                    &&& crate::gitrepo::git_blob_oid(d@) == store_refs(*self)[narinfo_ref_seq(
                        base32_hash@,
                    )]
                    &&& (crate::gitrepo::repo_blobs(self.repo.repo).contains(
                        store_refs(*self)[narinfo_ref_seq(base32_hash@)],
                    ) ==> d@ == crate::gitrepo::repo_blob_content(
                        self.repo.repo,
                        store_refs(*self)[narinfo_ref_seq(base32_hash@)],
                    ))
                },
                Ok(None) => !store_refs(*self).contains_key(narinfo_ref_seq(base32_hash@)),
                Err(e) => e == StoreError::StorageFault,
            },
    {
        let narinfo_ref = self.get_narinfo_ref(base32_hash);
        proof {
            crate::refnames::lemma_pkg_names_in_namespace(base32_hash@);
        }
        match self.repo.ref_oid(narinfo_ref.as_str()) {
            Some(oid) => {
                let d = self.repo.get_blob(&oid)?;
                Ok(Some(d))
            },
            None => Ok(None),
        }
    }

    /// Every reference name of the repository, each exactly once.
    pub fn list_entries(&self) -> (r: Result<Vec<String>, StoreError>)
        ensures
            match r {
                Ok(v) => {
                    &&& (forall|i: int|
                        0 <= i < v@.len() ==> store_refs(*self).contains_key(
                            (#[trigger] v@[i])@,
                        ))
                    &&& (forall|i: int, j: int|
                        0 <= i < j < v@.len() ==> (#[trigger] v@[i])@ != (#[trigger] v@[j])@)
                    &&& store_refs(*self).dom().finite()
                    &&& v@.len() == store_refs(*self).dom().len()
                },
                Err(e) => e == StoreError::StorageFault,
            },
    {
        self.repo.list_refs()
    }

    /// How many packages the repository holds: the count of metadata
    /// references.
    /// How many packages the repository holds: hashes for which an entry
    /// exists, that is, both the commit and the metadata reference are
    /// present.
    pub fn num_available_packages(&self) -> (r: Result<usize, StoreError>)
        ensures
            match r {
                Ok(c) => c as nat == entry_count(store_refs(*self)),
                Err(e) => e == StoreError::StorageFault,
            },
    {
        let names = self.repo.list_refs()?;
        let mut count: usize = 0;
        let mut i: usize = 0;
        let ghost mut seen = Set::<Seq<char>>::empty();
        while i < names.len()
            invariant
                i <= names@.len(),
                count <= i,
                seen.finite(),
                count as nat == seen.len(),
                forall|n: Seq<char>|
                    #[trigger] seen.contains(n) <==> exists|j: int|
                        0 <= j < i && (#[trigger] names@[j])@ == n && is_complete_entry_name(
                            store_refs(*self),
                            n,
                        ),
                forall|j: int|
                    0 <= j < names@.len() ==> store_refs(*self).contains_key(
                        (#[trigger] names@[j])@,
                    ),
                forall|j: int, k: int|
                    0 <= j < k < names@.len() ==> (#[trigger] names@[j])@ != (
                    #[trigger] names@[k])@,
                names@.len() == store_refs(*self).dom().len(),
                store_refs(*self).dom().finite(),
            decreases names@.len() - i,
        {
            if self.ref_names_complete_entry(&names[i]) {
                proof {
                    assert(!seen.contains(names@[i as int]@));
                    seen = seen.insert(names@[i as int]@);
                }
                count = count + 1;
            }
            i = i + 1;
        }
        proof {
            let filt = store_refs(*self).dom().filter(
                |n: Seq<char>| is_complete_entry_name(store_refs(*self), n),
            );
            assert forall|n: Seq<char>| seen.contains(n) implies filt.contains(n) by {
                let j = choose|j: int|
                    0 <= j < names@.len() && (#[trigger] names@[j])@ == n
                        && is_complete_entry_name(store_refs(*self), n);
                assert(store_refs(*self).contains_key(names@[j]@));
            }
            assert(seen.len() <= filt.len() || !seen.subset_of(filt)) by {
                if seen.subset_of(filt) {
                    vstd::set_lib::lemma_len_subset(seen, filt);
                }
            }
            lemma_list_covers_dom(names@, store_refs(*self).dom());
            assert forall|n: Seq<char>| filt.contains(n) implies seen.contains(n) by {
                assert(store_refs(*self).dom().contains(n));
                let j = choose|j: int| 0 <= j < names@.len() && (#[trigger] names@[j])@ == n;
                assert(names@[j]@ == n && is_complete_entry_name(store_refs(*self), n));
            }
            assert(seen =~= filt);
        }
        Ok(count)
    }

    /// Whether the name is the metadata reference of a hash whose commit
    /// reference is also present.
    fn ref_names_complete_entry(&self, name: &String) -> (r: bool)
        ensures
            r == is_complete_entry_name(store_refs(*self), name@),
    {
        let ns = name.as_str();
        if ns.unicode_len() != 45 {
            return false;
        }
        let h = ns.substring_char(5, 37);
        proof {
            assert(h@ =~= name@.subrange(5, 37));
        }
        let expected = make_narinfo_ref(h);
        if !crate::narinfo::str_eq(ns, expected.as_str()) {
            return false;
        }
        proof {
            crate::refnames::lemma_pkg_names_in_namespace(h@);
        }
        let result_ref = make_result_ref(h);
        self.repo.ref_exists(result_ref.as_str())
    }

    /// The dependencies listed by the stored metadata of a hash: the
    /// parsed `References` field, in record order. An absent metadata
    /// reference is corrupted storage here, since the caller resolved the
    /// hash from the repository.
    pub fn get_dep_ids(&self, package_id: &str) -> (r: Result<Vec<NixPath>, StoreError>)
        ensures
            !store_refs(*self).contains_key(narinfo_ref_seq(package_id@)) ==> r is Err,
            match r {
                Ok(v) => {
                    &&& store_refs(*self).contains_key(narinfo_ref_seq(package_id@))
                    &&& (forall|i: int| 0 <= i < v@.len() ==> (#[trigger] v@[i]).wf())
                    &&& ({
                        let target = store_refs(*self)[narinfo_ref_seq(package_id@)];
                        let stored = crate::gitrepo::repo_blob_content(self.repo.repo, target);
                        crate::gitrepo::repo_blobs(self.repo.repo).contains(target) && all_ascii(
                            stored,
                        ) ==> spec_parse_narinfo(ascii_chars(stored)) is Some && paths_view(v@)
                            == spec_parse_narinfo(ascii_chars(stored))->0.references
                    })
                },
                Err(e) => e == StoreError::StorageFault,
            },
    {
        let blob = match self.get_narinfo(package_id)? {
            Some(d) => d,
            None => {
                return Err(StoreError::StorageFault);
            },
        };
        let text = match bytes_to_string(&blob) {
            Some(t) => t,
            None => {
                return Err(StoreError::StorageFault);
            },
        };
        let info = match NarInfo::parse(text.as_str()) {
            Ok(info) => info,
            Err(_) => {
                return Err(StoreError::StorageFault);
            },
        };
        let mut out: Vec<NixPath> = Vec::new();
        let deps = info.get_dependencies();
        let mut i: usize = 0;
        #[verifier::loop_isolation(false)]
        while i < deps.len()
            invariant
                i <= deps@.len(),
                out@.len() == i,
                forall|j: int| 0 <= j < deps@.len() ==> (#[trigger] deps@[j]).wf(),
                forall|j: int| 0 <= j < out@.len() ==> (#[trigger] out@[j]).wf(),
                forall|j: int| 0 <= j < i ==> (#[trigger] out@[j]).path@ == deps@[j].path@,
            decreases deps@.len() - i,
        {
            out.push(deps[i].clone());
            i = i + 1;
        }
        proof {
            let target = store_refs(*self)[narinfo_ref_seq(package_id@)];
            let stored = crate::gitrepo::repo_blob_content(self.repo.repo, target);
            if crate::gitrepo::repo_blobs(self.repo.repo).contains(target) && all_ascii(stored) {
                assert(blob@ == stored);
                assert(text@ == ascii_chars(stored));
                assert(spec_parse_narinfo(text@) == Some(info@));
                assert(paths_view(out@) =~= paths_view(info.references@));
            }
        }
        Ok(out)
    }
}

/// A list without duplicates whose members all lie in a finite set of the
/// same size covers the set.
proof fn lemma_list_covers_dom(names: Seq<String>, dom: Set<Seq<char>>)
    requires
        dom.finite(),
        names.len() == dom.len(),
        forall|i: int| 0 <= i < names.len() ==> dom.contains((#[trigger] names[i])@),
        forall|i: int, j: int|
            0 <= i < j < names.len() ==> (#[trigger] names[i])@ != (#[trigger] names[j])@,
    ensures
        forall|n: Seq<char>| dom.contains(n) ==> exists|i: int|
            0 <= i < names.len() && (#[trigger] names[i])@ == n,
    decreases names.len(),
{
    if names.len() > 0 {
        let last = names.last()@;
        let rest = names.drop_last();
        let dom2 = dom.remove(last);
        assert(dom.contains(last));
        assert(dom2.len() == dom.len() - 1);
        assert forall|i: int| 0 <= i < rest.len() implies dom2.contains((#[trigger] rest[i])@) by {
            assert(rest[i] == names[i]);
            assert(names[i]@ != last);
        }
        lemma_list_covers_dom(rest, dom2);
        assert forall|n: Seq<char>| dom.contains(n) implies exists|i: int|
            0 <= i < names.len() && (#[trigger] names[i])@ == n by {
            if n == last {
                assert(names[names.len() - 1]@ == n);
            } else {
                assert(dom2.contains(n));
                let i = choose|i: int| 0 <= i < rest.len() && (#[trigger] rest[i])@ == n;
                assert(names[i]@ == n);
            }
        }
    }
}

/// The characters of a byte string read code for code; faithful for
/// bytes below 128.
pub open spec fn ascii_chars(b: Seq<u8>) -> Seq<char> {
    b.map(|i: int, x: u8| x as char)
}

/// Whether every byte is below 128.
pub open spec fn all_ascii(b: Seq<u8>) -> bool {
    forall|i: int| 0 <= i < b.len() ==> #[trigger] b[i] < 128
}

/// Relies on String::from_utf8: bytes below 128 decode to the characters
/// with the same codes; other inputs may be refused.
#[verifier::external_body]
fn bytes_to_string(b: &Vec<u8>) -> (r: Option<String>)
    ensures
        match r {
            Some(s) => all_ascii(b@) ==> s@ == ascii_chars(b@),
            None => true,
        },
{
    match String::from_utf8(b.clone()) {
        Ok(s) => Some(s),
        Err(_) => None,
    }
}


/// The byte count and dependency list a daemon reports for a path.
pub struct PathInfoRecord {
    pub nar_size: u64,
    pub references: Vec<String>,
    pub deriver: Option<String>,
}

/// What came back from consulting one daemon about one path.
pub enum DaemonReply {
    /// The daemon has the path: the full archive bytes and the path
    /// metadata.
    Found { nar: Vec<u8>, info: PathInfoRecord },
    /// The daemon answered that it does not have the path.
    Missing,
    /// The daemon could not be reached or failed mid-request; it is
    /// skipped.
    Unavailable,
}

/// What the resolver asks its caller to do next.
pub enum Action {
    /// Consult the daemon with this index about this path and hand back
    /// the reply.
    QueryDaemon { daemon: usize, path: NixPath },
    /// The whole closure is in the repository; this is the root's commit.
    Done { commit: Vec<u8> },
    /// The closure could not be added; nothing was committed for the
    /// nodes still in flight.
    Failed { error: StoreError },
}

/// One package being resolved: what is known of it so far.
pub struct Frame {
    pub path: NixPath,
    pub daemon_idx: usize,
    pub ingested: bool,
    pub tree_oid: Vec<u8>,
    pub narinfo_oid: Vec<u8>,
    pub deps: Vec<NixPath>,
    pub next_dep: usize,
    pub parents: Vec<Vec<u8>>,
    pub rec: Ghost<NarInfo>,
}

/// An in-flight closure addition: the chain of packages between the root
/// and the node currently being fetched.
pub struct ClosureRun {
    pub root: NixPath,
    pub frames: Vec<Frame>,
    pub report: Ghost<RunReport>,
}

/// What the run committed for its root package: the metadata record, the
/// stored tree, the deduplicated dependencies and their commit ids, in
/// order.
pub struct RunReport {
    pub rec: NarInfo,
    pub tree: Seq<u8>,
    pub deps: Seq<NixPath>,
    pub parents: Seq<Seq<u8>>,
}

/// The bytes of an ASCII text, code for code.
pub open spec fn ascii_bytes(s: Seq<char>) -> Seq<u8> {
    s.map(|i: int, c: char| c as u8)
}

/// What a finished run guarantees of its root package, over the final
/// references `m`: the commit reference holds exactly the commit built
/// from the stored tree and the deduplicated dependencies' commits, in
/// first-listed order; the metadata reference targets the blob of the
/// canonical record text; the record parses back to itself and its
/// content key is the hexadecimal id of the stored tree.
pub open spec fn done_report_ok(
    rep: RunReport,
    root: NixPath,
    commit: Seq<u8>,
    m: Map<Seq<char>, Seq<u8>>,
) -> bool {
    &&& rep.rec.wf()
    &&& crate::narinfo::spec_parse_narinfo(crate::narinfo::narinfo_text_view(rep.rec@)) == Some(
        rep.rec@,
    )
    &&& rep.rec.store_path.path@ == root.path@
    &&& rep.rec.content_key@ == crate::chars::hex_of(rep.tree)
    &&& m.contains_key(narinfo_ref_seq(root.hash@))
    &&& m[narinfo_ref_seq(root.hash@)] == crate::gitrepo::git_blob_oid(
        ascii_bytes(crate::narinfo::narinfo_text_view(rep.rec@)),
    )
    &&& commit == crate::gitrepo::git_commit_oid(rep.tree, rep.parents, root.name@)
    &&& rep.parents.len() == rep.deps.len()
    &&& (forall|i: int|
        0 <= i < rep.deps.len() ==> m.contains_key(
            result_ref_seq((#[trigger] rep.deps[i]).hash@),
        ) && rep.parents[i] == m[result_ref_seq(rep.deps[i].hash@)])
    &&& (forall|i: int, j: int|
        0 <= i < j < rep.deps.len() ==> (#[trigger] rep.deps[i]).hash@ != (
        #[trigger] rep.deps[j]).hash@)
    &&& (forall|i: int|
        0 <= i < rep.deps.len() ==> has_hash(rep.rec.references@, (#[trigger] rep.deps[i]).hash@))
    &&& (forall|j: int|
        0 <= j < rep.rec.references@.len() ==> has_hash(
            rep.deps,
            (#[trigger] rep.rec.references@[j]).hash@,
        ))
}

/// Every old reference is still present.
pub open spec fn refs_monotone(old_m: Map<Seq<char>, Seq<u8>>, new_m: Map<Seq<char>, Seq<u8>>) -> bool {
    forall|n: Seq<char>| old_m.contains_key(n) ==> new_m.contains_key(n)
}

/// No existing package commit reference changed its target: references
/// are never rewritten to a different id within an operation.
pub open spec fn result_refs_stable(
    old_m: Map<Seq<char>, Seq<u8>>,
    new_m: Map<Seq<char>, Seq<u8>>,
) -> bool {
    forall|h: Seq<char>|
        h.len() == 32 && old_m.contains_key(#[trigger] result_ref_seq(h)) ==> new_m.contains_key(
            result_ref_seq(h),
        ) && new_m[result_ref_seq(h)] == old_m[result_ref_seq(h)]
}

/// What holds of one in-flight frame against the current references:
/// every dependency already resolved has its commit reference present,
/// and the gathered parents are exactly those commits, in order.
pub open spec fn frame_inv(f: Frame, m: Map<Seq<char>, Seq<u8>>) -> bool {
    &&& f.path.wf()
    &&& (f.ingested ==> {
        &&& f.next_dep <= f.deps@.len()
        &&& f.parents@.len() == f.next_dep
        &&& crate::gitrepo::is_oid(f.tree_oid@)
        &&& crate::gitrepo::is_oid(f.narinfo_oid@)
        &&& f.rec@.wf()
        &&& f.rec@.store_path.path@ == f.path.path@
        &&& f.rec@.content_key@ == crate::chars::hex_of(f.tree_oid@)
        &&& f.narinfo_oid@ == crate::gitrepo::git_blob_oid(
            ascii_bytes(crate::narinfo::narinfo_text_view(f.rec@@)),
        )
        &&& (forall|i: int| 0 <= i < f.deps@.len() ==> (#[trigger] f.deps@[i]).wf())
        &&& (forall|i: int|
            0 <= i < f.deps@.len() ==> has_hash(
                f.rec@.references@,
                (#[trigger] f.deps@[i]).hash@,
            ))
        &&& (forall|j: int|
            0 <= j < f.rec@.references@.len() ==> has_hash(
                f.deps@,
                (#[trigger] f.rec@.references@[j]).hash@,
            ))
        &&& (forall|i: int, j: int|
            0 <= i < j < f.deps@.len() ==> (#[trigger] f.deps@[i]).hash@ != (
            #[trigger] f.deps@[j]).hash@)
        &&& (forall|i: int|
            0 <= i < f.next_dep ==> m.contains_key(
                result_ref_seq((#[trigger] f.deps@[i]).hash@),
            ) && f.parents@[i]@ == m[result_ref_seq(f.deps@[i].hash@)])
    })
    &&& (!f.ingested ==> f.next_dep == 0 && f.parents@.len() == 0)
}

/// What holds of a whole run against the current references: besides each
/// frame's own invariant, every frame below the newest is ingested and
/// waits exactly for the package of the frame above it.
pub open spec fn run_inv_at(root: NixPath, frames: Seq<Frame>, m: Map<Seq<char>, Seq<u8>>) -> bool {
    &&& root.wf()
    &&& frames.len() <= MAX_DEPTH
    &&& (forall|i: int| 0 <= i < frames.len() ==> frame_inv(#[trigger] frames[i], m))
    &&& (forall|i: int|
        0 <= i < frames.len() - 1 ==> (#[trigger] frames[i]).ingested && frames[i].next_dep
            < frames[i].deps@.len() && frames[i + 1].path
            == frames[i].deps@[frames[i].next_dep as int])
    &&& (frames.len() > 0 ==> frames[0].path == root)
}

pub open spec fn run_inv(run: ClosureRun, m: Map<Seq<char>, Seq<u8>>) -> bool {
    run_inv_at(run.root, run.frames@, m)
}

impl ClosureRun {
    /// The run waits for a daemon reply about the newest frame.
    pub open spec fn expecting_daemon(self) -> bool {
        self.frames@.len() > 0 && !self.frames@.last().ingested
    }

    /// Whether the caller owes the run a daemon reply.
    pub fn is_expecting_daemon(&self) -> (r: bool)
        ensures
            r == self.expecting_daemon(),
    {
        let n = self.frames.len();
        n > 0 && !self.frames[n - 1].ingested
    }
}

/// Some member of `v` carries the hash `h`.
pub open spec fn has_hash(v: Seq<NixPath>, h: Seq<char>) -> bool {
    exists|i: int| 0 <= i < v.len() && (#[trigger] v[i]).hash@ == h
}

/// Keeps the first occurrence of each hash and drops later repeats, so a
/// dependency listed twice yields one parent.
fn dedup_paths(ps: &Vec<NixPath>) -> (r: Vec<NixPath>)
    requires
        forall|i: int| 0 <= i < ps@.len() ==> (#[trigger] ps@[i]).wf(),
    ensures
        forall|i: int| 0 <= i < r@.len() ==> (#[trigger] r@[i]).wf(),
        forall|i: int, j: int|
            0 <= i < j < r@.len() ==> (#[trigger] r@[i]).hash@ != (#[trigger] r@[j]).hash@,
        forall|i: int| 0 <= i < r@.len() ==> has_hash(ps@, (#[trigger] r@[i]).hash@),
        forall|j: int| 0 <= j < ps@.len() ==> has_hash(r@, (#[trigger] ps@[j]).hash@),
        r@.len() <= ps@.len(),
{
    let mut out: Vec<NixPath> = Vec::new();
    let mut i: usize = 0;
    #[verifier::loop_isolation(false)]
    while i < ps.len()
        invariant
            i <= ps@.len(),
            out@.len() <= i,
            forall|a: int| 0 <= a < out@.len() ==> (#[trigger] out@[a]).wf(),
            forall|a: int, b: int|
                0 <= a < b < out@.len() ==> (#[trigger] out@[a]).hash@ != (
                #[trigger] out@[b]).hash@,
            forall|a: int| 0 <= a < out@.len() ==> has_hash(ps@, (#[trigger] out@[a]).hash@),
            forall|j: int| 0 <= j < i ==> has_hash(out@, (#[trigger] ps@[j]).hash@),
        decreases ps@.len() - i,
    {
        let mut found = false;
        let mut k: usize = 0;
        #[verifier::loop_isolation(false)]
        while k < out.len()
            invariant
                k <= out@.len(),
                found ==> has_hash(out@, ps@[i as int].hash@),
                !found ==> forall|a: int|
                    0 <= a < k ==> (#[trigger] out@[a]).hash@ != ps@[i as int].hash@,
            decreases out@.len() - k,
        {
            if out[k].hash == ps[i].hash {
                found = true;
            }
            k = k + 1;
        }
        let ghost old_out = out@;
        if !found {
            out.push(ps[i].clone());
        }
        proof {
            assert forall|a: int| 0 <= a < out@.len() implies has_hash(
                ps@,
                (#[trigger] out@[a]).hash@,
            ) by {
                if a < old_out.len() {
                    assert(out@[a] == old_out[a]);
                } else {
                    assert(out@[a].hash@ == ps@[i as int].hash@);
                }
            }
            assert forall|j: int| 0 <= j < i + 1 implies has_hash(
                out@,
                (#[trigger] ps@[j]).hash@,
            ) by {
                if j < i {
                    let a = choose|a: int|
                        0 <= a < old_out.len() && (#[trigger] old_out[a]).hash@ == ps@[j].hash@;
                    assert(out@[a] == old_out[a]);
                    assert(out@[a].hash@ == ps@[j].hash@);
                } else {
                    if found {
                        let a = choose|a: int|
                            0 <= a < old_out.len() && (#[trigger] old_out[a]).hash@
                                == ps@[i as int].hash@;
                        assert(out@[a] == old_out[a]);
                        assert(out@[a].hash@ == ps@[j].hash@);
                    } else {
                        assert(out@[out@.len() - 1].hash@ == ps@[j].hash@);
                    }
                }
            }
        }
        i = i + 1;
    }
    out
}

/// Builds the metadata record for a freshly ingested package: the content
/// key is the id of the stored tree, size and dependencies come from the
/// daemon's report.
fn build_narinfo(info: &PathInfoRecord, key: String, store_path: &NixPath) -> (r: Result<
    NarInfo,
    StoreError,
>)
    requires
        store_path.wf(),
        key@.len() > 0,
        crate::chars::is_token_seq(key@),
    ensures
        r is Err <==> !(forall|i: int|
            0 <= i < info.references@.len() ==> crate::paths::is_store_path_seq(
                (#[trigger] info.references@[i])@,
            )) || (info.deriver matches Some(d) && !crate::paths::is_store_path_seq(d@)),
        match r {
            Ok(rec) => {
                &&& rec.wf()
                &&& rec.store_path == *store_path
                &&& rec.content_key@ == key@
                &&& rec.compression@ == Seq::<char>::empty()
                &&& rec.file_hash is None
                &&& rec.nar_size == info.nar_size
                &&& (match (rec.deriver, info.deriver) {
                    (Some(p), Some(d)) => p.path@ == d@,
                    (None, None) => true,
                    _ => false,
                })
                &&& rec.references@.len() == info.references@.len()
                &&& (forall|i: int|
                    0 <= i < rec.references@.len() ==> (#[trigger] rec.references@[i]).path@
                        == info.references@[i]@)
            },
            Err(e) => e == StoreError::InvalidPath,
        },
{
    let mut refs: Vec<NixPath> = Vec::new();
    let mut i: usize = 0;
    #[verifier::loop_isolation(false)]
    while i < info.references.len()
        invariant
            i <= info.references@.len(),
            refs@.len() == i,
            forall|j: int| 0 <= j < i ==> (#[trigger] refs@[j]).wf(),
            forall|j: int|
                0 <= j < i ==> (#[trigger] refs@[j]).path@ == info.references@[j]@,
            forall|j: int|
                0 <= j < i ==> crate::paths::is_store_path_seq((#[trigger] info.references@[j])@),
        decreases info.references@.len() - i,
    {
        let p = match NixPath::new(info.references[i].as_str()) {
            Ok(p) => p,
            Err(_) => {
                return Err(StoreError::InvalidPath);
            },
        };
        refs.push(p);
        i = i + 1;
    }
    let deriver = match &info.deriver {
        Some(d) => match NixPath::new(d.as_str()) {
            Ok(p) => Some(p),
            Err(_) => {
                return Err(StoreError::InvalidPath);
            },
        },
        None => None,
    };
    Ok(
        NarInfo::new(
            store_path.clone(),
            key,
            String::new(),
            None,
            info.nar_size,
            deriver,
            refs,
        ),
    )
}

/// The hexadecimal print of an id is a printable token.
proof fn lemma_hex_token(b: Seq<u8>)
    ensures
        crate::chars::is_token_seq(crate::chars::hex_of(b)),
        crate::chars::hex_of(b).len() == 2 * b.len(),
    decreases b.len(),
{
    if b.len() > 0 {
        lemma_hex_token(b.drop_last());
        let h = crate::chars::hex_of(b);
        let hp = crate::chars::hex_of(b.drop_last());
        crate::chars::lemma_digit_char_shape((b.last() / 16) as nat % 10);
        assert forall|i: int| 0 <= i < h.len() implies ' ' < #[trigger] h[i] && h[i] <= '~' by {
            if i < hp.len() {
                assert(h[i] == hp[i]);
            } else {
                let d = if i == h.len() - 2 {
                    (b.last() / 16) as nat
                } else {
                    (b.last() % 16) as nat
                };
                assert(h[i] == crate::chars::hex_digit_char(d));
                assert('0' as nat == 48 && 'a' as nat == 97 && ' ' as nat == 32 && '~' as nat
                    == 126);
                if d < 10 {
                    assert(crate::chars::hex_digit_char(d) as nat == d + 48);
                } else {
                    assert(crate::chars::hex_digit_char(d) as nat == d + 87);
                }
            }
        }
    }
}

/// Sets a reference, refusing to move one that already points at a
/// different id: within one operation a package reference is written
/// once.
fn set_ref_checked(repo: &mut GitRepo, name: &str, oid: &Vec<u8>) -> (r: Result<(), StoreError>)
    requires
        crate::gitrepo::in_refs_namespace(name@),
    ensures
        match r {
            Ok(()) => {
                &&& repo_refs(final(repo).repo) == repo_refs(old(repo).repo).insert(name@, oid@)
                &&& (repo_refs(old(repo).repo).contains_key(name@) ==> repo_refs(
                    old(repo).repo,
                )[name@] == oid@)
                &&& crate::gitrepo::objects_grow(old(repo).repo, final(repo).repo)
            },
            Err(e) => {
                &&& (e == StoreError::InvariantViolation || e == StoreError::StorageFault)
                &&& repo_refs(final(repo).repo) == repo_refs(old(repo).repo)
                &&& crate::gitrepo::objects_grow(old(repo).repo, final(repo).repo)
                &&& (e == StoreError::InvariantViolation ==> repo_refs(
                    old(repo).repo,
                ).contains_key(name@) && repo_refs(old(repo).repo)[name@] != oid@)
            },
        },
{
    match repo.ref_oid(name) {
        Some(prior) => {
            if crate::nar::bytes_eq(&prior, oid) {
                proof {
                    assert(repo_refs(repo.repo).insert(name@, oid@) =~= repo_refs(repo.repo));
                }
                Ok(())
            } else {
                Err(StoreError::InvariantViolation)
            }
        },
        None => repo.set_ref(name, oid),
    }
}


/// A commit reference of one hash that lies in another hash's namespace
/// names the same hash.
proof fn lemma_result_ref_namespace(h1: Seq<char>, h2: Seq<char>)
    requires
        h1.len() == 32,
        h2.len() == 32,
        crate::gitrepo::in_pkg_namespace(result_ref_seq(h1), h2),
    ensures
        h1 == h2,
{
    reveal_strlit("refs/");
    reveal_strlit("/result");
    let n = result_ref_seq(h1);
    let p = pkg_ref_seq(h2) + seq!['/'];
    assert(p.len() == 38);
    assert(n.len() == 44);
    assert forall|i: int| 0 <= i < 32 implies h1[i] == h2[i] by {
        assert(n.take(38)[5 + i] == n[5 + i]);
        assert(n[5 + i] == h1[i]);
        assert(p[5 + i] == h2[i]);
    }
    assert(h1 =~= h2);
}

/// A metadata reference never collides with a commit reference: their
/// lengths differ.
proof fn lemma_narinfo_not_result(h1: Seq<char>, h2: Seq<char>)
    requires
        h1.len() == 32,
        h2.len() == 32,
    ensures
        narinfo_ref_seq(h1) != result_ref_seq(h2),
{
    reveal_strlit("refs/");
    reveal_strlit("/result");
    reveal_strlit("/narinfo");
    assert(narinfo_ref_seq(h1).len() == 45);
    assert(result_ref_seq(h2).len() == 44);
}

/// A run keeps its invariant across any store step that only grows the
/// references and moves no commit reference.
proof fn lemma_run_inv_stable(
    root: NixPath,
    frames: Seq<Frame>,
    m1: Map<Seq<char>, Seq<u8>>,
    m2: Map<Seq<char>, Seq<u8>>,
)
    requires
        run_inv_at(root, frames, m1),
        refs_monotone(m1, m2),
        result_refs_stable(m1, m2),
    ensures
        run_inv_at(root, frames, m2),
{
    assert forall|i: int| 0 <= i < frames.len() implies frame_inv(#[trigger] frames[i], m2) by {
        let f = frames[i];
        assert(frame_inv(f, m1));
        if f.ingested {
            assert forall|j: int| 0 <= j < f.next_dep implies m2.contains_key(
                result_ref_seq((#[trigger] f.deps@[j]).hash@),
            ) && f.parents@[j]@ == m2[result_ref_seq(f.deps@[j].hash@)] by {
                assert(f.deps@[j].wf());
                assert(f.deps@[j].hash@.len() == 32);
                assert(m1.contains_key(result_ref_seq(f.deps@[j].hash@)));
            }
        }
    }
}

impl Store {
    /// Fetches one package's references from one remote; reports the
    /// commit id when the remote supplied it. A remote that cannot be
    /// reached or lacks the references is simply not a hit.
    fn fetch_from_remote(&mut self, package_id: &str, remote: &str) -> (r: Result<
        Option<Vec<u8>>,
        StoreError,
    >)
        requires
            package_id@.len() == 32,
            !store_refs(*old(self)).contains_key(result_ref_seq(package_id@)),
        ensures
            refs_monotone(store_refs(*old(self)), store_refs(*final(self))),
            result_refs_stable(store_refs(*old(self)), store_refs(*final(self))),
            final(self).settings == old(self).settings,
            match r {
                Ok(Some(o)) => store_refs(*final(self)).contains_key(result_ref_seq(package_id@))
                    && store_refs(*final(self))[result_ref_seq(package_id@)] == o@
                    && crate::gitrepo::is_oid(o@),
                Ok(None) => !store_refs(*final(self)).contains_key(result_ref_seq(package_id@)),
                Err(_) => false,
            },
    {
        match self.repo.fetch_pkg_refs(remote, package_id) {
            Ok(()) => {},
            Err(_) => {},
        }
        proof {
            assert forall|h: Seq<char>|
                h.len() == 32 && store_refs(*old(self)).contains_key(
                    #[trigger] result_ref_seq(h),
                ) implies store_refs(*self).contains_key(result_ref_seq(h)) && store_refs(
                *self,
            )[result_ref_seq(h)] == store_refs(*old(self))[result_ref_seq(h)] by {
                if crate::gitrepo::in_pkg_namespace(result_ref_seq(h), package_id@) {
                    lemma_result_ref_namespace(h, package_id@);
                }
            }
        }
        Ok(self.get_commit(package_id))
    }

    /// Asks the configured Git peers for a package, first hit wins, then
    /// walks the dependency graph fetching what is still missing from the
    /// same peer.
    pub fn get_package_commit_from_git_remotes(&mut self, store_path: &NixPath) -> (r: Result<
        Option<Vec<u8>>,
        StoreError,
    >)
        requires
            store_path.wf(),
            !store_refs(*old(self)).contains_key(result_ref_seq(store_path.hash@)),
        ensures
            refs_monotone(store_refs(*old(self)), store_refs(*final(self))),
            result_refs_stable(store_refs(*old(self)), store_refs(*final(self))),
            final(self).settings == old(self).settings,
            match r {
                Ok(Some(o)) => store_refs(*final(self)).contains_key(
                    result_ref_seq(store_path.hash@),
                ) && store_refs(*final(self))[result_ref_seq(store_path.hash@)] == o@
                    && crate::gitrepo::is_oid(o@),
                Ok(None) => !store_refs(*final(self)).contains_key(
                    result_ref_seq(store_path.hash@),
                ),
                Err(e) => e == StoreError::StorageFault,
            },
    {
        let package_id = String::from_str(store_path.get_base_32_hash());
        let mut commit_oid: Option<Vec<u8>> = None;
        let mut success_remote: Option<String> = None;
        let n_remotes = self.settings.remotes.len();
        let mut i: usize = 0;
        while i < n_remotes
            invariant
                n_remotes == self.settings.remotes@.len(),
                package_id@ == store_path.hash@,
                package_id@.len() == 32,
                refs_monotone(store_refs(*old(self)), store_refs(*self)),
                result_refs_stable(store_refs(*old(self)), store_refs(*self)),
                self.settings == old(self).settings,
                match commit_oid {
                    Some(ref o) => store_refs(*self).contains_key(result_ref_seq(
                        store_path.hash@,
                    )) && store_refs(*self)[result_ref_seq(store_path.hash@)] == o@
                        && crate::gitrepo::is_oid(o@) && success_remote is Some,
                    None => !store_refs(*self).contains_key(result_ref_seq(store_path.hash@)),
                },
            decreases n_remotes - i,
        {
            if commit_oid.is_none() {
                let url = self.settings.remotes[i].clone();
                match self.fetch_from_remote(package_id.as_str(), url.as_str())? {
                    Some(o) => {
                        commit_oid = Some(o);
                        success_remote = Some(url);
                    },
                    None => {},
                }
            }
            i = i + 1;
        }
        let oid = match commit_oid {
            Some(o) => o,
            None => {
                return Ok(None);
            },
        };
        let remote = success_remote.unwrap();
        let mut open_q: Vec<String> = Vec::new();
        let mut visited: Vec<String> = Vec::new();
        open_q.push(package_id.clone());
        visited.push(package_id);
        let mut budget: usize = 100000;
        while open_q.len() > 0 && budget > 0
            invariant
                store_path.wf(),
                refs_monotone(store_refs(*old(self)), store_refs(*self)),
                result_refs_stable(store_refs(*old(self)), store_refs(*self)),
                self.settings == old(self).settings,
                store_refs(*self).contains_key(result_ref_seq(store_path.hash@)),
                store_refs(*self)[result_ref_seq(store_path.hash@)] == oid@,
                crate::gitrepo::is_oid(oid@),
            decreases budget,
        {
            budget = budget - 1;
            let id = open_q.remove(0);
            let deps = match self.get_dep_ids(id.as_str()) {
                Ok(d) => d,
                Err(_) => {
                    continue ;
                },
            };
            let mut k: usize = 0;
            while k < deps.len()
                invariant
                    store_path.wf(),
                    refs_monotone(store_refs(*old(self)), store_refs(*self)),
                    result_refs_stable(store_refs(*old(self)), store_refs(*self)),
                    self.settings == old(self).settings,
                    store_refs(*self).contains_key(result_ref_seq(store_path.hash@)),
                    store_refs(*self)[result_ref_seq(store_path.hash@)] == oid@,
                    crate::gitrepo::is_oid(oid@),
                    forall|j: int| 0 <= j < deps@.len() ==> (#[trigger] deps@[j]).wf(),
                decreases deps@.len() - k,
            {
                let dep_hash = deps[k].get_base_32_hash();
                let mut seen = false;
                let mut v: usize = 0;
                while v < visited.len()
                    invariant
                        v <= visited@.len(),
                    decreases visited@.len() - v,
                {
                    if crate::narinfo::str_eq(visited[v].as_str(), dep_hash) {
                        seen = true;
                    }
                    v = v + 1;
                }
                if !seen {
                    if self.get_commit(dep_hash).is_none() {
                        let _ = self.fetch_from_remote(dep_hash, remote.as_str())?;
                    }
                    open_q.push(String::from_str(dep_hash));
                    visited.push(String::from_str(dep_hash));
                }
                k = k + 1;
            }
        }
        Ok(Some(oid))
    }

    /// Probes every configured peer: the caller supplies the outcome of
    /// each daemon probe, the store probes its Git remotes itself, and
    /// the overall answer is true only when every probe passed.
    pub fn peer_health_check(&self, daemon_results: &Vec<bool>) -> (r: bool)
        ensures
            r ==> forall|i: int| 0 <= i < daemon_results@.len() ==> #[trigger] daemon_results@[i],
            (forall|i: int| 0 <= i < daemon_results@.len() ==> #[trigger] daemon_results@[i])
                && self.settings.remotes@.len() == 0 ==> r,
    {
        let mut success = true;
        let mut i: usize = 0;
        #[verifier::loop_isolation(false)]
        while i < daemon_results.len()
            invariant
                i <= daemon_results@.len(),
                success ==> forall|j: int| 0 <= j < i ==> #[trigger] daemon_results@[j],
                (forall|j: int| 0 <= j < i ==> #[trigger] daemon_results@[j]) ==> success,
            decreases daemon_results@.len() - i,
        {
            if !daemon_results[i] {
                success = false;
            }
            i = i + 1;
        }
        let mut k: usize = 0;
        #[verifier::loop_isolation(false)]
        while k < self.settings.remotes.len()
            invariant
                k <= self.settings.remotes@.len(),
                success ==> forall|j: int|
                    0 <= j < daemon_results@.len() ==> #[trigger] daemon_results@[j],
                (forall|j: int| 0 <= j < daemon_results@.len() ==> #[trigger] daemon_results@[j])
                    && self.settings.remotes@.len() == 0 ==> success,
            decreases self.settings.remotes@.len() - k,
        {
            match self.repo.check_remote(self.settings.remotes[k].as_str()) {
                Ok(()) => {},
                Err(_) => {
                    success = false;
                },
            }
            k = k + 1;
        }
        success
    }
}


/// Dependencies of the newest frame that still wait for a commit.
pub open spec fn frame_work(f: Frame) -> nat {
    if f.next_dep <= f.deps@.len() {
        (f.deps@.len() - f.next_dep) as nat
    } else {
        0
    }
}

/// Dependencies across the whole run that still wait for a commit.
pub open spec fn work_left(fs: Seq<Frame>) -> nat
    decreases fs.len(),
{
    if fs.len() == 0 {
        0
    } else {
        work_left(fs.drop_last()) + frame_work(fs.last())
    }
}

proof fn lemma_work_push(fs: Seq<Frame>, f: Frame)
    ensures
        work_left(fs.push(f)) == work_left(fs) + frame_work(f),
{
    assert(fs.push(f).drop_last() =~= fs);
    assert(fs.push(f).last() == f);
}

/// What every resolver step guarantees of the repository: references only
/// grow and no package commit reference moves.
pub open spec fn step_refs_ok(before: Store, after: Store) -> bool {
    &&& refs_monotone(store_refs(before), store_refs(after))
    &&& result_refs_stable(store_refs(before), store_refs(after))
    &&& after.settings == before.settings
}

impl Store {
    /// Starts adding the closure of `path`: a package already present is
    /// answered at once and changes nothing; otherwise peers are tried,
    /// and failing those the run asks for the first daemon's answer.
    pub fn add_closure_begin(&mut self, path: &NixPath) -> (r: (ClosureRun, Action))
        requires
            path.wf(),
        ensures
            step_refs_ok(*old(self), *final(self)),
            r.0.root == *path,
            run_inv(r.0, store_refs(*final(self))),
            store_refs(*old(self)).contains_key(result_ref_seq(path.hash@)) ==> store_refs(
                *final(self),
            ) == store_refs(*old(self)) && (r.1 matches Action::Done { commit } && commit@
                == store_refs(*old(self))[result_ref_seq(path.hash@)]),
            match r.1 {
                Action::Done { commit } => store_refs(*final(self)).contains_key(
                    result_ref_seq(path.hash@),
                ) && store_refs(*final(self))[result_ref_seq(path.hash@)] == commit@,
                Action::QueryDaemon { daemon, path: qp } => r.0.expecting_daemon() && daemon
                    == 0 && daemon_specs(final(self).settings).len() > 0 && qp == *path,
                Action::Failed { error } => (error == StoreError::Unresolvable || error
                    == StoreError::StorageFault) && (error == StoreError::Unresolvable
                    ==> daemon_specs(final(self).settings).len() == 0),
            },
    {
        let run = ClosureRun {
            root: path.clone(),
            frames: Vec::new(),
            report: Ghost(vstd::pervasive::arbitrary()),
        };
        if let Some(c) = self.get_commit(path.get_base_32_hash()) {
            return (run, Action::Done { commit: c });
        }
        match self.get_package_commit_from_git_remotes(path) {
            Ok(Some(c)) => {
                return (run, Action::Done { commit: c });
            },
            Ok(None) => {},
            Err(e) => {
                return (run, Action::Failed { error: e });
            },
        }
        let daemons = match self.available_daemons() {
            Ok(d) => d,
            Err(e) => {
                return (run, Action::Failed { error: e });
            },
        };
        if daemons.len() == 0 {
            return (run, Action::Failed { error: StoreError::Unresolvable });
        }
        let mut run = run;
        run.frames.push(
            Frame {
                path: path.clone(),
                ingested: false,
                tree_oid: Vec::new(),
                narinfo_oid: Vec::new(),
                deps: Vec::new(),
                next_dep: 0,
                parents: Vec::new(),
                daemon_idx: 0,
                rec: Ghost(vstd::pervasive::arbitrary()),
            },
        );
        (run, Action::QueryDaemon { daemon: 0, path: path.clone() })
    }

    /// Feeds one daemon's answer to the run. An unavailable daemon, or
    /// one without the path, is skipped for the next configured daemon;
    /// when none is left the node, and with it the whole closure, is
    /// unresolvable. A found package is ingested and its dependencies are
    /// resolved next.
    #[verifier::rlimit(100)]
    pub fn add_closure_reply(&mut self, run: &mut ClosureRun, reply: DaemonReply) -> (act: Action)
        requires
            old(run).expecting_daemon(),
            run_inv(*old(run), store_refs(*old(self))),
        ensures
            step_refs_ok(*old(self), *final(self)),
            final(run).root == old(run).root,
            (reply is Missing || reply is Unavailable) ==> store_refs(*final(self)) == store_refs(
                *old(self),
            ),
            (reply is Missing || reply is Unavailable) && old(run).frames@.last().daemon_idx + 1
                < daemon_specs(old(self).settings).len() ==> (act matches Action::QueryDaemon {
                daemon,
                path,
            } && daemon == old(run).frames@.last().daemon_idx + 1 && path
                == old(run).frames@.last().path),
            (reply is Missing || reply is Unavailable) && old(run).frames@.last().daemon_idx + 1
                >= daemon_specs(old(self).settings).len() ==> act == (Action::Failed {
                error: StoreError::Unresolvable,
            }),
            reply is Found && act is Failed ==> act->Failed_error != StoreError::Unresolvable,
            act matches Action::Done { commit } ==> done_report_ok(
                final(run).report@,
                old(run).root,
                commit@,
                store_refs(*final(self)),
            ),
            match act {
                Action::Done { commit } => store_refs(*final(self)).contains_key(
                    result_ref_seq(old(run).root.hash@),
                ) && store_refs(*final(self))[result_ref_seq(old(run).root.hash@)] == commit@,
                Action::QueryDaemon { daemon, path: qp } => final(run).expecting_daemon()
                    && run_inv(*final(run), store_refs(*final(self))),
                Action::Failed { error } => error != StoreError::DepthExceeded || final(run).frames@.len() == MAX_DEPTH,
            },
    {
        let n_daemons = match self.available_daemons() {
            Ok(d) => d.len(),
            Err(e) => {
                return Action::Failed { error: e };
            },
        };
        let mut f = run.frames.pop().unwrap();
        match reply {
            DaemonReply::Missing | DaemonReply::Unavailable => {
                if f.daemon_idx < n_daemons && f.daemon_idx + 1 < n_daemons {
                    f.daemon_idx = f.daemon_idx + 1;
                    let d = f.daemon_idx;
                    let p = f.path.clone();
                    run.frames.push(f);
                    proof {
                        assert(run.frames@ =~= old(run).frames@.drop_last().push(
                            run.frames@.last(),
                        ));
                        assert forall|i: int| 0 <= i < run.frames@.len() implies frame_inv(
                            #[trigger] run.frames@[i],
                            store_refs(*self),
                        ) by {
                            if i < run.frames@.len() - 1 {
                                assert(run.frames@[i] == old(run).frames@[i]);
                            }
                        }
                        assert(run.frames@[0].path == old(run).frames@[0].path) by {
                            if run.frames@.len() > 1 {
                                assert(run.frames@[0] == old(run).frames@[0]);
                            }
                        }
                    }
                    Action::QueryDaemon { daemon: d, path: p }
                } else {
                    Action::Failed { error: StoreError::Unresolvable }
                }
            },
            DaemonReply::Found { nar, info } => {
                let (node, tree_oid, _used) = match crate::ingest::ingest_archive(
                    &mut self.repo,
                    &nar,
                ) {
                    Ok(d) => d,
                    Err(e) => {
                        return Action::Failed { error: e };
                    },
                };
                let mut key = String::new();
                crate::chars::append_hex(&mut key, &tree_oid);
                proof {
                    lemma_hex_token(tree_oid@);
                }
                let rec = match build_narinfo(&info, key, &f.path) {
                    Ok(rec) => rec,
                    Err(e) => {
                        return Action::Failed { error: e };
                    },
                };
                let text = rec.to_text();
                let ts = text.as_str();
                if !ts.is_ascii() {
                    return Action::Failed { error: StoreError::StorageFault };
                }
                let bytes = ts.as_bytes_vec();
                proof {
                    vstd::string::is_ascii_spec_bytes(ts);
                    assert(bytes@ =~= ascii_bytes(text@));
                }
                let narinfo_oid = match self.repo.blob(bytes.as_slice()) {
                    Ok(o) => o,
                    Err(e) => {
                        return Action::Failed { error: e };
                    },
                };
                let deps = dedup_paths(rec.get_dependencies());
                f.tree_oid = tree_oid;
                f.narinfo_oid = narinfo_oid;
                f.deps = deps;
                f.next_dep = 0;
                f.parents = Vec::new();
                f.ingested = true;
                proof {
                    f.rec@ = rec;
                }
                run.frames.push(f);
                proof {
                    assert(run.frames@ =~= old(run).frames@.drop_last().push(
                        run.frames@.last(),
                    ));
                    assert forall|i: int| 0 <= i < run.frames@.len() implies frame_inv(
                        #[trigger] run.frames@[i],
                        store_refs(*self),
                    ) by {
                        if i < run.frames@.len() - 1 {
                            assert(run.frames@[i] == old(run).frames@[i]);
                            assert(frame_inv(old(run).frames@[i], store_refs(*old(self))));
                        }
                    }
                    assert(run.frames@[0].path == old(run).frames@[0].path) by {
                        if run.frames@.len() > 1 {
                            assert(run.frames@[0] == old(run).frames@[0]);
                        }
                    }
                }
                self.advance_run(run)
            },
        }
    }

    /// Works through the run: resolves the newest frame's remaining
    /// dependencies locally or from peers, descends into one that needs a
    /// daemon, and commits finished frames, writing both references
    /// together.
    #[verifier::rlimit(100)]
    fn advance_run(&mut self, run: &mut ClosureRun) -> (act: Action)
        requires
            run_inv(*old(run), store_refs(*old(self))),
            old(run).frames@.len() > 0,
            forall|i: int| 0 <= i < old(run).frames@.len() ==> (#[trigger] old(run).frames@[i]).ingested,
        ensures
            step_refs_ok(*old(self), *final(self)),
            final(run).root == old(run).root,
            act matches Action::Done { commit } ==> done_report_ok(
                final(run).report@,
                old(run).root,
                commit@,
                store_refs(*final(self)),
            ),
            match act {
                Action::Done { commit } => store_refs(*final(self)).contains_key(
                    result_ref_seq(old(run).root.hash@),
                ) && store_refs(*final(self))[result_ref_seq(old(run).root.hash@)] == commit@,
                Action::QueryDaemon { daemon, path: qp } => final(run).expecting_daemon()
                    && run_inv(*final(run), store_refs(*final(self))),
                Action::Failed { error } => error != StoreError::Unresolvable && (error
                    != StoreError::DepthExceeded || final(run).frames@.len() == MAX_DEPTH),
            },
    {
        loop
            invariant
                run_inv(*run, store_refs(*self)),
                run.frames@.len() > 0,
                forall|i: int| 0 <= i < run.frames@.len() ==> (#[trigger] run.frames@[i]).ingested,
                run.root == old(run).root,
                step_refs_ok(*old(self), *self),
            decreases work_left(run.frames@) + run.frames@.len(),
        {
            let ghost pre_frames = run.frames@;
            let ghost pre_store = *self;
            let mut f = run.frames.pop().unwrap();
            proof {
                assert(pre_frames.drop_last().push(f) =~= pre_frames);
            }
            if f.next_dep < f.deps.len() {
                let dep = f.deps[f.next_dep].clone();
                proof {
                    assert(f.deps@[f.next_dep as int].wf());
                }
                let hit: Option<Vec<u8>> = match self.get_commit(dep.get_base_32_hash()) {
                    Some(c) => Some(c),
                    None => {
                        match self.get_package_commit_from_git_remotes(&dep) {
                            Ok(o) => o,
                            Err(e) => {
                                return Action::Failed { error: e };
                            },
                        }
                    },
                };
                match hit {
                    Some(c) => {
                        f.parents.push(c);
                        f.next_dep = f.next_dep + 1;
                        run.frames.push(f);
                        proof {
                            lemma_run_inv_stable(
                                run.root,
                                pre_frames,
                                store_refs(pre_store),
                                store_refs(*self),
                            );
                            assert forall|i: int| 0 <= i < run.frames@.len() implies frame_inv(
                                #[trigger] run.frames@[i],
                                store_refs(*self),
                            ) by {
                                if i < run.frames@.len() - 1 {
                                    assert(run.frames@[i] == pre_frames[i]);
                                }
                            }
                            assert(run.frames@[0].path == pre_frames[0].path) by {
                                if run.frames@.len() > 1 {
                                    assert(run.frames@[0] == pre_frames[0]);
                                }
                            }
                            assert(pre_frames =~= pre_frames.drop_last().push(
                                pre_frames.last(),
                            ));
                            lemma_work_push(pre_frames.drop_last(), pre_frames.last());
                            assert(run.frames@ =~= pre_frames.drop_last().push(
                                run.frames@.last(),
                            ));
                            lemma_work_push(pre_frames.drop_last(), run.frames@.last());
                            assert(frame_work(run.frames@.last()) < frame_work(
                                pre_frames.last(),
                            ));
                        }
                    },
                    None => {
                        run.frames.push(f);
                        proof {
                            lemma_run_inv_stable(
                                run.root,
                                pre_frames,
                                store_refs(pre_store),
                                store_refs(*self),
                            );
                            assert(run.frames@ =~= pre_frames);
                        }
                        if run.frames.len() == MAX_DEPTH {
                            return Action::Failed { error: StoreError::DepthExceeded };
                        }
                        run.frames.push(
                            Frame {
                                path: dep.clone(),
                                ingested: false,
                                tree_oid: Vec::new(),
                                narinfo_oid: Vec::new(),
                                deps: Vec::new(),
                                next_dep: 0,
                                parents: Vec::new(),
                                daemon_idx: 0,
                                rec: Ghost(vstd::pervasive::arbitrary()),
                            },
                        );
                        proof {
                            assert forall|i: int| 0 <= i < run.frames@.len() implies frame_inv(
                                #[trigger] run.frames@[i],
                                store_refs(*self),
                            ) by {
                                if i < run.frames@.len() - 1 {
                                    assert(run.frames@[i] == pre_frames[i]);
                                }
                            }
                            assert(run.frames@[0] == pre_frames[0]);
                        }
                        return Action::QueryDaemon { daemon: 0, path: dep };
                    },
                }
            } else {
                let c = match self.repo.commit(&f.tree_oid, &f.parents, f.path.get_name()) {
                    Ok(c) => c,
                    Err(e) => {
                        return Action::Failed { error: e };
                    },
                };
                let result_ref = make_result_ref(f.path.get_base_32_hash());
                let narinfo_ref = make_narinfo_ref(f.path.get_base_32_hash());
                proof {
                    crate::refnames::lemma_pkg_names_in_namespace(f.path.hash@);
                }
                let ghost mid_store = *self;
                match set_ref_checked(&mut self.repo, narinfo_ref.as_str(), &f.narinfo_oid) {
                    Ok(()) => {},
                    Err(e) => {
                        return Action::Failed { error: e };
                    },
                }
                proof {
                    assert forall|h: Seq<char>|
                        h.len() == 32 && store_refs(mid_store).contains_key(
                            #[trigger] result_ref_seq(h),
                        ) implies store_refs(*self).contains_key(result_ref_seq(h))
                        && store_refs(*self)[result_ref_seq(h)] == store_refs(
                        mid_store,
                    )[result_ref_seq(h)] by {
                        lemma_narinfo_not_result(f.path.hash@, h);
                    }
                }
                let ghost mid2_store = *self;
                match set_ref_checked(&mut self.repo, result_ref.as_str(), &c) {
                    Ok(()) => {},
                    Err(e) => {
                        return Action::Failed { error: e };
                    },
                }
                proof {
                    assert forall|h: Seq<char>|
                        h.len() == 32 && store_refs(mid2_store).contains_key(
                            #[trigger] result_ref_seq(h),
                        ) implies store_refs(*self).contains_key(result_ref_seq(h))
                        && store_refs(*self)[result_ref_seq(h)] == store_refs(
                        mid2_store,
                    )[result_ref_seq(h)] by {
                        if result_ref_seq(h) != result_ref_seq(f.path.hash@) {
                        } else {
                            crate::refnames::lemma_ref_names_distinct(h, f.path.hash@);
                        }
                    }
                    assert(store_refs(*self).contains_key(result_ref_seq(f.path.hash@)));
                    assert(store_refs(*self)[result_ref_seq(f.path.hash@)] == c@);
                }
                if run.frames.len() == 0 {
                    proof {
                        assert(f == pre_frames[0]);
                        assert(f.path == run.root);
                        run.report@ = RunReport {
                            rec: f.rec@,
                            tree: f.tree_oid@,
                            deps: f.deps@,
                            parents: crate::gitrepo::parent_oids_view(f.parents@),
                        };
                        crate::narinfo::lemma_narinfo_round_trip(f.rec@);
                        crate::refnames::lemma_ref_names_distinct(f.path.hash@, f.path.hash@);
                        assert(store_refs(*self)[narinfo_ref_seq(f.path.hash@)]
                            == f.narinfo_oid@);
                    }
                    return Action::Done { commit: c };
                }
                let mut pf = run.frames.pop().unwrap();
                proof {
                    assert(pf == pre_frames.drop_last().last());
                    assert(pre_frames.drop_last().len() == pre_frames.len() - 1);
                    assert(pre_frames.drop_last()[pre_frames.len() - 2] == pre_frames[pre_frames.len() - 2]);
                    assert(pf == pre_frames[pre_frames.len() - 2]);
                    assert(pf.ingested && pf.next_dep < pf.deps@.len());
                }
                let dl = pf.deps.len();
                proof {
                    assert(pf.next_dep < dl);
                }
                pf.parents.push(c);
                pf.next_dep = pf.next_dep + 1;
                run.frames.push(pf);
                proof {
                    let dldl = pre_frames.drop_last().drop_last();
                    assert(pre_frames.drop_last() =~= dldl.push(
                        pre_frames[pre_frames.len() - 2],
                    ));
                    lemma_work_push(dldl, pre_frames[pre_frames.len() - 2]);
                    assert(pre_frames =~= pre_frames.drop_last().push(pre_frames.last()));
                    lemma_work_push(pre_frames.drop_last(), pre_frames.last());
                    assert(frame_work(pre_frames.last()) == 0);
                    assert(run.frames@ =~= dldl.push(run.frames@.last()));
                    lemma_work_push(dldl, run.frames@.last());
                    assert(frame_work(run.frames@.last()) < frame_work(
                        pre_frames[pre_frames.len() - 2],
                    ));
                    let m2 = store_refs(*self);
                    lemma_run_inv_stable(run.root, pre_frames, store_refs(pre_store), m2);
                    assert forall|i: int| 0 <= i < run.frames@.len() implies frame_inv(
                        #[trigger] run.frames@[i],
                        m2,
                    ) by {
                        if i < run.frames@.len() - 1 {
                            assert(run.frames@[i] == pre_frames[i]);
                        } else {
                            let old_pf = pre_frames[i];
                            assert(frame_inv(old_pf, m2));
                            assert(old_pf.deps@[old_pf.next_dep as int] == pre_frames[i + 1].path);
                            assert(pre_frames[i + 1] == f);
                            assert(run.frames@[i].deps@[old_pf.next_dep as int] == f.path);
                            assert(m2.contains_key(result_ref_seq(f.path.hash@)));
                            assert(run.frames@[i].parents@[old_pf.next_dep as int]@ == c@);
                        }
                    }
                    assert(run.frames@[0].path == pre_frames[0].path) by {
                        if run.frames@.len() > 1 {
                            assert(run.frames@[0] == pre_frames[0]);
                        } else {
                            assert(run.frames@[0].path == pre_frames[0].path);
                        }
                    }
                    assert forall|i: int| 0 <= i < run.frames@.len() - 1 implies (
                    #[trigger] run.frames@[i]).ingested && run.frames@[i].next_dep
                        < run.frames@[i].deps@.len() && run.frames@[i + 1].path
                        == run.frames@[i].deps@[run.frames@[i].next_dep as int] by {
                        assert(run.frames@[i] == pre_frames[i]);
                        if i + 1 < run.frames@.len() - 1 {
                            assert(run.frames@[i + 1] == pre_frames[i + 1]);
                        } else {
                            assert(run.frames@[i + 1].path == pre_frames[i + 1].path);
                        }
                    }
                }
            }
        }
    }
}




impl Store {
    /// Streams a stored entry back in the canonical archive format, keyed
    /// by the hexadecimal id of its root tree. The bytes are the
    /// canonical print of a node that maps to exactly that id; a key that
    /// is not a hexadecimal print is refused, and only such keys are.
    pub fn get_as_nar_stream(&self, key: &str) -> (r: Result<
        Option<(crate::nar::NarNode, Vec<u8>)>,
        StoreError,
    >)
        ensures
            r is Err <==> !crate::chars::is_hex_seq(key@),
            match r {
                Ok(Some(d)) => {
                    &&& crate::nar::valid_node(d.0)
                    &&& d.1@ == crate::nar::encode_nar(d.0)
                    &&& crate::chars::hex_of(crate::ingest::git_node_oid(d.0)) == key@
                },
                Ok(None) => true,
                Err(e) => e == StoreError::InvalidPath,
            },
    {
        let oid = match crate::chars::parse_hex(key) {
            Some(b) => b,
            None => {
                return Err(StoreError::InvalidPath);
            },
        };
        proof {
            crate::chars::lemma_hex_of_is_hex_seq(oid@);
        }
        match crate::ingest::emit_archive(&self.repo, &oid) {
            Ok((node, bytes)) => Ok(Some((node, bytes))),
            Err(_) => Ok(None),
        }
    }
}

} // verus!
