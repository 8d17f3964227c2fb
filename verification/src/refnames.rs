use vstd::prelude::*;

verus! {

// Deterministic Git reference names for the per-package artifacts.
// A package with base-32 hash `H` owns exactly two references:
// `refs/<H>/result` (the package commit) and `refs/<H>/narinfo`
// (the metadata blob).

/// The reference namespace shared by every package: `refs/<hash>`.
pub open spec fn pkg_ref_seq(h: Seq<char>) -> Seq<char> {
    "refs/"@ + h
}

/// The reference that names the package commit: `refs/<hash>/result`.
pub open spec fn result_ref_seq(h: Seq<char>) -> Seq<char> {
    pkg_ref_seq(h) + "/result"@
}

/// The reference that names the metadata blob: `refs/<hash>/narinfo`.
pub open spec fn narinfo_ref_seq(h: Seq<char>) -> Seq<char> {
    pkg_ref_seq(h) + "/narinfo"@
}

pub fn make_pkg_ref(h: &str) -> (r: String)
    ensures
        r@ == pkg_ref_seq(h@),
{
    let mut s = String::from_str("refs/");
    s.append(h);
    s
}

pub fn make_result_ref(h: &str) -> (r: String)
    ensures
        r@ == result_ref_seq(h@),
{
    let mut s = make_pkg_ref(h);
    s.append("/result");
    s
}

pub fn make_narinfo_ref(h: &str) -> (r: String)
    ensures
        r@ == narinfo_ref_seq(h@),
{
    let mut s = make_pkg_ref(h);
    s.append("/narinfo");
    s
}

/// The two reference names of one hash differ, and references of different
/// hashes differ, as long as the hashes have the fixed 32-character length.
pub proof fn lemma_ref_names_distinct(h1: Seq<char>, h2: Seq<char>)
    requires
        h1.len() == 32,
        h2.len() == 32,
    ensures
        result_ref_seq(h1) != narinfo_ref_seq(h2),
        h1 != h2 ==> result_ref_seq(h1) != result_ref_seq(h2),
        h1 != h2 ==> narinfo_ref_seq(h1) != narinfo_ref_seq(h2),
{
    reveal_strlit("refs/");
    reveal_strlit("/result");
    reveal_strlit("/narinfo");
    assert(result_ref_seq(h1).len() == 44);
    assert(narinfo_ref_seq(h2).len() == 45);
    if h1 != h2 {
        let i = choose|i: int| 0 <= i < 32 && h1[i] != h2[i];
        assert(exists|i: int| 0 <= i < 32 && h1[i] != h2[i]) by {
            assert(!(h1 =~= h2));
        }
        assert(result_ref_seq(h1)[5 + i] == h1[i]);
        assert(result_ref_seq(h2)[5 + i] == h2[i]);
        assert(narinfo_ref_seq(h1)[5 + i] == h1[i]);
        assert(narinfo_ref_seq(h2)[5 + i] == h2[i]);
    }
}


/// Every package reference name lies under `refs/`.
pub proof fn lemma_pkg_names_in_namespace(h: Seq<char>)
    ensures
        crate::gitrepo::in_refs_namespace(pkg_ref_seq(h)),
        crate::gitrepo::in_refs_namespace(result_ref_seq(h)),
        crate::gitrepo::in_refs_namespace(narinfo_ref_seq(h)),
{
    reveal_strlit("refs/");
    assert(pkg_ref_seq(h).take(5) =~= "refs/"@);
    assert(result_ref_seq(h).take(5) =~= "refs/"@);
    assert(narinfo_ref_seq(h).take(5) =~= "refs/"@);
}

} // verus!
