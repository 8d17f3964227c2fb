use vstd::prelude::*;

use crate::chars::{check_base32_char, check_name_char, is_base32_char, is_name_char};
use crate::errors::StoreError;

verus! {

/// The fixed directory prefix under which every store path lives.
pub open spec fn store_dir_prefix() -> Seq<char> {
    seq!['/', 'n', 'i', 'x', '/', 's', 't', 'o', 'r', 'e', '/']
}

/// Whether `s` has the store-path form: the store directory prefix, a
/// 32-character base-32 hash, a dash, and a nonempty name.
pub open spec fn is_store_path_seq(s: Seq<char>) -> bool {
    &&& s.len() >= 45
    &&& s.subrange(0, 11) == store_dir_prefix()
    &&& (forall|i: int| 11 <= i < 43 ==> is_base32_char(#[trigger] s[i]))
    &&& s[43] == '-'
    &&& (forall|i: int| 44 <= i < s.len() ==> is_name_char(#[trigger] s[i]))
}

/// A parsed store path: the full path plus its base-32 hash and its name.
/// Treat the fields as read-only; `new` is the only constructor that
/// guarantees `wf`.
#[derive(Debug, PartialEq, Eq, Hash)]
pub struct NixPath {
    pub path: String,
    pub hash: String,
    pub name: String,
}

impl Clone for NixPath {
    fn clone(&self) -> (r: Self)
        ensures
            r == *self,
    {
        NixPath { path: self.path.clone(), hash: self.hash.clone(), name: self.name.clone() }
    }
}

impl NixPath {
    /// The parts agree with the full path and lie in their alphabets.
    pub open spec fn wf(self) -> bool {
        &&& self.hash@.len() == 32
        &&& (forall|i: int| 0 <= i < 32 ==> is_base32_char(#[trigger] self.hash@[i]))
        &&& self.name@.len() > 0
        &&& (forall|i: int| 0 <= i < self.name@.len() ==> is_name_char(#[trigger] self.name@[i]))
        &&& self.path@ == store_dir_prefix() + self.hash@ + seq!['-'] + self.name@
    }

    /// Parses a store path. Returns `InvalidPath` exactly when the input
    /// does not have the `<prefix>/<hash>-<name>` form.
    pub fn new(s: &str) -> (r: Result<NixPath, StoreError>)
        ensures
            r is Ok <==> is_store_path_seq(s@),
            match r {
                Ok(p) => {
                    &&& p.wf()
                    &&& p.path@ == s@
                    &&& p.hash@ == s@.subrange(11, 43)
                    &&& p.name@ == s@.subrange(44, s@.len() as int)
                },
                Err(e) => e == StoreError::InvalidPath,
            },
    {
        let n = s.unicode_len();
        if n < 45 {
            return Err(StoreError::InvalidPath);
        }
        let prefix = "/nix/store/";
        proof {
            reveal_strlit("/nix/store/");
            assert(prefix@ =~= store_dir_prefix());
        }
        let mut i: usize = 0;
        while i < 11
            invariant
                i <= 11,
                n == s@.len(),
                n >= 45,
                prefix@ == store_dir_prefix(),
                forall|j: int| 0 <= j < i ==> s@[j] == store_dir_prefix()[j],
            decreases 11 - i,
        {
            if s.get_char(i) != prefix.get_char(i) {
                proof {
                    assert(s@.subrange(0, 11)[i as int] == s@[i as int]);
                }
                return Err(StoreError::InvalidPath);
            }
            i = i + 1;
        }
        proof {
            assert(s@.subrange(0, 11) =~= store_dir_prefix());
        }
        let mut i: usize = 11;
        while i < 43
            invariant
                11 <= i <= 43,
                n == s@.len(),
                n >= 45,
                forall|j: int| 11 <= j < i ==> is_base32_char(#[trigger] s@[j]),
            decreases 43 - i,
        {
            if !check_base32_char(s.get_char(i)) {
                return Err(StoreError::InvalidPath);
            }
            i = i + 1;
        }
        if s.get_char(43) != '-' {
            return Err(StoreError::InvalidPath);
        }
        let mut i: usize = 44;
        while i < n
            invariant
                44 <= i <= n,
                n == s@.len(),
                n >= 45,
                forall|j: int| 44 <= j < i ==> is_name_char(#[trigger] s@[j]),
            decreases n - i,
        {
            if !check_name_char(s.get_char(i)) {
                return Err(StoreError::InvalidPath);
            }
            i = i + 1;
        }
        let hash = String::from_str(s.substring_char(11, 43));
        let name = String::from_str(s.substring_char(44, n));
        let path = String::from_str(s);
        proof {
            assert(s@ =~= store_dir_prefix() + s@.subrange(11, 43) + seq!['-'] + s@.subrange(
                44,
                s@.len() as int,
            ));
        }
        Ok(NixPath { path, hash, name })
    }

    /// The full store path.
    pub fn get_path(&self) -> (r: &str)
        ensures
            r@ == self.path@,
    {
        self.path.as_str()
    }

    /// The 32-character base-32 hash part.
    pub fn get_base_32_hash(&self) -> (r: &str)
        ensures
            r@ == self.hash@,
    {
        self.hash.as_str()
    }

    /// The human-readable name part.
    pub fn get_name(&self) -> (r: &str)
        ensures
            r@ == self.name@,
    {
        self.name.as_str()
    }
}


} // verus!
