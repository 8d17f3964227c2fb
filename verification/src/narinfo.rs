use vstd::prelude::*;

use crate::chars::{dec_digits, dec_value, is_digit_char, is_token_seq, lemma_dec_value_prefix};
use crate::errors::StoreError;
use crate::paths::{is_store_path_seq, NixPath};

verus! {

// The per-package metadata record: store path, content key, sizes,
// deriver and the list of referenced store paths. It serializes to a
// line-oriented `Key: value` text with a fixed field order and a trailing
// newline; parsing is the inverse and ignores unknown keys.

/// The mathematical content of a metadata record.
pub struct NarInfoView {
    pub store_path: Seq<char>,
    pub content_key: Seq<char>,
    pub compression: Seq<char>,
    pub file_hash: Option<Seq<char>>,
    pub nar_size: nat,
    pub deriver: Option<Seq<char>>,
    pub references: Seq<Seq<char>>,
}

/// A package metadata record.
#[derive(Debug, PartialEq, Eq)]
pub struct NarInfo {
    pub store_path: NixPath,
    pub content_key: String,
    pub compression: String,
    pub file_hash: Option<String>,
    pub nar_size: u64,
    pub deriver: Option<NixPath>,
    pub references: Vec<NixPath>,
}

impl View for NarInfo {
    type V = NarInfoView;

    open spec fn view(&self) -> NarInfoView {
        NarInfoView {
            store_path: self.store_path.path@,
            content_key: self.content_key@,
            compression: self.compression@,
            file_hash: match self.file_hash {
                Some(h) => Some(h@),
                None => None,
            },
            nar_size: self.nar_size as nat,
            deriver: match self.deriver {
                Some(d) => Some(d.path@),
                None => None,
            },
            references: paths_view(self.references@),
        }
    }
}

impl NarInfo {
    /// Every field is in its alphabet, so the record survives the
    /// line-oriented text form.
    pub open spec fn wf(self) -> bool {
        &&& self.store_path.wf()
        &&& self.content_key@.len() > 0
        &&& is_token_seq(self.content_key@)
        &&& is_token_seq(self.compression@)
        &&& (match self.file_hash {
            Some(h) => h@.len() > 0 && is_token_seq(h@),
            None => true,
        })
        &&& (match self.deriver {
            Some(d) => d.wf(),
            None => true,
        })
        &&& (forall|i: int|
            0 <= i < self.references@.len() ==> (#[trigger] self.references@[i]).wf())
    }

    /// Builds a record from its fields.
    pub fn new(
        store_path: NixPath,
        content_key: String,
        compression: String,
        file_hash: Option<String>,
        nar_size: u64,
        deriver: Option<NixPath>,
        references: Vec<NixPath>,
    ) -> (r: NarInfo)
        ensures
            r == (NarInfo {
                store_path,
                content_key,
                compression,
                file_hash,
                nar_size,
                deriver,
                references,
            }),
    {
        NarInfo { store_path, content_key, compression, file_hash, nar_size, deriver, references }
    }

    /// The referenced store paths, in record order.
    pub fn get_dependencies(&self) -> (r: &Vec<NixPath>)
        ensures
            r == &self.references,
    {
        &self.references
    }
}

/// The full paths of a sequence of parsed store paths.
pub open spec fn paths_view(ps: Seq<NixPath>) -> Seq<Seq<char>> {
    ps.map(|i: int, p: NixPath| p.path@)
}

/// The characters of an optional value; absence prints as the empty string.
pub open spec fn opt_seq(o: Option<Seq<char>>) -> Seq<char> {
    match o {
        Some(s) => s,
        None => Seq::<char>::empty(),
    }
}

/// Space-separated join of tokens, from the front.
pub open spec fn join_spaced(rs: Seq<Seq<char>>) -> Seq<char>
    decreases rs.len(),
{
    if rs.len() == 0 {
        Seq::<char>::empty()
    } else if rs.len() == 1 {
        rs[0]
    } else {
        rs[0] + seq![' '] + join_spaced(rs.skip(1))
    }
}

/// The canonical text of a record: one `Key: value` line per field, fixed
/// order, trailing newline.
pub open spec fn narinfo_text_view(v: NarInfoView) -> Seq<char> {
    "StorePath: "@ + v.store_path + "\n"@ + "ContentKey: "@ + v.content_key + "\n"@
        + "Compression: "@ + v.compression + "\n"@ + "FileHash: "@ + opt_seq(v.file_hash) + "\n"@
        + "NarSize: "@ + dec_digits(v.nar_size) + "\n"@ + "Deriver: "@ + opt_seq(v.deriver)
        + "\n"@ + "References: "@ + join_spaced(v.references) + "\n"@
}

/// Index of the first occurrence of `c` in `s`, or `s.len()` if absent.
pub open spec fn find_char(s: Seq<char>, c: char) -> int
    decreases s.len(),
{
    if s.len() == 0 {
        0
    } else if s[0] == c {
        0
    } else {
        1 + find_char(s.skip(1), c)
    }
}

/// `find_char` lands on the first occurrence.
pub proof fn lemma_find_char(s: Seq<char>, c: char)
    ensures
        0 <= find_char(s, c) <= s.len(),
        forall|j: int| 0 <= j < find_char(s, c) ==> s[j] != c,
        find_char(s, c) < s.len() ==> s[find_char(s, c)] == c,
    decreases s.len(),
{
    if s.len() != 0 && s[0] != c {
        lemma_find_char(s.skip(1), c);
        assert(forall|j: int|
            1 <= j < find_char(s, c) ==> s[j] == s.skip(1)[j - 1] && s.skip(1)[j - 1] != c);
    }
}

/// The characterization of `find_char`: a position with no earlier hit
/// that either holds `c` or is the end.
pub proof fn lemma_find_char_is(s: Seq<char>, c: char, i: int)
    requires
        0 <= i <= s.len(),
        forall|j: int| 0 <= j < i ==> s[j] != c,
        i < s.len() ==> s[i] == c,
    ensures
        find_char(s, c) == i,
    decreases s.len(),
{
    if s.len() != 0 && s[0] != c {
        assert(i >= 1);
        lemma_find_char_is(s.skip(1), c, i - 1);
    }
}

/// Splits off the first line: the part before the first newline and the
/// rest after it. `None` when no newline remains.
pub open spec fn split_line(s: Seq<char>) -> Option<(Seq<char>, Seq<char>)> {
    let i = find_char(s, '\n');
    if i < s.len() {
        Some((s.take(i), s.skip(i + 1)))
    } else {
        None
    }
}

/// Splits a line into key and value at the first `: `.
pub open spec fn parse_kv(line: Seq<char>) -> Option<(Seq<char>, Seq<char>)> {
    let i = find_char(line, ':');
    if i + 1 < line.len() && line[i + 1] == ' ' {
        Some((line.take(i), line.skip(i + 2)))
    } else {
        None
    }
}

/// Splits a value on single spaces; the empty value has no tokens.
pub open spec fn split_spaced(v: Seq<char>) -> Seq<Seq<char>>
    decreases v.len(),
    via split_spaced_dec
{
    if v.len() == 0 {
        Seq::<Seq<char>>::empty()
    } else {
        let i = find_char(v, ' ');
        if i < v.len() {
            seq![v.take(i)] + split_spaced(v.skip(i + 1))
        } else {
            seq![v]
        }
    }
}

#[via_fn]
proof fn split_spaced_dec(v: Seq<char>) {
    lemma_find_char(v, ' ');
}

/// Fields gathered while reading a record, before validation.
pub struct PartialView {
    pub store_path: Option<Seq<char>>,
    pub content_key: Option<Seq<char>>,
    pub compression: Seq<char>,
    pub file_hash: Seq<char>,
    pub nar_size: Option<nat>,
    pub deriver: Seq<char>,
    pub references: Option<Seq<char>>,
}

pub open spec fn empty_partial() -> PartialView {
    PartialView {
        store_path: None,
        content_key: None,
        compression: Seq::<char>::empty(),
        file_hash: Seq::<char>::empty(),
        nar_size: None,
        deriver: Seq::<char>::empty(),
        references: None,
    }
}

/// Whether `v` is a decimal print whose value fits a machine size.
pub open spec fn is_u64_print(v: Seq<char>) -> bool {
    &&& v.len() > 0
    &&& (forall|i: int| 0 <= i < v.len() ==> is_digit_char(#[trigger] v[i]))
    &&& dec_value(v) <= u64::MAX
}

/// Folds one `Key: value` pair into the gathered fields; unknown keys are
/// ignored, a malformed size is refused.
pub open spec fn apply_kv(p: PartialView, k: Seq<char>, v: Seq<char>) -> Option<PartialView> {
    if k == "StorePath"@ {
        Some(PartialView { store_path: Some(v), ..p })
    } else if k == "ContentKey"@ {
        Some(PartialView { content_key: Some(v), ..p })
    } else if k == "Compression"@ {
        Some(PartialView { compression: v, ..p })
    } else if k == "FileHash"@ {
        Some(PartialView { file_hash: v, ..p })
    } else if k == "NarSize"@ {
        if is_u64_print(v) {
            Some(PartialView { nar_size: Some(dec_value(v)), ..p })
        } else {
            None
        }
    } else if k == "Deriver"@ {
        Some(PartialView { deriver: v, ..p })
    } else if k == "References"@ {
        Some(PartialView { references: Some(v), ..p })
    } else {
        Some(p)
    }
}

/// Reads every line of `s` into the gathered fields.
pub open spec fn parse_lines(s: Seq<char>, p: PartialView) -> Option<PartialView>
    decreases s.len(),
    via parse_lines_dec
{
    if s.len() == 0 {
        Some(p)
    } else {
        match split_line(s) {
            None => None,
            Some((line, rest)) => match parse_kv(line) {
                None => None,
                Some((k, v)) => match apply_kv(p, k, v) {
                    None => None,
                    Some(p2) => parse_lines(rest, p2),
                },
            },
        }
    }
}

#[via_fn]
proof fn parse_lines_dec(s: Seq<char>, p: PartialView) {
    lemma_find_char(s, '\n');
}

/// Validates the gathered fields into a record view: the required fields
/// must be present, and every path must have the store-path form.
pub open spec fn finish_refs(p: PartialView) -> Seq<Seq<char>> {
    match p.references {
        Some(rv) => split_spaced(rv),
        None => Seq::<Seq<char>>::empty(),
    }
}

pub open spec fn finish_ok(p: PartialView) -> bool {
    &&& p.store_path is Some
    &&& p.content_key is Some
    &&& p.nar_size is Some
    &&& is_store_path_seq(p.store_path->0)
    &&& p.content_key->0.len() > 0
    &&& (p.deriver.len() == 0 || is_store_path_seq(p.deriver))
    &&& (forall|i: int|
        0 <= i < finish_refs(p).len() ==> is_store_path_seq(#[trigger] finish_refs(p)[i]))
}

pub open spec fn finish_partial(p: PartialView) -> Option<NarInfoView> {
    if finish_ok(p) {
        Some(
            NarInfoView {
                store_path: p.store_path->0,
                content_key: p.content_key->0,
                compression: p.compression,
                file_hash: if p.file_hash.len() == 0 {
                    None
                } else {
                    Some(p.file_hash)
                },
                nar_size: p.nar_size->0,
                deriver: if p.deriver.len() == 0 {
                    None
                } else {
                    Some(p.deriver)
                },
                references: finish_refs(p),
            },
        )
    } else {
        None
    }
}

/// The meaning of a record text: what parsing it yields.
pub open spec fn spec_parse_narinfo(s: Seq<char>) -> Option<NarInfoView> {
    match parse_lines(s, empty_partial()) {
        None => None,
        Some(p) => finish_partial(p),
    }
}


/// No newline occurs in `s`, so `s` stays inside one line.
pub open spec fn line_safe(s: Seq<char>) -> bool {
    forall|i: int| 0 <= i < s.len() ==> s[i] != '\n'
}

/// No space occurs in `s`, so `s` stays one token.
pub open spec fn space_free(s: Seq<char>) -> bool {
    forall|i: int| 0 <= i < s.len() ==> s[i] != ' '
}

/// A well-formed store path is printable: it has no newline and no space.
pub proof fn lemma_store_path_seq_safe(s: Seq<char>)
    requires
        is_store_path_seq(s),
    ensures
        line_safe(s),
        space_free(s),
        s.len() > 0,
{
    assert forall|i: int| 0 <= i < s.len() implies s[i] != '\n' && s[i] != ' ' by {
        if i < 11 {
            assert(s.subrange(0, 11)[i] == s[i]);
            assert(crate::paths::store_dir_prefix()[i] == s[i]);
        } else if i < 43 {
            assert(crate::chars::is_base32_char(s[i]));
        } else if i == 43 {
        } else {
            assert(crate::chars::is_name_char(s[i]));
        }
    }
}

/// Joining printable, space-free tokens yields a printable line.
pub proof fn lemma_join_spaced_safe(rs: Seq<Seq<char>>)
    requires
        forall|i: int| 0 <= i < rs.len() ==> line_safe(#[trigger] rs[i]),
    ensures
        line_safe(join_spaced(rs)),
    decreases rs.len(),
{
    if rs.len() > 1 {
        lemma_join_spaced_safe(rs.skip(1));
        assert(line_safe(rs[0]));
        assert forall|i: int| 0 <= i < join_spaced(rs).len() implies join_spaced(rs)[i]
            != '\n' by {
            let a = rs[0];
            let j = join_spaced(rs.skip(1));
            assert(join_spaced(rs) == a + seq![' '] + j);
            if i < a.len() {
                assert(join_spaced(rs)[i] == a[i]);
            } else if i > a.len() {
                assert(join_spaced(rs)[i] == j[i - a.len() - 1]);
            }
        }
    }
}

/// Appending one more token to a join adds a separating space.
pub proof fn lemma_join_spaced_push(rs: Seq<Seq<char>>, x: Seq<char>)
    ensures
        rs.len() == 0 ==> join_spaced(rs.push(x)) == x,
        rs.len() > 0 ==> join_spaced(rs.push(x)) == join_spaced(rs) + seq![' '] + x,
    decreases rs.len(),
{
    if rs.len() == 0 {
        assert(rs.push(x).len() == 1);
        assert(rs.push(x)[0] == x);
    } else if rs.len() == 1 {
        assert(rs.push(x)[0] == rs[0]);
        assert(rs.push(x).skip(1) =~= seq![x]);
        assert(join_spaced(seq![x]) == x);
        assert(join_spaced(rs) == rs[0]);
    } else {
        lemma_join_spaced_push(rs.skip(1), x);
        assert(rs.push(x).skip(1) =~= rs.skip(1).push(x));
        assert(rs.push(x)[0] == rs[0]);
        assert(join_spaced(rs.push(x)) == rs[0] + seq![' '] + join_spaced(rs.skip(1).push(x)));
        assert(join_spaced(rs) + seq![' '] + x =~= rs[0] + seq![' '] + (join_spaced(rs.skip(1))
            + seq![' '] + x));
    }
}

impl NarInfo {
    /// Prints the record in its canonical text form.
    pub fn to_text(&self) -> (r: String)
        ensures
            r@ == narinfo_text_view(self@),
    {
        let mut out = String::new();
        out.append("StorePath: ");
        out.append(self.store_path.get_path());
        out.append("\n");
        out.append("ContentKey: ");
        out.append(self.content_key.as_str());
        out.append("\n");
        out.append("Compression: ");
        out.append(self.compression.as_str());
        out.append("\n");
        out.append("FileHash: ");
        match &self.file_hash {
            Some(h) => out.append(h.as_str()),
            None => {},
        }
        out.append("\n");
        out.append("NarSize: ");
        crate::chars::append_dec(&mut out, self.nar_size);
        out.append("\n");
        out.append("Deriver: ");
        match &self.deriver {
            Some(d) => out.append(d.get_path()),
            None => {},
        }
        out.append("\n");
        out.append("References: ");
        let ghost head = out@;
        let ghost refviews = self@.references;
        let mut i: usize = 0;
        while i < self.references.len()
            invariant
                i <= self.references.len(),
                refviews == self@.references,
                refviews.len() == self.references.len(),
                forall|j: int|
                    0 <= j < self.references@.len() ==> refviews[j] == (
                    #[trigger] self.references@[j]).path@,
                out@ == head + join_spaced(refviews.take(i as int)),
            decreases self.references.len() - i,
        {
            if i > 0 {
                out.append(" ");
            }
            out.append(self.references[i].get_path());
            proof {
                reveal_strlit(" ");
                lemma_join_spaced_push(refviews.take(i as int), refviews[i as int]);
                assert(refviews.take(i + 1) =~= refviews.take(i as int).push(
                    refviews[i as int],
                ));
                assert(out@ =~= head + join_spaced(refviews.take(i + 1)));
            }
            i = i + 1;
        }
        out.append("\n");
        proof {
            assert(refviews.take(refviews.len() as int) =~= refviews);
            assert(out@ =~= narinfo_text_view(self@));
        }
        out
    }
}


/// Character-by-character string equality.
pub fn str_eq(a: &str, b: &str) -> (r: bool)
    ensures
        r == (a@ == b@),
{
    let la = a.unicode_len();
    let lb = b.unicode_len();
    if la != lb {
        return false;
    }
    let mut i: usize = 0;
    while i < la
        invariant
            i <= la,
            la == a@.len(),
            la == b@.len(),
            forall|j: int| 0 <= j < i ==> a@[j] == b@[j],
        decreases la - i,
    {
        if a.get_char(i) != b.get_char(i) {
            return false;
        }
        i = i + 1;
    }
    proof {
        assert(a@ =~= b@);
    }
    true
}

/// First position of `c` in `s`, or the length if `c` does not occur.
fn find_char_str(s: &str, c: char) -> (i: usize)
    ensures
        i as int == find_char(s@, c),
{
    let n = s.unicode_len();
    let mut i: usize = 0;
    while i < n
        invariant
            i <= n,
            n == s@.len(),
            forall|j: int| 0 <= j < i ==> s@[j] != c,
        decreases n - i,
    {
        if s.get_char(i) == c {
            proof {
                lemma_find_char_is(s@, c, i as int);
            }
            return i;
        }
        i = i + 1;
    }
    proof {
        lemma_find_char_is(s@, c, n as int);
    }
    n
}

/// Reads a decimal machine-sized value; refuses empty input, other
/// characters, and overflow.
fn parse_u64_str(v: &str) -> (r: Option<u64>)
    ensures
        match r {
            Some(x) => is_u64_print(v@) && x as nat == dec_value(v@),
            None => !is_u64_print(v@),
        },
{
    let n = v.unicode_len();
    if n == 0 {
        return None;
    }
    let mut acc: u128 = 0;
    let mut i: usize = 0;
    while i < n
        invariant
            i <= n,
            n == v@.len(),
            n > 0,
            acc <= u64::MAX,
            acc as nat == dec_value(v@.take(i as int)),
            forall|j: int| 0 <= j < i ==> is_digit_char(#[trigger] v@[j]),
        decreases n - i,
    {
        let c = v.get_char(i);
        if !('0' <= c && c <= '9') {
            return None;
        }
        let d: u128 = (c as u32 - 48) as u128;
        acc = acc * 10 + d;
        proof {
            assert(v@.take(i + 1).drop_last() =~= v@.take(i as int));
            assert(v@.take(i + 1).last() == v@[i as int]);
            assert('0' as nat == 48 && '9' as nat == 57);
            assert(acc as nat == dec_value(v@.take(i + 1)));
        }
        if acc > u64::MAX as u128 {
            proof {
                lemma_dec_value_prefix(v@, i + 1);
            }
            return None;
        }
        i = i + 1;
    }
    proof {
        assert(v@.take(n as int) =~= v@);
    }
    Some(acc as u64)
}


/// The store paths inside a record are well-formed parsed paths.
pub open spec fn narinfo_paths_wf(info: NarInfo) -> bool {
    &&& info.store_path.wf()
    &&& (match info.deriver {
        Some(d) => d.wf(),
        None => true,
    })
    &&& (forall|i: int| 0 <= i < info.references@.len() ==> (#[trigger] info.references@[i]).wf())
}

/// The gathered fields as the spec parser sees them.
spec fn gathered_view(
    sp: Option<String>,
    ck: Option<String>,
    comp: String,
    fh: String,
    ns: Option<u64>,
    drv: String,
    refs: Option<String>,
) -> PartialView {
    PartialView {
        store_path: match sp {
            Some(x) => Some(x@),
            None => None,
        },
        content_key: match ck {
            Some(x) => Some(x@),
            None => None,
        },
        compression: comp@,
        file_hash: fh@,
        nar_size: match ns {
            Some(x) => Some(x as nat),
            None => None,
        },
        deriver: drv@,
        references: match refs {
            Some(x) => Some(x@),
            None => None,
        },
    }
}

impl NarInfo {
    /// Parses a record text. Success and the returned fields agree exactly
    /// with the meaning that `spec_parse_narinfo` gives the input; a text
    /// with no meaning indicates corrupted storage.
    pub fn parse(s: &str) -> (r: Result<NarInfo, StoreError>)
        ensures
            match r {
                Ok(info) => spec_parse_narinfo(s@) == Some(info@) && narinfo_paths_wf(info),
                Err(e) => spec_parse_narinfo(s@) is None && e == StoreError::StorageFault,
            },
    {
        let n = s.unicode_len();
        let mut g_sp: Option<String> = None;
        let mut g_ck: Option<String> = None;
        let mut g_comp: String = String::new();
        let mut g_fh: String = String::new();
        let mut g_ns: Option<u64> = None;
        let mut g_drv: String = String::new();
        let mut g_refs: Option<String> = None;
        let mut pos: usize = 0;
        proof {
            assert(s@.skip(0) =~= s@);
            assert(gathered_view(g_sp, g_ck, g_comp, g_fh, g_ns, g_drv, g_refs)
                == empty_partial());
        }
        while pos < n
            invariant
                pos <= n,
                n == s@.len(),
                parse_lines(s@, empty_partial()) == parse_lines(
                    s@.skip(pos as int),
                    gathered_view(g_sp, g_ck, g_comp, g_fh, g_ns, g_drv, g_refs),
                ),
            decreases n - pos,
        {
            let ghost gp = gathered_view(g_sp, g_ck, g_comp, g_fh, g_ns, g_drv, g_refs);
            let rest = s.substring_char(pos, n);
            proof {
                assert(rest@ =~= s@.skip(pos as int));
            }
            let rl = rest.unicode_len();
            let i = find_char_str(rest, '\n');
            if i == rl {
                proof {
                    assert(split_line(rest@) is None);
                }
                return Err(StoreError::StorageFault);
            }
            proof {
                lemma_find_char(rest@, '\n');
            }
            let line = rest.substring_char(0, i);
            proof {
                assert(line@ =~= rest@.take(i as int));
                assert(split_line(rest@) == Some((rest@.take(i as int), rest@.skip(i + 1))));
            }
            let ll = line.unicode_len();
            let j = find_char_str(line, ':');
            proof {
                lemma_find_char(line@, ':');
            }
            if j >= ll || j + 1 >= ll {
                proof {
                    assert(parse_kv(line@) is None);
                }
                return Err(StoreError::StorageFault);
            }
            if line.get_char(j + 1) != ' ' {
                proof {
                    assert(parse_kv(line@) is None);
                }
                return Err(StoreError::StorageFault);
            }
            let key = line.substring_char(0, j);
            let value = line.substring_char(j + 2, ll);
            proof {
                assert(key@ =~= line@.take(j as int));
                assert(value@ =~= line@.skip(j + 2));
                assert(parse_kv(line@) == Some((key@, value@)));
            }
            if str_eq(key, "StorePath") {
                g_sp = Some(String::from_str(value));
            } else if str_eq(key, "ContentKey") {
                g_ck = Some(String::from_str(value));
            } else if str_eq(key, "Compression") {
                g_comp = String::from_str(value);
            } else if str_eq(key, "FileHash") {
                g_fh = String::from_str(value);
            } else if str_eq(key, "NarSize") {
                match parse_u64_str(value) {
                    Some(x) => {
                        g_ns = Some(x);
                    },
                    None => {
                        proof {
                            assert(apply_kv(gp, key@, value@) is None);
                        }
                        return Err(StoreError::StorageFault);
                    },
                }
            } else if str_eq(key, "Deriver") {
                g_drv = String::from_str(value);
            } else if str_eq(key, "References") {
                g_refs = Some(String::from_str(value));
            }
            proof {
                assert(apply_kv(gp, key@, value@) == Some(
                    gathered_view(g_sp, g_ck, g_comp, g_fh, g_ns, g_drv, g_refs),
                ));
                assert(s@.skip(pos + i + 1) =~= rest@.skip(i + 1));
            }
            pos = pos + i + 1;
        }
        proof {
            assert(s@.skip(pos as int).len() == 0);
            assert(parse_lines(s@, empty_partial()) == Some(
                gathered_view(g_sp, g_ck, g_comp, g_fh, g_ns, g_drv, g_refs),
            ));
        }
        let ghost gp = gathered_view(g_sp, g_ck, g_comp, g_fh, g_ns, g_drv, g_refs);
        if g_sp.is_none() || g_ck.is_none() || g_ns.is_none() {
            return Err(StoreError::StorageFault);
        }
        let sp = g_sp.unwrap();
        let ck = g_ck.unwrap();
        let ns = g_ns.unwrap();
        let store_path = match NixPath::new(sp.as_str()) {
            Ok(p) => p,
            Err(_) => {
                return Err(StoreError::StorageFault);
            },
        };
        if ck.as_str().unicode_len() == 0 {
            return Err(StoreError::StorageFault);
        }
        let deriver = if g_drv.as_str().unicode_len() == 0 {
            None
        } else {
            match NixPath::new(g_drv.as_str()) {
                Ok(p) => Some(p),
                Err(_) => {
                    return Err(StoreError::StorageFault);
                },
            }
        };
        let mut references: Vec<NixPath> = Vec::new();
        if g_refs.is_none() {
            proof {
                assert(paths_view(references@) =~= Seq::<Seq<char>>::empty());
            }
        } else {
            let rv = g_refs.unwrap();
            {
                proof {
                    assert(gp.references == Some(rv@));
                }
                let rvs = rv.as_str();
                let m = rvs.unicode_len();
                if m == 0 {
                    proof {
                        assert(split_spaced(rv@) =~= Seq::<Seq<char>>::empty());
                        assert(paths_view(references@) =~= Seq::<Seq<char>>::empty());
                    }
                }
                if m > 0 {
                    let mut q: usize = 0;
                    let mut done = false;
                    proof {
                        assert(rv@.skip(0) =~= rv@);
                        assert(paths_view(references@) =~= Seq::<Seq<char>>::empty());
                        assert(split_spaced(rv@) =~= paths_view(references@) + split_spaced(
                            rv@.skip(0),
                        ));
                    }
                    #[verifier::loop_isolation(false)]
                    while !done
                        invariant
                            q <= m,
                            m == rvs@.len(),
                            m == rv@.len(),
                            rvs@ == rv@,
                            m > 0,
                            !done ==> q < m,
                            !done ==> split_spaced(rv@) == paths_view(references@)
                                + split_spaced(rv@.skip(q as int)),
                            done ==> split_spaced(rv@) == paths_view(references@),
                            forall|i: int|
                                0 <= i < references@.len() ==> is_store_path_seq(
                                    (#[trigger] references@[i]).path@,
                                ) && references@[i].wf(),
                        decreases m - q + (if done { 0int } else { 1int }),
                    {
                        let ghost refs_map = paths_view(references@);
                        let rem = rvs.substring_char(q, m);
                        proof {
                            assert(rem@ =~= rv@.skip(q as int));
                            lemma_find_char(rem@, ' ');
                        }
                        let reml = rem.unicode_len();
                        let k = find_char_str(rem, ' ');
                        let tok = rem.substring_char(0, k);
                        proof {
                            if k < reml {
                                assert(tok@ =~= rem@.take(k as int));
                                assert(split_spaced(rem@) == seq![tok@] + split_spaced(
                                    rem@.skip(k + 1),
                                ));
                            } else {
                                assert(tok@ =~= rem@);
                                assert(split_spaced(rem@) == seq![tok@]);
                            }
                            assert(split_spaced(rv@)[refs_map.len() as int] == tok@);
                        }
                        let path = match NixPath::new(tok) {
                            Ok(p) => p,
                            Err(_) => {
                                proof {
                                    let refs = split_spaced(rv@);
                                    assert(refs.len() > refs_map.len());
                                    assert(refs[refs_map.len() as int] == tok@);
                                    assert(!is_store_path_seq(tok@));
                                    assert(!(forall|i: int|
                                        0 <= i < refs.len() ==> is_store_path_seq(
                                            #[trigger] refs[i],
                                        )));
                                    assert(gp.store_path == Some(sp@));
                                    assert(gp.content_key == Some(ck@));
                                    assert(gp.nar_size == Some(ns as nat));
                                    let refs2 = finish_refs(gp);
                                    assert(refs2 == split_spaced(rv@));
                                    assert(0 <= refs_map.len() < refs2.len());
                                    assert(!is_store_path_seq(
                                        refs2[refs_map.len() as int],
                                    ));
                                    assert(!finish_ok(gp));
                                    assert(finish_partial(gp) is None);
                                }
                                return Err(StoreError::StorageFault);
                            },
                        };
                        references.push(path);
                        proof {
                            assert(paths_view(references@) =~= refs_map.push(tok@));
                        }
                        if k == reml {
                            done = true;
                        } else {
                            q = q + k + 1;
                            proof {
                                assert(rem@.skip(k + 1) =~= rv@.skip(q as int));
                            }
                            if q == m {
                                proof {
                                    assert(rv@.skip(q as int).len() == 0);
                                    assert(split_spaced(rv@.skip(q as int)) =~= Seq::<
                                        Seq<char>,
                                    >::empty());
                                    assert(split_spaced(rv@) =~= refs_map.push(tok@));
                                }
                                done = true;
                            }
                        }
                    }
                }
            }
        }
        let info = NarInfo {
            store_path,
            content_key: ck,
            compression: g_comp,
            file_hash: if g_fh.as_str().unicode_len() == 0 {
                None
            } else {
                Some(g_fh)
            },
            nar_size: ns,
            deriver,
            references,
        };
        proof {
            assert(finish_partial(gp) == Some(info@));
        }
        Ok(info)
    }
}


/// A well-formed parsed path prints back to a store-path form.
pub proof fn lemma_wf_is_store_path(p: NixPath)
    requires
        p.wf(),
    ensures
        is_store_path_seq(p.path@),
{
    let s = p.path@;
    assert(s.len() == 44 + p.name@.len());
    assert(s.subrange(0, 11) =~= crate::paths::store_dir_prefix());
    assert(forall|i: int| 11 <= i < 43 ==> s[i] == p.hash@[i - 11]);
    assert(s[43] == '-');
    assert(forall|i: int| 44 <= i < s.len() ==> s[i] == p.name@[i - 44]);
}

/// Splitting a space-joined list of nonempty, space-free tokens gives the
/// tokens back.
pub proof fn lemma_split_join(rs: Seq<Seq<char>>)
    requires
        forall|i: int|
            0 <= i < rs.len() ==> (#[trigger] rs[i]).len() > 0 && space_free(rs[i]),
    ensures
        split_spaced(join_spaced(rs)) == rs,
    decreases rs.len(),
{
    if rs.len() == 0 {
        assert(split_spaced(join_spaced(rs)) =~= rs);
    } else if rs.len() == 1 {
        assert(join_spaced(rs) == rs[0]);
        assert(space_free(rs[0]));
        lemma_find_char_is(rs[0], ' ', rs[0].len() as int);
        assert(split_spaced(rs[0]) =~= rs);
    } else {
        let a = rs[0];
        let j = join_spaced(rs.skip(1));
        let t = join_spaced(rs);
        assert(t == a + seq![' '] + j);
        assert(rs.skip(1)[0] == rs[1]);
        assert(j.len() > 0) by {
            if rs.len() == 2 {
                assert(rs.skip(1).len() == 1);
                assert(j == rs.skip(1)[0]);
            } else {
                assert(j == rs.skip(1)[0] + seq![' '] + join_spaced(rs.skip(1).skip(1)));
            }
        }
        assert(forall|i: int| 0 <= i < a.len() ==> t[i] == a[i]);
        assert(t[a.len() as int] == ' ');
        lemma_find_char_is(t, ' ', a.len() as int);
        assert(t.take(a.len() as int) =~= a);
        assert(t.skip(a.len() as int + 1) =~= j);
        assert(forall|i: int|
            0 <= i < rs.skip(1).len() ==> rs.skip(1)[i] == rs[i + 1] && (
            #[trigger] rs.skip(1)[i]).len() > 0 && space_free(rs.skip(1)[i]));
        lemma_split_join(rs.skip(1));
        assert(split_spaced(t) == seq![a] + rs.skip(1));
        assert(seq![a] + rs.skip(1) =~= rs);
    }
}

/// Reading one `Key: value` line updates the gathered fields and goes on
/// with the rest of the text.
pub proof fn lemma_parse_one_line(
    keyc: Seq<char>,
    key: Seq<char>,
    value: Seq<char>,
    rest: Seq<char>,
    p: PartialView,
)
    requires
        keyc == key + ": "@,
        find_char(keyc, ':') == key.len(),
        line_safe(keyc),
        line_safe(value),
    ensures
        parse_lines(keyc + value + "\n"@ + rest, p) == (match apply_kv(p, key, value) {
            None => None,
            Some(p2) => parse_lines(rest, p2),
        }),
{
    reveal_strlit(": ");
    reveal_strlit("\n");
    let line = keyc + value;
    let t = keyc + value + "\n"@ + rest;
    assert(keyc.len() == key.len() + 2);
    lemma_find_char(keyc, ':');
    assert(forall|i: int| 0 <= i < line.len() ==> t[i] == line[i]);
    assert(forall|i: int| 0 <= i < keyc.len() ==> line[i] == keyc[i]);
    assert(t[line.len() as int] == '\n');
    assert(forall|i: int| 0 <= i < line.len() ==> line[i] != '\n');
    lemma_find_char_is(t, '\n', line.len() as int);
    assert(t.len() == line.len() + 1 + rest.len());
    assert(split_line(t) == Some((t.take(line.len() as int), t.skip(line.len() as int + 1))));
    assert(t.take(line.len() as int) =~= line);
    assert(t.skip(line.len() as int + 1) =~= rest);
    assert(keyc[key.len() as int] == ':');
    assert(keyc[key.len() as int + 1] == ' ');
    assert(forall|i: int| 0 <= i < key.len() ==> keyc[i] != ':');
    lemma_find_char_is(line, ':', key.len() as int);
    assert(parse_kv(line) == Some((line.take(key.len() as int), line.skip(key.len() as int + 2))));
    assert(line.take(key.len() as int) =~= key);
    assert(line.skip(key.len() as int + 2) =~= value);
    assert(t.len() != 0);
}

/// Parsing the canonical text of a well-formed record gives the record
/// back: serialization loses nothing.
#[verifier::rlimit(100)]
pub proof fn lemma_narinfo_round_trip(n: NarInfo)
    requires
        n.wf(),
    ensures
        spec_parse_narinfo(narinfo_text_view(n@)) == Some(n@),
{
    reveal_strlit("StorePath");
    reveal_strlit("StorePath: ");
    reveal_strlit("ContentKey");
    reveal_strlit("ContentKey: ");
    reveal_strlit("Compression");
    reveal_strlit("Compression: ");
    reveal_strlit("FileHash");
    reveal_strlit("FileHash: ");
    reveal_strlit("NarSize");
    reveal_strlit("NarSize: ");
    reveal_strlit("Deriver");
    reveal_strlit("Deriver: ");
    reveal_strlit("References");
    reveal_strlit("References: ");
    reveal_strlit(": ");
    reveal_strlit("\n");
    let v = n@;
    let sp = v.store_path;
    let ck = v.content_key;
    let comp = v.compression;
    let fh = opt_seq(v.file_hash);
    let nsd = crate::chars::dec_digits(v.nar_size);
    let drv = opt_seq(v.deriver);
    let refs = join_spaced(v.references);
    lemma_wf_is_store_path(n.store_path);
    lemma_store_path_seq_safe(sp);
    crate::chars::lemma_dec_digits_value(v.nar_size);
    assert(line_safe(ck)) by {
        assert(forall|i: int| 0 <= i < ck.len() ==> ck[i] != '\n');
    }
    assert(line_safe(comp)) by {
        assert(forall|i: int| 0 <= i < comp.len() ==> comp[i] != '\n');
    }
    assert(line_safe(fh)) by {
        match v.file_hash {
            Some(h) => {
                assert(forall|i: int| 0 <= i < h.len() ==> h[i] != '\n');
            },
            None => {},
        }
    }
    assert(line_safe(nsd)) by {
        assert(forall|i: int|
            0 <= i < nsd.len() ==> crate::chars::is_digit_char(#[trigger] nsd[i]) && nsd[i]
                != '\n');
    }
    assert(line_safe(drv)) by {
        match n.deriver {
            Some(d) => {
                lemma_wf_is_store_path(d);
                lemma_store_path_seq_safe(d.path@);
            },
            None => {},
        }
    }
    assert(forall|i: int|
        0 <= i < v.references.len() ==> is_store_path_seq(#[trigger] v.references[i])
            && line_safe(v.references[i]) && space_free(v.references[i]) && v.references[i].len()
            > 0) by {
        assert forall|i: int| 0 <= i < v.references.len() implies is_store_path_seq(
            #[trigger] v.references[i],
        ) && line_safe(v.references[i]) && space_free(v.references[i]) && v.references[i].len()
            > 0 by {
            assert(v.references[i] == n.references@[i].path@);
            lemma_wf_is_store_path(n.references@[i]);
            lemma_store_path_seq_safe(v.references[i]);
        }
    }
    lemma_join_spaced_safe(v.references);
    assert(find_char("StorePath: "@, ':') == 9) by {
        assert("StorePath: "@ =~= "StorePath"@ + ": "@);
        assert(forall|j: int| 0 <= j < 9 ==> "StorePath: "@[j] != ':');
        lemma_find_char_is("StorePath: "@, ':', 9);
    }
    assert(find_char("ContentKey: "@, ':') == 10) by {
        assert(forall|j: int| 0 <= j < 10 ==> "ContentKey: "@[j] != ':');
        lemma_find_char_is("ContentKey: "@, ':', 10);
    }
    assert(find_char("Compression: "@, ':') == 11) by {
        assert(forall|j: int| 0 <= j < 11 ==> "Compression: "@[j] != ':');
        lemma_find_char_is("Compression: "@, ':', 11);
    }
    assert(find_char("FileHash: "@, ':') == 8) by {
        assert(forall|j: int| 0 <= j < 8 ==> "FileHash: "@[j] != ':');
        lemma_find_char_is("FileHash: "@, ':', 8);
    }
    assert(find_char("NarSize: "@, ':') == 7) by {
        assert(forall|j: int| 0 <= j < 7 ==> "NarSize: "@[j] != ':');
        lemma_find_char_is("NarSize: "@, ':', 7);
    }
    assert(find_char("Deriver: "@, ':') == 7) by {
        assert(forall|j: int| 0 <= j < 7 ==> "Deriver: "@[j] != ':');
        lemma_find_char_is("Deriver: "@, ':', 7);
    }
    assert(find_char("References: "@, ':') == 10) by {
        assert(forall|j: int| 0 <= j < 10 ==> "References: "@[j] != ':');
        lemma_find_char_is("References: "@, ':', 10);
    }
    assert(line_safe("StorePath: "@));
    assert(line_safe("ContentKey: "@));
    assert(line_safe("Compression: "@));
    assert(line_safe("FileHash: "@));
    assert(line_safe("NarSize: "@));
    assert(line_safe("Deriver: "@));
    assert(line_safe("References: "@));
    let t7 = "References: "@ + refs + "\n"@;
    let t6 = "Deriver: "@ + drv + "\n"@ + t7;
    let t5 = "NarSize: "@ + nsd + "\n"@ + t6;
    let t4 = "FileHash: "@ + fh + "\n"@ + t5;
    let t3 = "Compression: "@ + comp + "\n"@ + t4;
    let t2 = "ContentKey: "@ + ck + "\n"@ + t3;
    let t1 = "StorePath: "@ + sp + "\n"@ + t2;
    assert(narinfo_text_view(v) =~= t1);
    let p0 = empty_partial();
    assert("StorePath: "@ == "StorePath"@ + ": "@) by {
        assert("StorePath: "@ =~= "StorePath"@ + ": "@);
    }
    assert("ContentKey: "@ == "ContentKey"@ + ": "@) by {
        assert("ContentKey: "@ =~= "ContentKey"@ + ": "@);
    }
    assert("Compression: "@ == "Compression"@ + ": "@) by {
        assert("Compression: "@ =~= "Compression"@ + ": "@);
    }
    assert("FileHash: "@ == "FileHash"@ + ": "@) by {
        assert("FileHash: "@ =~= "FileHash"@ + ": "@);
    }
    assert("NarSize: "@ == "NarSize"@ + ": "@) by {
        assert("NarSize: "@ =~= "NarSize"@ + ": "@);
    }
    assert("Deriver: "@ == "Deriver"@ + ": "@) by {
        assert("Deriver: "@ =~= "Deriver"@ + ": "@);
    }
    assert("References: "@ == "References"@ + ": "@) by {
        assert("References: "@ =~= "References"@ + ": "@);
    }
    lemma_parse_one_line("StorePath: "@, "StorePath"@, sp, t2, p0);
    let p1 = apply_kv(p0, "StorePath"@, sp)->0;
    lemma_parse_one_line("ContentKey: "@, "ContentKey"@, ck, t3, p1);
    let p2 = apply_kv(p1, "ContentKey"@, ck)->0;
    lemma_parse_one_line("Compression: "@, "Compression"@, comp, t4, p2);
    let p3 = apply_kv(p2, "Compression"@, comp)->0;
    lemma_parse_one_line("FileHash: "@, "FileHash"@, fh, t5, p3);
    let p4 = apply_kv(p3, "FileHash"@, fh)->0;
    assert(is_u64_print(nsd)) by {
        assert(v.nar_size <= u64::MAX);
    }
    lemma_parse_one_line("NarSize: "@, "NarSize"@, nsd, t6, p4);
    let p5 = apply_kv(p4, "NarSize"@, nsd)->0;
    lemma_parse_one_line("Deriver: "@, "Deriver"@, drv, t7, p5);
    let p6 = apply_kv(p5, "Deriver"@, drv)->0;
    lemma_parse_one_line("References: "@, "References"@, refs, Seq::<char>::empty(), p6);
    let p7 = apply_kv(p6, "References"@, refs)->0;
    assert(parse_lines(Seq::<char>::empty(), p7) == Some(p7));
    assert(parse_lines(t1, p0) == Some(p7));
    lemma_split_join(v.references);
    assert(finish_refs(p7) == v.references);
    match n.deriver {
        Some(d) => {
            lemma_wf_is_store_path(d);
            assert(is_store_path_seq(drv));
        },
        None => {},
    }
    assert forall|i: int| 0 <= i < finish_refs(p7).len() implies is_store_path_seq(
        #[trigger] finish_refs(p7)[i],
    ) by {
        assert(finish_refs(p7)[i] == v.references[i]);
    }
    assert(finish_ok(p7));
    match finish_partial(p7) {
        Some(out) => {
            assert(out.store_path == v.store_path);
            assert(out.content_key == v.content_key);
            assert(out.compression == v.compression);
            assert(out.file_hash == v.file_hash) by {
                match v.file_hash {
                    Some(h) => {
                        assert(h.len() > 0);
                    },
                    None => {},
                }
            }
            assert(out.nar_size == v.nar_size);
            assert(out.deriver == v.deriver) by {
                match n.deriver {
                    Some(d) => {
                        lemma_wf_is_store_path(d);
                        assert(d.path@.len() > 0);
                    },
                    None => {},
                }
            }
            assert(out.references == v.references);
        },
        None => {
            assert(false);
        },
    }
}

} // verus!
