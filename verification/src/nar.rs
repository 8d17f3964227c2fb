use vstd::prelude::*;

use crate::errors::StoreError;

verus! {

// The canonical filesystem-tree archive: a deterministic byte format with
// three node kinds (regular file with executable bit, symlink, directory
// with strictly sorted children). Every primitive is a length-prefixed,
// zero-padded byte string; the whole archive opens with a fixed magic
// token.

/// A node of the archived tree. A directory holds pairs of an entry name
/// and the child node.
#[derive(Debug)]
pub enum NarNode {
    File { executable: bool, contents: Vec<u8> },
    Symlink { target: Vec<u8> },
    Directory { entries: Vec<(Vec<u8>, NarNode)> },
}

/// Little-endian bytes of `n`, `k` bytes wide.
pub open spec fn le_bytes(n: nat, k: nat) -> Seq<u8>
    decreases k,
{
    if k == 0 {
        Seq::<u8>::empty()
    } else {
        seq![(n % 256) as u8] + le_bytes(n / 256, (k - 1) as nat)
    }
}

/// The value of little-endian bytes.
pub open spec fn le_value(b: Seq<u8>) -> nat
    decreases b.len(),
{
    if b.len() == 0 {
        0
    } else {
        (b[0] + 256 * le_value(b.skip(1))) as nat
    }
}

/// `k` zero bytes.
pub open spec fn zeros(k: nat) -> Seq<u8> {
    Seq::new(k, |i: int| 0u8)
}

/// How many zero bytes pad a string of length `l` to a multiple of 8.
pub open spec fn pad_width(l: nat) -> nat {
    ((8 - l % 8) % 8) as nat
}

/// A framed byte string: 8-byte little-endian length, the bytes, padding.
pub open spec fn frame(s: Seq<u8>) -> Seq<u8> {
    le_bytes(s.len(), 8) + s + zeros(pad_width(s.len()))
}

/// The bytes of an ASCII keyword.
pub open spec fn kw(s: Seq<char>) -> Seq<u8> {
    Seq::new(s.len(), |i: int| s[i] as u8)
}

/// Strict byte-wise lexicographic order, the archive's canonical entry
/// order.
pub open spec fn bytes_lt(a: Seq<u8>, b: Seq<u8>) -> bool
    decreases a.len(),
{
    if b.len() == 0 {
        false
    } else if a.len() == 0 {
        true
    } else if a[0] < b[0] {
        true
    } else if a[0] > b[0] {
        false
    } else {
        bytes_lt(a.skip(1), b.skip(1))
    }
}

/// A usable entry name: nonempty, no NUL, no slash.
pub open spec fn valid_name(s: Seq<u8>) -> bool {
    &&& s.len() > 0
    &&& forall|i: int| 0 <= i < s.len() ==> #[trigger] s[i] != 0u8 && s[i] != 47u8
}

/// The node is in canonical form: directory entries are strictly sorted by
/// name and recursively canonical.
pub open spec fn valid_node(n: NarNode) -> bool
    decreases n,
{
    match n {
        NarNode::File { .. } => true,
        NarNode::Symlink { .. } => true,
        NarNode::Directory { entries } => {
            &&& (forall|i: int|
                0 <= i < entries@.len() ==> valid_name((#[trigger] entries@[i]).0@))
            &&& (forall|i: int|
                0 <= i < entries@.len() ==> valid_node((#[trigger] entries@[i]).1))
            &&& (forall|i: int|
                0 <= i && i + 1 < entries@.len() ==> bytes_lt(
                    (#[trigger] entries@[i]).0@,
                    entries@[i + 1].0@,
                ))
        },
    }
}

/// The canonical byte form of a node.
pub open spec fn encode_node(n: NarNode) -> Seq<u8>
    decreases n,
{
    match n {
        NarNode::File { executable, contents } => frame(kw("("@)) + frame(kw("type"@)) + frame(
            kw("regular"@),
        ) + (if executable {
            frame(kw("executable"@)) + frame(Seq::<u8>::empty())
        } else {
            Seq::<u8>::empty()
        }) + frame(kw("contents"@)) + frame(contents@) + frame(kw(")"@)),
        NarNode::Symlink { target } => frame(kw("("@)) + frame(kw("type"@)) + frame(
            kw("symlink"@),
        ) + frame(kw("target"@)) + frame(target@) + frame(kw(")"@)),
        NarNode::Directory { entries } => frame(kw("("@)) + frame(kw("type"@)) + frame(
            kw("directory"@),
        ) + encode_entries(entries@) + frame(kw(")"@)),
    }
}

/// The canonical byte form of a run of directory entries.
pub open spec fn encode_entries(es: Seq<(Vec<u8>, NarNode)>) -> Seq<u8>
    decreases es,
{
    if es.len() == 0 {
        Seq::<u8>::empty()
    } else {
        encode_entry(es[0]) + encode_entries(es.skip(1))
    }
}

/// The canonical byte form of one directory entry.
pub open spec fn encode_entry(e: (Vec<u8>, NarNode)) -> Seq<u8>
    decreases e,
{
    frame(kw("entry"@)) + frame(kw("("@)) + frame(kw("name"@)) + frame(e.0@) + frame(
        kw("node"@),
    ) + encode_node(e.1) + frame(kw(")"@))
}

/// The canonical byte form of a whole archive.
pub open spec fn encode_nar(n: NarNode) -> Seq<u8> {
    frame(kw("nix-archive-1"@)) + encode_node(n)
}

/// Encoding a run of entries one more entry at a time.
pub proof fn lemma_encode_entries_push(es: Seq<(Vec<u8>, NarNode)>, e: (Vec<u8>, NarNode))
    ensures
        encode_entries(es.push(e)) == encode_entries(es) + encode_entry(e),
    decreases es,
{
    if es.len() == 0 {
        assert(es.push(e)[0] == e);
        assert(es.push(e).skip(1) =~= Seq::<(Vec<u8>, NarNode)>::empty());
        assert(encode_entries(Seq::<(Vec<u8>, NarNode)>::empty()) =~= Seq::<u8>::empty());
        assert(encode_entries(es) =~= Seq::<u8>::empty());
        assert(encode_entries(es.push(e)) == encode_entry(e) + encode_entries(
            Seq::<(Vec<u8>, NarNode)>::empty(),
        ));
        assert(encode_entries(es.push(e)) =~= encode_entries(es) + encode_entry(e));
    } else {
        assert(es.push(e).skip(1) =~= es.skip(1).push(e));
        lemma_encode_entries_push(es.skip(1), e);
        assert(es.push(e)[0] == es[0]);
        assert(encode_entries(es.push(e)) == encode_entry(es[0]) + (encode_entries(es.skip(1))
            + encode_entry(e)));
        assert(encode_entry(es[0]) + (encode_entries(es.skip(1)) + encode_entry(e)) =~= (
        encode_entry(es[0]) + encode_entries(es.skip(1))) + encode_entry(e));
    }
}

/// The bytes of an ASCII keyword, computed.
fn kw_bytes(w: &str) -> (r: Vec<u8>)
    ensures
        r@ == kw(w@),
{
    let n = w.unicode_len();
    let mut out: Vec<u8> = Vec::new();
    let mut i: usize = 0;
    while i < n
        invariant
            i <= n,
            n == w@.len(),
            out@ == kw(w@).take(i as int),
        decreases n - i,
    {
        let c = w.get_char(i);
        out.push(c as u8);
        proof {
            assert(out@ =~= kw(w@).take(i + 1));
        }
        i = i + 1;
    }
    proof {
        assert(kw(w@).take(n as int) =~= kw(w@));
    }
    out
}

/// Appends a framed byte string: little-endian length, data, zero padding.
fn append_frame(out: &mut Vec<u8>, data: &[u8])
    ensures
        final(out)@ == old(out)@ + frame(data@),
{
    let l: usize = data.len();
    let ghost base = out@;
    let mut x: u64 = l as u64;
    let mut k: usize = 0;
    while k < 8
        invariant
            k <= 8,
            le_bytes(l as nat, 8) == out@.skip(base.len() as int) + le_bytes(x as nat, (8 - k) as nat),
            out@.len() == base.len() + k,
            out@.take(base.len() as int) == base,
        decreases 8 - k,
    {
        let ghost prev = out@;
        out.push((x % 256) as u8);
        proof {
            assert(le_bytes(x as nat, (8 - k) as nat) == seq![(x as nat % 256) as u8]
                + le_bytes(x as nat / 256, (8 - k - 1) as nat));
            assert(out@.skip(base.len() as int) =~= prev.skip(base.len() as int).push(
                (x % 256) as u8,
            ));
            assert(out@.skip(base.len() as int) + le_bytes(x as nat / 256, (8 - k - 1) as nat)
                =~= prev.skip(base.len() as int) + le_bytes(x as nat, (8 - k) as nat));
            assert(out@.take(base.len() as int) =~= base);
        }
        x = x / 256;
        k = k + 1;
    }
    proof {
        assert(le_bytes(x as nat, 0) =~= Seq::<u8>::empty());
        assert(out@.skip(base.len() as int) + le_bytes(x as nat, 0) =~= out@.skip(
            base.len() as int,
        ));
        assert(out@ =~= base + le_bytes(l as nat, 8));
    }
    let ghost with_len = out@;
    let mut i: usize = 0;
    while i < l
        invariant
            i <= l,
            l == data@.len(),
            out@ == with_len + data@.take(i as int),
        decreases l - i,
    {
        out.push(data[i]);
        proof {
            assert(out@ =~= with_len + data@.take(i + 1));
        }
        i = i + 1;
    }
    proof {
        assert(data@.take(l as int) =~= data@);
    }
    let ghost with_data = out@;
    let pad: usize = (8 - l % 8) % 8;
    let mut j: usize = 0;
    #[verifier::loop_isolation(false)]
    while j < pad
        invariant
            j <= pad,
            pad == pad_width(data@.len()),
            out@ == with_data + zeros(j as nat),
        decreases pad - j,
    {
        out.push(0u8);
        proof {
            assert(out@ =~= with_data + zeros((j + 1) as nat));
        }
        j = j + 1;
    }
    proof {
        assert(out@ =~= old(out)@ + frame(data@));
    }
}

/// Appends a framed keyword.
fn append_kw(out: &mut Vec<u8>, w: &str)
    ensures
        final(out)@ == old(out)@ + frame(kw(w@)),
{
    let b = kw_bytes(w);
    append_frame(out, b.as_slice());
}

/// Appends the canonical byte form of `n`.
#[verifier::rlimit(100)]
pub fn append_node(out: &mut Vec<u8>, n: &NarNode)
    ensures
        final(out)@ == old(out)@ + encode_node(*n),
    decreases *n,
{
    append_kw(out, "(");
    append_kw(out, "type");
    match n {
        NarNode::File { executable, contents } => {
            append_kw(out, "regular");
            if *executable {
                append_kw(out, "executable");
                let empty: Vec<u8> = Vec::new();
                append_frame(out, empty.as_slice());
            }
            append_kw(out, "contents");
            append_frame(out, contents.as_slice());
            append_kw(out, ")");
            proof {
                assert(out@ =~= old(out)@ + encode_node(*n));
            }
        },
        NarNode::Symlink { target } => {
            append_kw(out, "symlink");
            append_kw(out, "target");
            append_frame(out, target.as_slice());
            append_kw(out, ")");
            proof {
                assert(out@ =~= old(out)@ + encode_node(*n));
            }
        },
        NarNode::Directory { entries } => {
            append_kw(out, "directory");
            proof {
                assert(decreases_to!(*n => n->Directory_entries));
            }
            append_entries(out, entries);
            append_kw(out, ")");
            proof {
                assert(out@ =~= old(out)@ + encode_node(*n));
            }
        },
    }
}

/// Appends the canonical byte form of a run of directory entries.
#[verifier::rlimit(100)]
fn append_entries(out: &mut Vec<u8>, entries: &Vec<(Vec<u8>, NarNode)>)
    ensures
        final(out)@ == old(out)@ + encode_entries(entries@),
    decreases *entries,
{
    let mut i: usize = 0;
    #[verifier::loop_isolation(false)]
    while i < entries.len()
        invariant
            i <= entries.len(),
            out@ == old(out)@ + encode_entries(entries@.take(i as int)),
        decreases entries.len() - i,
    {
        append_kw(out, "entry");
        append_kw(out, "(");
        append_kw(out, "name");
        append_frame(out, entries[i].0.as_slice());
        append_kw(out, "node");
        proof {
            assert(decreases_to!(*entries => entries@));
            assert(decreases_to!(entries@ => entries@[i as int]));
            assert(decreases_to!(entries@[i as int] => entries@[i as int].1));
            assert(decreases_to!(*entries => entries@[i as int].1));
        }
        append_node(out, &entries[i].1);
        append_kw(out, ")");
        proof {
            lemma_encode_entries_push(entries@.take(i as int), entries@[i as int]);
            assert(entries@.take(i + 1) =~= entries@.take(i as int).push(entries@[i as int]));
            assert(out@ =~= old(out)@ + encode_entries(entries@.take(i + 1)));
        }
        i = i + 1;
    }
    proof {
        assert(entries@.take(entries@.len() as int) =~= entries@);
    }
}

/// The canonical byte form of a whole archive, starting with the magic
/// token.
pub fn encode_nar_bytes(n: &NarNode) -> (r: Vec<u8>)
    ensures
        r@ == encode_nar(*n),
{
    let mut out: Vec<u8> = Vec::new();
    append_kw(&mut out, "nix-archive-1");
    append_node(&mut out, n);
    proof {
        assert(out@ =~= encode_nar(*n));
    }
    out
}


/// 256 to the power `k`.
pub open spec fn pow256(k: nat) -> nat
    decreases k,
{
    if k == 0 {
        1
    } else {
        256 * pow256((k - 1) as nat)
    }
}

/// The value of `k` little-endian bytes is below `256^k`.
pub proof fn lemma_le_value_bound(b: Seq<u8>)
    ensures
        le_value(b) < pow256(b.len()),
    decreases b.len(),
{
    if b.len() > 0 {
        lemma_le_value_bound(b.skip(1));
        let r = le_value(b.skip(1));
        let p = pow256(b.skip(1).len());
        assert(le_value(b) == b[0] + 256 * r);
        let b0 = b[0] as nat;
        assert(b0 + 256 * r < 256 * (r + 1)) by (nonlinear_arith)
            requires
                0 <= b0 < 256,
                r >= 0,
        ;
        assert(256 * (r + 1) <= 256 * p) by (nonlinear_arith)
            requires
                r + 1 <= p,
        ;
    }
}

/// Printing the value of 8 little-endian bytes gives the bytes back.
pub proof fn lemma_le_bytes_of_value(b: Seq<u8>)
    ensures
        le_bytes(le_value(b), b.len()) == b,
    decreases b.len(),
{
    if b.len() == 0 {
        assert(le_bytes(le_value(b), 0) =~= b);
    } else {
        let s0 = b[0] as nat;
        let r = le_value(b.skip(1));
        let v = le_value(b);
        assert(v == s0 + 256 * r);
        assert((s0 + 256 * r) % 256 == s0) by (nonlinear_arith)
            requires
                0 <= s0 < 256,
                r >= 0,
        ;
        assert((s0 + 256 * r) / 256 == r) by (nonlinear_arith)
            requires
                0 <= s0 < 256,
                r >= 0,
        ;
        lemma_le_bytes_of_value(b.skip(1));
        assert(le_bytes(v, b.len()) == seq![(v % 256) as u8] + le_bytes(r, (b.len() - 1) as nat));
        assert(le_bytes(v, b.len()) =~= b);
    }
}

/// Reads an 8-byte little-endian length.
fn read_le8(b: &[u8], pos: usize) -> (r: u64)
    requires
        pos + 8 <= b@.len(),
    ensures
        le_bytes(r as nat, 8) == b@.subrange(pos as int, pos as int + 8),
        r as nat == le_value(b@.subrange(pos as int, pos as int + 8)),
{
    let bl = b.len();
    let mut v: u64 = 0;
    let mut k: usize = 8;
    #[verifier::loop_isolation(false)]
    while k > 0
        invariant
            k <= 8,
            pos + 8 <= b@.len(),
            v as nat == le_value(b@.subrange(pos + k, pos as int + 8)),
            v < pow256((8 - k) as nat),
        decreases k,
    {
        proof {
            let tail = b@.subrange(pos + k - 1, pos as int + 8);
            assert(tail.skip(1) =~= b@.subrange(pos + k, pos as int + 8));
            assert(tail[0] == b@[pos + k - 1]);
            assert(le_value(tail) == b@[pos + k - 1] + 256 * le_value(tail.skip(1)));
            assert(pow256((8 - (k - 1)) as nat) == 256 * pow256((8 - k) as nat));
            let d0 = b@[pos + k - 1] as nat;
            let v0 = v as nat;
            let pk = pow256((8 - k) as nat);
            assert(d0 + 256 * v0 < 256 * pk) by (nonlinear_arith)
                requires
                    0 <= d0 < 256,
                    v0 < pk,
                    pk >= 1,
            ;
            assert(pow256(8) == 0x10000000000000000) by {
                assert(pow256(0) == 1);
                assert(pow256(1) == 256);
                assert(pow256(2) == 0x10000);
                assert(pow256(3) == 0x1000000);
                assert(pow256(4) == 0x100000000);
                assert(pow256(5) == 0x10000000000);
                assert(pow256(6) == 0x1000000000000);
                assert(pow256(7) == 0x100000000000000);
            }
            assert(pow256((8 - (k - 1)) as nat) <= pow256(8)) by {
                lemma_pow256_increases((8 - (k - 1)) as nat, 8);
            }
        }
        let d = b[pos + k - 1];
        v = v * 256 + (d as u64);
        k = k - 1;
    }
    proof {
        assert(b@.subrange(pos as int, pos as int + 8).len() == 8);
        lemma_le_bytes_of_value(b@.subrange(pos as int, pos as int + 8));
    }
    v
}

/// `pow256` grows with its argument.
pub proof fn lemma_pow256_increases(a: nat, b: nat)
    requires
        a <= b,
    ensures
        pow256(a) <= pow256(b),
    decreases b,
{
    if a < b && b > 0 {
        lemma_pow256_increases(a, (b - 1) as nat);
        assert(pow256(b) == 256 * pow256((b - 1) as nat));
        let q = pow256((b - 1) as nat);
        assert(q <= 256 * q) by (nonlinear_arith)
            requires
                q >= 0,
        ;
    }
}

/// Byte-vector equality.
pub fn bytes_eq(a: &Vec<u8>, b: &Vec<u8>) -> (r: bool)
    ensures
        r == (a@ == b@),
{
    if a.len() != b.len() {
        return false;
    }
    let mut i: usize = 0;
    while i < a.len()
        invariant
            i <= a@.len(),
            a@.len() == b@.len(),
            forall|j: int| 0 <= j < i ==> a@[j] == b@[j],
        decreases a@.len() - i,
    {
        if a[i] != b[i] {
            return false;
        }
        i = i + 1;
    }
    proof {
        assert(a@ =~= b@);
    }
    true
}

/// Strict lexicographic comparison of byte vectors.
pub fn lt_bytes(a: &Vec<u8>, b: &Vec<u8>) -> (r: bool)
    ensures
        r == bytes_lt(a@, b@),
{
    let mut i: usize = 0;
    let al = a.len();
    let bl = b.len();
    proof {
        assert(a@.skip(0) =~= a@);
        assert(b@.skip(0) =~= b@);
    }
    #[verifier::loop_isolation(false)]
    while i < al && i < bl
        invariant
            i <= al,
            i <= bl,
            al == a@.len(),
            bl == b@.len(),
            bytes_lt(a@, b@) == bytes_lt(a@.skip(i as int), b@.skip(i as int)),
        decreases al - i,
    {
        let x = a[i];
        let y = b[i];
        proof {
            let sa = a@.skip(i as int);
            let sb = b@.skip(i as int);
            assert(sa[0] == a@[i as int]);
            assert(sb[0] == b@[i as int]);
            assert(sa.skip(1) =~= a@.skip(i + 1));
            assert(sb.skip(1) =~= b@.skip(i + 1));
        }
        if x < y {
            return true;
        }
        if x > y {
            return false;
        }
        i = i + 1;
    }
    proof {
        assert(a@.skip(i as int).len() == a@.len() - i);
        assert(b@.skip(i as int).len() == b@.len() - i);
    }
    i >= al && i < bl
}

/// Reads one framed byte string at `pos`: length, bytes, zero padding.
/// What was consumed re-frames to exactly the returned bytes, so a
/// successful read proves the input canonical at this position.
fn parse_frame(b: &[u8], pos: usize) -> (r: Result<(Vec<u8>, usize), StoreError>)
    requires
        pos <= b@.len(),
    ensures
        match r {
            Ok(d) => pos < d.1 <= b@.len() && b@.subrange(pos as int, d.1 as int) == frame(d.0@),
            Err(e) => e == StoreError::MalformedArchive,
        },
{
    let n = b.len();
    if n - pos < 8 {
        return Err(StoreError::MalformedArchive);
    }
    let l = read_le8(b, pos);
    if l > (n - pos - 8) as u64 {
        return Err(StoreError::MalformedArchive);
    }
    let ln = l as usize;
    let mut data: Vec<u8> = Vec::new();
    let mut i: usize = 0;
    #[verifier::loop_isolation(false)]
    while i < ln
        invariant
            i <= ln,
            pos + 8 + ln <= b@.len(),
            data@ == b@.subrange(pos + 8, pos + 8 + i),
        decreases ln - i,
    {
        data.push(b[pos + 8 + i]);
        proof {
            assert(data@ =~= b@.subrange(pos + 8, pos + 8 + i + 1));
        }
        i = i + 1;
    }
    let pad = (8 - ln % 8) % 8;
    if n - (pos + 8 + ln) < pad {
        return Err(StoreError::MalformedArchive);
    }
    let mut j: usize = 0;
    #[verifier::loop_isolation(false)]
    while j < pad
        invariant
            j <= pad,
            pos + 8 + ln + pad <= b@.len(),
            forall|t: int| 0 <= t < j ==> #[trigger] b@[pos + 8 + ln + t] == 0u8,
        decreases pad - j,
    {
        if b[pos + 8 + ln + j] != 0 {
            return Err(StoreError::MalformedArchive);
        }
        j = j + 1;
    }
    let p2 = pos + 8 + ln + pad;
    proof {
        assert(data@.len() == ln);
        assert(pad == pad_width(data@.len()));
        assert(le_bytes(data@.len(), 8) == b@.subrange(pos as int, pos as int + 8));
        let f = frame(data@);
        assert(le_bytes(data@.len(), 8).len() == 8);
        assert(f.len() == 8 + ln + pad);
        assert forall|i: int| 0 <= i < f.len() implies f[i] == b@[pos + i] by {
            if i < 8 {
                assert(f[i] == le_bytes(data@.len(), 8)[i]);
                assert(le_bytes(data@.len(), 8)[i] == b@.subrange(
                    pos as int,
                    pos as int + 8,
                )[i]);
            } else if i < 8 + ln {
                assert(f[i] == data@[i - 8]);
                assert(data@[i - 8] == b@.subrange(pos + 8, pos + 8 + ln)[i - 8]);
            } else {
                assert(f[i] == zeros(pad_width(data@.len()))[i - 8 - ln]);
                assert(b@[pos + 8 + ln + (i - 8 - ln)] == 0u8);
            }
        }
        assert(b@.subrange(pos as int, p2 as int) =~= frame(data@));
    }
    Ok((data, p2))
}

/// Reads one framed keyword at `pos` and refuses anything else.
fn expect_kw(b: &[u8], pos: usize, w: &str) -> (r: Result<usize, StoreError>)
    requires
        pos <= b@.len(),
    ensures
        match r {
            Ok(p2) => pos < p2 <= b@.len() && b@.subrange(pos as int, p2 as int) == frame(
                kw(w@),
            ),
            Err(e) => e == StoreError::MalformedArchive,
        },
{
    let (d, p2) = parse_frame(b, pos)?;
    let kb = kw_bytes(w);
    if !bytes_eq(&d, &kb) {
        return Err(StoreError::MalformedArchive);
    }
    Ok(p2)
}


/// Adjacent subranges concatenate.
proof fn lemma_subrange_concat(b: Seq<u8>, p0: int, p1: int, p2: int)
    requires
        0 <= p0 <= p1 <= p2 <= b.len(),
    ensures
        b.subrange(p0, p2) == b.subrange(p0, p1) + b.subrange(p1, p2),
{
    assert(b.subrange(p0, p2) =~= b.subrange(p0, p1) + b.subrange(p1, p2));
}

/// Whether `name` can stand as a directory entry name.
pub fn check_name(name: &Vec<u8>) -> (r: bool)
    ensures
        r == valid_name(name@),
{
    if name.len() == 0 {
        return false;
    }
    let mut i: usize = 0;
    #[verifier::loop_isolation(false)]
    while i < name.len()
        invariant
            i <= name@.len(),
            forall|j: int| 0 <= j < i ==> #[trigger] name@[j] != 0u8 && name@[j] != 47u8,
        decreases name@.len() - i,
    {
        let c = name[i];
        if c == 0 || c == 47 {
            return false;
        }
        i = i + 1;
    }
    true
}


/// Reads either the closing token of a directory or one full entry.
#[verifier::rlimit(100)]
fn parse_entry_or_close(b: &[u8], cur: usize) -> (r: Result<
    (Option<(Vec<u8>, NarNode)>, usize),
    StoreError,
>)
    requires
        cur <= b@.len(),
    ensures
        match r {
            Ok(d) => {
                &&& cur < d.1 <= b@.len()
                &&& match d.0 {
                    None => b@.subrange(cur as int, d.1 as int) == frame(kw(")"@)),
                    Some(e) => {
                        &&& valid_name(e.0@)
                        &&& valid_node(e.1)
                        &&& b@.subrange(cur as int, d.1 as int) == encode_entry(e)
                    },
                }
            },
            Err(e) => e == StoreError::MalformedArchive || e == StoreError::UnsupportedEntry,
        },
    decreases b@.len() - cur, 1int,
{
    let (tok, p4) = parse_frame(b, cur)?;
    let kclose = kw_bytes(")");
    let kent = kw_bytes("entry");
    if bytes_eq(&tok, &kclose) {
        return Ok((None, p4));
    }
    if !bytes_eq(&tok, &kent) {
        return Err(StoreError::MalformedArchive);
    }
    let p5 = expect_kw(b, p4, "(")?;
    let p6 = expect_kw(b, p5, "name")?;
    let (name, p7) = parse_frame(b, p6)?;
    if !check_name(&name) {
        return Err(StoreError::MalformedArchive);
    }
    let p8 = expect_kw(b, p7, "node")?;
    let (child, p9) = parse_node(b, p8)?;
    let p10 = expect_kw(b, p9, ")")?;
    let e = (name, child);
    proof {
        lemma_subrange_concat(b@, cur as int, p4 as int, p5 as int);
        lemma_subrange_concat(b@, cur as int, p5 as int, p6 as int);
        lemma_subrange_concat(b@, cur as int, p6 as int, p7 as int);
        lemma_subrange_concat(b@, cur as int, p7 as int, p8 as int);
        lemma_subrange_concat(b@, cur as int, p8 as int, p9 as int);
        lemma_subrange_concat(b@, cur as int, p9 as int, p10 as int);
        assert(b@.subrange(cur as int, p10 as int) =~= encode_entry(e));
    }
    Ok((Some(e), p10))
}

/// Reads one node at `pos`. On success the consumed bytes are exactly the
/// canonical encoding of the returned node, so reading and re-printing an
/// archive reproduces it byte for byte.
#[verifier::rlimit(100)]
pub fn parse_node(b: &[u8], pos: usize) -> (r: Result<(NarNode, usize), StoreError>)
    requires
        pos <= b@.len(),
    ensures
        match r {
            Ok(d) => {
                &&& pos < d.1 <= b@.len()
                &&& valid_node(d.0)
                &&& b@.subrange(pos as int, d.1 as int) == encode_node(d.0)
            },
            Err(e) => e == StoreError::MalformedArchive || e == StoreError::UnsupportedEntry,
        },
    decreases b@.len() - pos, 0int,
{
    let p1 = expect_kw(b, pos, "(")?;
    let p2 = expect_kw(b, p1, "type")?;
    let (ty, p3) = parse_frame(b, p2)?;
    let kreg = kw_bytes("regular");
    let ksym = kw_bytes("symlink");
    let kdir = kw_bytes("directory");
    if bytes_eq(&ty, &kreg) {
        let (tok, p4) = parse_frame(b, p3)?;
        let kexe = kw_bytes("executable");
        let kcon = kw_bytes("contents");
        let executable = bytes_eq(&tok, &kexe);
        let (contents, pc): (Vec<u8>, usize) = if executable {
            let (emp, p5) = parse_frame(b, p4)?;
            if emp.len() != 0 {
                return Err(StoreError::MalformedArchive);
            }
            let p6 = expect_kw(b, p5, "contents")?;
            let (c, p7) = parse_frame(b, p6)?;
            proof {
                assert(emp@ =~= Seq::<u8>::empty());
            }
            (c, p7)
        } else {
            if !bytes_eq(&tok, &kcon) {
                return Err(StoreError::MalformedArchive);
            }
            let (c, p5) = parse_frame(b, p4)?;
            (c, p5)
        };
        let pe = expect_kw(b, pc, ")")?;
        let node = NarNode::File { executable, contents };
        proof {
            lemma_subrange_concat(b@, pos as int, p1 as int, p2 as int);
            lemma_subrange_concat(b@, pos as int, p2 as int, p3 as int);
            lemma_subrange_concat(b@, pos as int, p3 as int, p4 as int);
            lemma_subrange_concat(b@, pos as int, p4 as int, pc as int);
            lemma_subrange_concat(b@, pos as int, pc as int, pe as int);
            assert(b@.subrange(pos as int, pe as int) =~= encode_node(node));
        }
        Ok((node, pe))
    } else if bytes_eq(&ty, &ksym) {
        let p4 = expect_kw(b, p3, "target")?;
        let (target, p5) = parse_frame(b, p4)?;
        let pe = expect_kw(b, p5, ")")?;
        let node = NarNode::Symlink { target };
        proof {
            lemma_subrange_concat(b@, pos as int, p1 as int, p2 as int);
            lemma_subrange_concat(b@, pos as int, p2 as int, p3 as int);
            lemma_subrange_concat(b@, pos as int, p3 as int, p4 as int);
            lemma_subrange_concat(b@, pos as int, p4 as int, p5 as int);
            lemma_subrange_concat(b@, pos as int, p5 as int, pe as int);
            assert(b@.subrange(pos as int, pe as int) =~= encode_node(node));
        }
        Ok((node, pe))
    } else if bytes_eq(&ty, &kdir) {
        let mut entries: Vec<(Vec<u8>, NarNode)> = Vec::new();
        let mut cur: usize = p3;
        proof {
            assert(b@.subrange(p3 as int, p3 as int) =~= Seq::<u8>::empty());
            assert(encode_entries(entries@) =~= Seq::<u8>::empty());
        }
        loop
            invariant
                pos < p3 <= cur <= b@.len(),
                b@.subrange(p3 as int, cur as int) == encode_entries(entries@),
                forall|i: int|
                    0 <= i < entries@.len() ==> valid_name((#[trigger] entries@[i]).0@),
                forall|i: int|
                    0 <= i < entries@.len() ==> valid_node((#[trigger] entries@[i]).1),
                forall|i: int|
                    0 <= i && i + 1 < entries@.len() ==> bytes_lt(
                        (#[trigger] entries@[i]).0@,
                        entries@[i + 1].0@,
                    ),
                pos < p1 < p2 < p3,
                b@.subrange(pos as int, p1 as int) == frame(kw("("@)),
                b@.subrange(p1 as int, p2 as int) == frame(kw("type"@)),
                b@.subrange(p2 as int, p3 as int) == frame(kw("directory"@)),
            decreases b@.len() - cur,
        {
            let (step, pn) = parse_entry_or_close(b, cur)?;
            match step {
                None => {
                    let node = NarNode::Directory { entries };
                    proof {
                        lemma_subrange_concat(b@, pos as int, p1 as int, p2 as int);
                        lemma_subrange_concat(b@, pos as int, p2 as int, p3 as int);
                        lemma_subrange_concat(b@, pos as int, p3 as int, cur as int);
                        lemma_subrange_concat(b@, pos as int, cur as int, pn as int);
                        assert(b@.subrange(pos as int, pn as int) =~= encode_node(node));
                    }
                    return Ok((node, pn));
                },
                Some(e) => {
                    if entries.len() > 0 {
                        if !lt_bytes(&entries[entries.len() - 1].0, &e.0) {
                            return Err(StoreError::MalformedArchive);
                        }
                    }
                    let ghost old_entries = entries@;
                    entries.push(e);
                    proof {
                        let en = entries@[old_entries.len() as int];
                        assert(entries@ =~= old_entries.push(en));
                        lemma_encode_entries_push(old_entries, en);
                        lemma_subrange_concat(b@, p3 as int, cur as int, pn as int);
                        assert(b@.subrange(p3 as int, pn as int) == encode_entries(entries@));
                        assert forall|i: int| 0 <= i && i + 1 < entries@.len() implies bytes_lt(
                            (#[trigger] entries@[i]).0@,
                            entries@[i + 1].0@,
                        ) by {
                            if i + 1 < old_entries.len() {
                                assert(entries@[i] == old_entries.push(en)[i]);
                                assert(old_entries.push(en)[i] == old_entries[i]);
                                assert(entries@[i + 1] == old_entries.push(en)[i + 1]);
                                assert(old_entries.push(en)[i + 1] == old_entries[i + 1]);
                            } else {
                                assert(i + 1 == old_entries.len());
                                assert(entries@[i + 1] == en);
                                assert(entries@[i] == old_entries.push(en)[i]);
                                assert(old_entries.push(en)[i] == old_entries[i]);
                                assert(bytes_lt(old_entries[old_entries.len() - 1].0@, en.0@));
                            }
                        }
                    }
                    cur = pn;
                },
            }
        }
    } else {
        Err(StoreError::UnsupportedEntry)
    }
}

/// Reads a whole archive from the front of `b`: the magic token, then the
/// root node. Returns the node and the count of bytes consumed; the
/// consumed bytes are exactly the canonical print of the node.
pub fn parse_nar_bytes(b: &[u8]) -> (r: Result<(NarNode, usize), StoreError>)
    ensures
        match r {
            Ok(d) => {
                &&& 0 < d.1 <= b@.len()
                &&& valid_node(d.0)
                &&& b@.subrange(0, d.1 as int) == encode_nar(d.0)
            },
            Err(e) => e == StoreError::MalformedArchive || e == StoreError::UnsupportedEntry,
        },
{
    let p1 = expect_kw(b, 0, "nix-archive-1")?;
    let (node, p2) = parse_node(b, p1)?;
    proof {
        lemma_subrange_concat(b@, 0, p1 as int, p2 as int);
        assert(b@.subrange(0, p2 as int) =~= encode_nar(node));
    }
    Ok((node, p2))
}


/// A value below `256^k` survives the round trip through its `k`-byte
/// little-endian print.
pub proof fn lemma_le_bytes_value(n: nat, k: nat)
    requires
        n < pow256(k),
    ensures
        le_value(le_bytes(n, k)) == n,
        le_bytes(n, k).len() == k,
    decreases k,
{
    if k == 0 {
        assert(le_bytes(n, 0) =~= Seq::<u8>::empty());
    } else {
        let q = n / 256;
        let b0 = n % 256;
        let p = pow256((k - 1) as nat);
        assert(pow256(k) == 256 * p);
        vstd::arithmetic::div_mod::lemma_fundamental_div_mod(n as int, 256);
        assert(q < p) by (nonlinear_arith)
            requires
                n < 256 * p,
                n == 256 * q + b0,
                0 <= b0 < 256,
                q >= 0,
        ;
        lemma_le_bytes_value(q, (k - 1) as nat);
        let t = le_bytes(n, k);
        assert(t == seq![(b0) as u8] + le_bytes(q, (k - 1) as nat));
        assert(t[0] == b0 as u8);
        assert(t.skip(1) =~= le_bytes(q, (k - 1) as nat));
        assert(le_value(t) == b0 + 256 * q);
    }
}

/// Two framed strings that open equal byte streams are the same string
/// followed by the same rest.
pub proof fn lemma_frame_prefix(x: Seq<u8>, y: Seq<u8>, rx: Seq<u8>, ry: Seq<u8>)
    requires
        frame(x) + rx == frame(y) + ry,
        x.len() < pow256(8),
        y.len() < pow256(8),
    ensures
        x == y,
        rx == ry,
{
    let s = frame(x) + rx;
    lemma_le_bytes_value(x.len(), 8);
    lemma_le_bytes_value(y.len(), 8);
    assert(frame(x).len() == 8 + x.len() + pad_width(x.len()));
    assert(frame(y).len() == 8 + y.len() + pad_width(y.len()));
    assert(le_bytes(x.len(), 8) =~= s.take(8)) by {
        assert(forall|i: int| 0 <= i < 8 ==> frame(x)[i] == le_bytes(x.len(), 8)[i]);
        assert(forall|i: int| 0 <= i < 8 ==> s[i] == frame(x)[i]);
    }
    assert(le_bytes(y.len(), 8) =~= s.take(8)) by {
        assert(forall|i: int| 0 <= i < 8 ==> frame(y)[i] == le_bytes(y.len(), 8)[i]);
        assert(forall|i: int| 0 <= i < 8 ==> (frame(y) + ry)[i] == frame(y)[i]);
    }
    assert(x.len() == le_value(s.take(8)));
    assert(y.len() == le_value(s.take(8)));
    assert forall|i: int| 0 <= i < x.len() implies x[i] == y[i] by {
        assert(frame(x)[8 + i] == x[i]);
        assert(s[8 + i] == frame(x)[8 + i]);
        assert((frame(y) + ry)[8 + i] == frame(y)[8 + i]);
        assert(frame(y)[8 + i] == y[i]);
    }
    assert(x =~= y);
    assert(frame(x).len() == frame(y).len());
    assert(rx.len() == ry.len());
    assert forall|i: int| 0 <= i < rx.len() implies rx[i] == ry[i] by {
        assert(s[frame(x).len() + i] == rx[i]);
        assert((frame(y) + ry)[frame(y).len() + i] == ry[i]);
    }
    assert(rx =~= ry);
}


/// `256^8` written out.
pub proof fn lemma_pow256_8()
    ensures
        pow256(8) == 0x10000000000000000,
{
    assert(pow256(0) == 1);
    assert(pow256(1) == 256);
    assert(pow256(2) == 0x10000);
    assert(pow256(3) == 0x1000000);
    assert(pow256(4) == 0x100000000);
    assert(pow256(5) == 0x10000000000);
    assert(pow256(6) == 0x1000000000000);
    assert(pow256(7) == 0x100000000000000);
}

} // verus!
