use vstd::prelude::*;

verus! {

// Character classes and small text codecs used by store paths, reference
// names and the metadata record. Everything here is ASCII by construction.

/// Digits of the base-32 alphabet used by store-path hashes
/// (`0123456789abcdfghijklmnpqrsvwxyz`: lower-case letters without e, o, t, u).
pub open spec fn is_base32_char(c: char) -> bool {
    ('0' <= c && c <= '9') || (('a' <= c && c <= 'z') && c != 'e' && c != 'o' && c != 't' && c
        != 'u')
}

/// Lower-case hexadecimal digits.
pub open spec fn is_hex_char(c: char) -> bool {
    ('0' <= c && c <= '9') || ('a' <= c && c <= 'f')
}

/// Decimal digits.
pub open spec fn is_digit_char(c: char) -> bool {
    '0' <= c && c <= '9'
}

/// Characters accepted in the name part of a store path.
pub open spec fn is_name_char(c: char) -> bool {
    is_digit_char(c) || ('a' <= c && c <= 'z') || ('A' <= c && c <= 'Z') || c == '+' || c == '-'
        || c == '.' || c == '_' || c == '?' || c == '='
}

/// Every character of `s` lies in the printable ASCII range and is not a
/// space or newline; such a sequence survives the line-oriented record form.
pub open spec fn is_token_seq(s: Seq<char>) -> bool {
    forall|i: int| 0 <= i < s.len() ==> ' ' < #[trigger] s[i] && s[i] <= '~'
}

pub fn check_base32_char(c: char) -> (r: bool)
    ensures
        r == is_base32_char(c),
{
    ('0' <= c && c <= '9') || (('a' <= c && c <= 'z') && c != 'e' && c != 'o' && c != 't' && c
        != 'u')
}

pub fn check_name_char(c: char) -> (r: bool)
    ensures
        r == is_name_char(c),
{
    ('0' <= c && c <= '9') || ('a' <= c && c <= 'z') || ('A' <= c && c <= 'Z') || c == '+' || c
        == '-' || c == '.' || c == '_' || c == '?' || c == '='
}

/// The character that prints the decimal digit `d`.
pub open spec fn digit_char(d: nat) -> char {
    ((d + 48) as u8) as char
}

/// The character that prints the hexadecimal digit `d`, lower case.
pub open spec fn hex_digit_char(d: nat) -> char {
    if d < 10 {
        digit_char(d)
    } else {
        ((d + 87) as u8) as char
    }
}

/// Decimal print of `n`, most significant digit first, no leading zeros.
pub open spec fn dec_digits(n: nat) -> Seq<char>
    decreases n,
{
    if n < 10 {
        seq![digit_char(n)]
    } else {
        dec_digits(n / 10).push(digit_char(n % 10))
    }
}

/// Value of a digit sequence read as decimal.
pub open spec fn dec_value(s: Seq<char>) -> nat
    decreases s.len(),
{
    if s.len() == 0 {
        0
    } else {
        dec_value(s.drop_last()) * 10 + (if s.last() as nat >= 48 {
            (s.last() as nat - 48) as nat
        } else {
            0
        })
    }
}

/// A canonical decimal print: nonempty, digits only, no leading zero.
pub open spec fn is_dec_print(s: Seq<char>) -> bool {
    &&& s.len() > 0
    &&& forall|i: int| 0 <= i < s.len() ==> is_digit_char(#[trigger] s[i])
    &&& (s.len() > 1 ==> s[0] != '0')
}

/// Lower-case hexadecimal print of a byte string, two digits per byte.
pub open spec fn hex_of(b: Seq<u8>) -> Seq<char>
    decreases b.len(),
{
    if b.len() == 0 {
        Seq::<char>::empty()
    } else {
        hex_of(b.drop_last()) + seq![
            hex_digit_char((b.last() / 16) as nat),
            hex_digit_char((b.last() % 16) as nat),
        ]
    }
}

/// Reading `dec_digits(n)` back as decimal gives `n`, and the print is
/// canonical.
pub proof fn lemma_dec_digits_value(n: nat)
    ensures
        dec_value(dec_digits(n)) == n,
        is_dec_print(dec_digits(n)),
        n > 0 ==> dec_digits(n)[0] != '0',
        n >= 10 ==> dec_digits(n).len() >= 2,
    decreases n,
{
    lemma_digit_char_shape(n % 10);
    if n < 10 {
        assert(dec_digits(n) == seq![digit_char(n)]);
        assert(dec_digits(n).drop_last() =~= Seq::<char>::empty());
        assert(dec_value(Seq::<char>::empty()) == 0);
        assert(dec_digits(n)[0] == digit_char(n));
        assert(dec_value(dec_digits(n)) == n);
    } else {
        lemma_dec_digits_value(n / 10);
        let s = dec_digits(n / 10);
        let c = digit_char(n % 10);
        assert(dec_digits(n) == s.push(c));
        assert(dec_digits(n).drop_last() =~= s);
        assert(dec_value(dec_digits(n)) == n / 10 * 10 + n % 10);
        if n / 10 < 10 {
            lemma_digit_char_shape(n / 10);
            assert(s == seq![digit_char(n / 10)]);
            assert(s[0] != '0');
        }
        assert(dec_digits(n)[0] == s[0]);
        assert forall|i: int| 0 <= i < dec_digits(n).len() implies is_digit_char(
            #[trigger] dec_digits(n)[i],
        ) by {
            if i < s.len() {
                assert(dec_digits(n)[i] == s[i]);
            } else {
                assert(dec_digits(n)[i] == c);
            }
        }
    }
}

/// `digit_char(d)` is the digit character with code `d + 48`.
pub proof fn lemma_digit_char_shape(d: nat)
    requires
        d < 10,
    ensures
        digit_char(d) as nat == d + 48,
        is_digit_char(digit_char(d)),
        d > 0 ==> digit_char(d) != '0',
{
    assert('0' as nat == 48);
    assert('9' as nat == 57);
    assert(((d + 48) as u8) as char as nat == d + 48);
}

/// Appends the single decimal digit `d` to `out`.
pub fn append_digit(out: &mut String, d: u8)
    requires
        d < 10,
    ensures
        final(out)@ == old(out)@.push(digit_char(d as nat)),
{
    proof {
        reveal_strlit("0");
        reveal_strlit("1");
        reveal_strlit("2");
        reveal_strlit("3");
        reveal_strlit("4");
        reveal_strlit("5");
        reveal_strlit("6");
        reveal_strlit("7");
        reveal_strlit("8");
        reveal_strlit("9");
    }
    match d {
        0 => out.append("0"),
        1 => out.append("1"),
        2 => out.append("2"),
        3 => out.append("3"),
        4 => out.append("4"),
        5 => out.append("5"),
        6 => out.append("6"),
        7 => out.append("7"),
        8 => out.append("8"),
        _ => out.append("9"),
    }
    proof {
        assert(out@ =~= old(out)@.push(digit_char(d as nat)));
    }
}

/// Appends the decimal print of `n` to `out`.
pub fn append_dec(out: &mut String, n: u64)
    ensures
        final(out)@ == old(out)@ + dec_digits(n as nat),
    decreases n,
{
    if n >= 10 {
        append_dec(out, n / 10);
    }
    append_digit(out, (n % 10) as u8);
    proof {
        assert(out@ =~= old(out)@ + dec_digits(n as nat));
    }
}

/// Appends the single hexadecimal digit `d` to `out`.
pub fn append_hex_digit(out: &mut String, d: u8)
    requires
        d < 16,
    ensures
        final(out)@ == old(out)@.push(hex_digit_char(d as nat)),
{
    if d < 10 {
        append_digit(out, d);
    } else {
        proof {
            reveal_strlit("a");
            reveal_strlit("b");
            reveal_strlit("c");
            reveal_strlit("d");
            reveal_strlit("e");
            reveal_strlit("f");
        }
        match d {
            10 => out.append("a"),
            11 => out.append("b"),
            12 => out.append("c"),
            13 => out.append("d"),
            14 => out.append("e"),
            _ => out.append("f"),
        }
    }
    proof {
        assert(out@ =~= old(out)@.push(hex_digit_char(d as nat)));
    }
}

/// Appends the lower-case hexadecimal print of `b` to `out`.
pub fn append_hex(out: &mut String, b: &Vec<u8>)
    ensures
        final(out)@ == old(out)@ + hex_of(b@),
{
    let mut i: usize = 0;
    while i < b.len()
        invariant
            i <= b.len(),
            out@ == old(out)@ + hex_of(b@.take(i as int)),
        decreases b.len() - i,
    {
        let x = b[i];
        append_hex_digit(out, x / 16);
        append_hex_digit(out, x % 16);
        proof {
            assert(b@.take(i + 1).drop_last() =~= b@.take(i as int));
            assert(b@.take(i + 1).last() == b@[i as int]);
            assert(out@ =~= old(out)@ + hex_of(b@.take(i + 1)));
        }
        i = i + 1;
    }
    proof {
        assert(b@.take(b@.len() as int) =~= b@);
    }
}


/// Reading more digits never decreases the decimal value.
pub proof fn lemma_dec_value_prefix(s: Seq<char>, i: int)
    requires
        0 <= i <= s.len(),
    ensures
        dec_value(s.take(i)) <= dec_value(s),
    decreases s.len() - i,
{
    if i < s.len() {
        lemma_dec_value_prefix(s, i + 1);
        assert(s.take(i + 1).drop_last() =~= s.take(i));
        assert(dec_value(s.take(i + 1)) >= dec_value(s.take(i)) * 10);
        assert(s.take(s.len() as int) =~= s);
    } else {
        assert(s.take(i) =~= s);
    }
}


/// Printing one more byte appends its two digits.
pub proof fn lemma_hex_of_push(b: Seq<u8>, x: u8)
    ensures
        hex_of(b.push(x)) == hex_of(b) + seq![
            hex_digit_char((x / 16) as nat),
            hex_digit_char((x % 16) as nat),
        ],
{
    assert(b.push(x).drop_last() =~= b);
    assert(b.push(x).last() == x);
}

/// The value of one lower-case hexadecimal digit character.
pub fn hex_digit_val(c: char) -> (r: Option<u8>)
    ensures
        match r {
            Some(d) => d < 16 && hex_digit_char(d as nat) == c,
            None => !is_hex_char(c),
        },
{
    if '0' <= c && c <= '9' {
        let d = ((c as u32) - 48) as u8;
        proof {
            assert('0' as nat == 48 && '9' as nat == 57);
            assert(((d + 48) as u8) as char == c);
        }
        Some(d)
    } else if 'a' <= c && c <= 'f' {
        let d = ((c as u32) - 87) as u8;
        proof {
            assert('a' as nat == 97 && 'f' as nat == 102);
            assert(((d + 87) as u8) as char == c);
        }
        Some(d)
    } else {
        None
    }
}

/// A sequence that some byte string prints to: even length, hexadecimal
/// digits only.
pub open spec fn is_hex_seq(s: Seq<char>) -> bool {
    s.len() % 2 == 0 && forall|i: int| 0 <= i < s.len() ==> is_hex_char(#[trigger] s[i])
}

/// Reads a lower-case hexadecimal print back into bytes; refuses exactly
/// the inputs no byte string prints to.
pub fn parse_hex(s: &str) -> (r: Option<Vec<u8>>)
    ensures
        match r {
            Some(b) => hex_of(b@) == s@,
            None => !is_hex_seq(s@),
        },
{
    let n = s.unicode_len();
    if n % 2 != 0 {
        return None;
    }
    let mut out: Vec<u8> = Vec::new();
    let mut i: usize = 0;
    proof {
        assert(hex_of(out@) =~= s@.take(0));
    }
    #[verifier::loop_isolation(false)]
    while i < n
        invariant
            i <= n,
            i % 2 == 0,
            out@.len() * 2 == i,
            hex_of(out@) == s@.take(i as int),
        decreases n - i,
    {
        let hi = match hex_digit_val(s.get_char(i)) {
            Some(d) => d,
            None => {
                return None;
            },
        };
        let lo = match hex_digit_val(s.get_char(i + 1)) {
            Some(d) => d,
            None => {
                return None;
            },
        };
        let x = hi * 16 + lo;
        let ghost before = out@;
        out.push(x);
        proof {
            lemma_hex_of_push(before, x);
            assert((x / 16) as nat == hi as nat && (x % 16) as nat == lo as nat);
            assert(hex_of(out@) =~= s@.take(i + 2));
        }
        i = i + 2;
    }
    proof {
        assert(s@.take(n as int) =~= s@);
    }
    Some(out)
}


/// Every hexadecimal print is a hexadecimal sequence.
pub proof fn lemma_hex_of_is_hex_seq(b: Seq<u8>)
    ensures
        is_hex_seq(hex_of(b)),
    decreases b.len(),
{
    if b.len() > 0 {
        lemma_hex_of_is_hex_seq(b.drop_last());
        let h = hex_of(b);
        let hp = hex_of(b.drop_last());
        assert forall|i: int| 0 <= i < h.len() implies is_hex_char(#[trigger] h[i]) by {
            if i < hp.len() {
                assert(h[i] == hp[i]);
            } else {
                let d = if i == h.len() - 2 {
                    (b.last() / 16) as nat
                } else {
                    (b.last() % 16) as nat
                };
                assert(h[i] == hex_digit_char(d));
                assert('0' as nat == 48 && '9' as nat == 57 && 'a' as nat == 97 && 'f' as nat
                    == 102);
                if d < 10 {
                    lemma_digit_char_shape(d);
                } else {
                    assert(hex_digit_char(d) as nat == d + 87);
                }
            }
        }
    }
}

} // verus!
