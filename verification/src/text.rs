//! Character-level helpers shared by the other modules: reading a string as
//! characters, ASCII case folding, exact comparison, and decimal rendering.
use vstd::prelude::*;
use vstd::utf8::*;

verus! {

/// The code point of `c` after ASCII case folding: `A`..`Z` become
/// `a`..`z`, every other character is left alone.
pub open spec fn lower_code(c: char) -> u32 {
    if 'A' <= c && c <= 'Z' {
        (c as u32 + 32) as u32
    } else {
        c as u32
    }
}

/// `c` after ASCII case folding.
pub open spec fn lower_char(c: char) -> char {
    if 'A' <= c && c <= 'Z' {
        lower_code(c) as char
    } else {
        c
    }
}

/// `s` after ASCII case folding of every character.
pub open spec fn ascii_lower(s: Seq<char>) -> Seq<char> {
    s.map_values(|c: char| lower_char(c))
}

/// The characters of `s`, in order.
pub fn chars_of(s: &str) -> (res: Vec<char>)
    ensures
        res@ == s@,
{
    let n = s.unicode_len();
    let mut out: Vec<char> = Vec::new();
    let mut i: usize = 0;
    while i < n
        invariant
            n == s@.len(),
            i <= n,
            out@ == s@.subrange(0, i as int),
        decreases n - i,
    {
        let c = s.get_char(i);
        out.push(c);
        i = i + 1;
    }
    out
}

/// Whether `a` and `b` hold the same characters.
pub fn str_eq(a: &str, b: &str) -> (res: bool)
    ensures
        res == (a@ == b@),
{
    let n = a.unicode_len();
    let m = b.unicode_len();
    if n != m {
        return false;
    }
    let mut i: usize = 0;
    while i < n
        invariant
            n == a@.len(),
            m == b@.len(),
            n == m,
            i <= n,
            a@.subrange(0, i as int) == b@.subrange(0, i as int),
        decreases n - i,
    {
        if a.get_char(i) != b.get_char(i) {
            return false;
        }
        assert(a@.subrange(0, i + 1) == a@.subrange(0, i as int).push(a@[i as int]));
        assert(b@.subrange(0, i + 1) == b@.subrange(0, i as int).push(b@[i as int]));
        i = i + 1;
    }
    assert(a@ == a@.subrange(0, n as int));
    assert(b@ == b@.subrange(0, n as int));
    true
}

/// Whether the characters `chars[lo..hi]`, after ASCII case folding, spell
/// exactly `lit`.
pub fn folded_range_eq(chars: &Vec<char>, lo: usize, hi: usize, lit: &str) -> (res: bool)
    requires
        lo <= hi <= chars@.len(),
    ensures
        res == (ascii_lower(chars@.subrange(lo as int, hi as int)) == lit@),
{
    let ghost part = chars@.subrange(lo as int, hi as int);
    let n = lit.unicode_len();
    if hi - lo != n {
        assert(ascii_lower(part).len() != lit@.len());
        return false;
    }
    let mut i: usize = 0;
    while i < n
        invariant
            n == lit@.len(),
            hi - lo == n,
            lo <= hi <= chars@.len(),
            part == chars@.subrange(lo as int, hi as int),
            i <= n,
            forall|k: int| 0 <= k < i ==> lower_char(#[trigger] part[k]) == lit@[k],
        decreases n - i,
    {
        let c = chars[lo + i];
        let code: u32 = if 'A' <= c && c <= 'Z' {
            (c as u32) + 32
        } else {
            c as u32
        };
        let l = lit.get_char(i);
        assert(part[i as int] == c);
        assert(lower_code(c) == code);
        if code != (l as u32) {
            assert(ascii_lower(part)[i as int] == lower_char(c));
            assert(lower_char(c) != l) by {
                if 'A' <= c && c <= 'Z' {
                    assert(97 <= code <= 122);
                    assert((code as char) as u32 == code);
                }
            }
            return false;
        }
        assert(lower_char(c) == l) by {
            assert((l as u32) as char == l);
        }
        i = i + 1;
    }
    assert(ascii_lower(part) =~= lit@);
    true
}

/// Whether `chars[lo..hi]` is exactly the characters of `lit`.
pub fn range_eq(chars: &Vec<char>, lo: usize, hi: usize, lit: &str) -> (res: bool)
    requires
        lo <= hi <= chars@.len(),
    ensures
        res == (chars@.subrange(lo as int, hi as int) == lit@),
{
    let ghost part = chars@.subrange(lo as int, hi as int);
    let n = lit.unicode_len();
    if hi - lo != n {
        return false;
    }
    let mut i: usize = 0;
    while i < n
        invariant
            n == lit@.len(),
            hi - lo == n,
            lo <= hi <= chars@.len(),
            part == chars@.subrange(lo as int, hi as int),
            i <= n,
            forall|k: int| 0 <= k < i ==> #[trigger] part[k] == lit@[k],
        decreases n - i,
    {
        if chars[lo + i] != lit.get_char(i) {
            assert(part[i as int] != lit@[i as int]);
            return false;
        }
        i = i + 1;
    }
    assert(part =~= lit@);
    true
}

/// The decimal digit character for `d`.
pub open spec fn digit_char(d: nat) -> char {
    (48 + d) as char
}

/// The decimal rendering of `n`, without sign or leading zeros (`0` renders
/// as `"0"`).
pub open spec fn decimal(n: nat) -> Seq<char>
    decreases n,
{
    if n < 10 {
        seq![digit_char(n)]
    } else {
        decimal(n / 10).push(digit_char(n % 10))
    }
}

/// The decimal rendering of `n`.
pub fn decimal_string(n: usize) -> (res: String)
    ensures
        res@ == decimal(n as nat),
{
    // Collect digits from least significant upwards, then reverse.
    let mut digits: Vec<char> = Vec::new();
    let mut m: usize = n;
    loop
        invariant_except_break
            m <= n,
            decimal(n as nat) == decimal(m as nat) + digits@.reverse(),
        ensures
            decimal(n as nat) =~= digits@.reverse(),
        decreases m,
    {
        let d = m % 10;
        let c: char = if d == 0 {
            '0'
        } else if d == 1 {
            '1'
        } else if d == 2 {
            '2'
        } else if d == 3 {
            '3'
        } else if d == 4 {
            '4'
        } else if d == 5 {
            '5'
        } else if d == 6 {
            '6'
        } else if d == 7 {
            '7'
        } else if d == 8 {
            '8'
        } else {
            '9'
        };
        assert(c == digit_char(d as nat));
        let ghost old_digits = digits@;
        digits.push(c);
        assert(digits@.reverse() =~= seq![c] + old_digits.reverse());
        if m < 10 {
            assert(decimal(m as nat) == seq![c]);
            assert(decimal(n as nat) =~= digits@.reverse());
            break;
        }
        assert(decimal(m as nat) == decimal((m / 10) as nat).push(c));
        assert(decimal(m as nat) + old_digits.reverse() =~= decimal((m / 10) as nat) + (seq![c]
            + old_digits.reverse()));
        m = m / 10;
    }
    let mut out = String::new();
    let len = digits.len();
    let mut i: usize = 0;
    while i < len
        invariant
            len == digits@.len(),
            i <= len,
            decimal(n as nat) =~= digits@.reverse(),
            out@ =~= digits@.reverse().subrange(0, i as int),
        decreases len - i,
    {
        let c = digits[len - 1 - i];
        let ghost before = out@;
        push_char(&mut out, c);
        assert(out@ =~= digits@.reverse().subrange(0, i + 1));
        i = i + 1;
    }
    out
}

/// Appends one character to `s`.
#[verifier::external_body]
pub(crate) fn push_char(s: &mut String, c: char)
    ensures
        final(s)@ == old(s)@.push(c),
{
    s.push(c);
}

/// Appends the characters of `t` to `s`.
pub fn push_str(s: &mut String, t: &str)
    ensures
        final(s)@ == old(s)@ + t@,
{
    s.append(t);
}

/// A new string holding the characters of `t`.
pub fn string_of(t: &str) -> (res: String)
    ensures
        res@ == t@,
{
    String::from_str(t)
}

/// UTF-8 encoding distributes over concatenation.
pub proof fn lemma_encode_utf8_concat(a: Seq<char>, b: Seq<char>)
    ensures
        encode_utf8(a + b) == encode_utf8(a) + encode_utf8(b),
    decreases a.len(),
{
    if a.len() == 0 {
        assert(a + b =~= b);
        assert(encode_utf8(a) + encode_utf8(b) =~= encode_utf8(b));
    } else {
        lemma_encode_utf8_concat(a.drop_first(), b);
        assert((a + b).drop_first() =~= a.drop_first() + b);
        assert((a + b)[0] == a[0]);
        assert(encode_utf8(a + b) =~= encode_scalar(a[0] as u32) + encode_utf8(a.drop_first() + b));
        assert(encode_utf8(a) + encode_utf8(b) =~= encode_scalar(a[0] as u32) + (encode_utf8(
            a.drop_first(),
        ) + encode_utf8(b)));
    }
}

/// A position inside (or at the end of) a valid prefix is a character
/// boundary of the whole sequence exactly when it is one of the prefix.
pub proof fn lemma_boundary_in_prefix(a: Seq<u8>, b: Seq<u8>, p: int)
    requires
        valid_utf8(a),
        valid_utf8(b),
        0 <= p <= a.len(),
    ensures
        valid_utf8(a + b),
        is_char_boundary(a + b, p) == is_char_boundary(a, p),
{
    valid_utf8_concat(a, b);
    is_char_boundary_start_end_of_seq(a);
    is_char_boundary_start_end_of_seq(a + b);
    if p < a.len() {
        is_char_boundary_iff_not_is_continuation_byte(a, p);
        is_char_boundary_iff_not_is_continuation_byte(a + b, p);
        assert((a + b)[p] == a[p]);
    } else if b.len() == 0 {
        assert(a + b =~= a);
    } else {
        is_char_boundary_start_end_of_seq(b);
        is_char_boundary_iff_not_is_continuation_byte(b, 0);
        is_char_boundary_iff_not_is_continuation_byte(a + b, p);
        assert((a + b)[p] == b[0]);
    }
}

} // verus!
