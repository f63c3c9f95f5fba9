//! Text primitives: byte-wise lexicographic order, equality and character access.

use vstd::prelude::*;
use vstd::string::StringExecFns;
use vstd::string::StrSliceExecFns;
use vstd::utf8::encode_utf8;
use vstd::utf8::encode_utf8_decode_utf8;

verus! {

/// Outcome of a three-way comparison.
#[derive(Clone, Copy, Debug, PartialEq, Eq, Structural)]
pub enum Rank {
    Less,
    Equal,
    Greater,
}

impl Rank {
    /// The outcome of the same comparison with its operands exchanged.
    pub open spec fn flip(self) -> Rank {
        match self {
            Rank::Less => Rank::Greater,
            Rank::Equal => Rank::Equal,
            Rank::Greater => Rank::Less,
        }
    }

    /// Lexicographic combination: `self` decides unless it is `Equal`.
    pub open spec fn or(self, next: Rank) -> Rank {
        if self == Rank::Equal {
            next
        } else {
            self
        }
    }
}

/// Three-way comparison of two integers.
pub open spec fn int_rank(a: int, b: int) -> Rank {
    if a < b {
        Rank::Less
    } else if a == b {
        Rank::Equal
    } else {
        Rank::Greater
    }
}

/// Lexicographic comparison of two byte sequences: the first differing byte
/// decides, and a proper prefix precedes the longer sequence.
pub open spec fn bytes_rank(a: Seq<u8>, b: Seq<u8>) -> Rank
    decreases a.len(),
{
    if a.len() == 0 {
        if b.len() == 0 {
            Rank::Equal
        } else {
            Rank::Less
        }
    } else if b.len() == 0 {
        Rank::Greater
    } else if a[0] != b[0] {
        int_rank(a[0] as int, b[0] as int)
    } else {
        bytes_rank(a.drop_first(), b.drop_first())
    }
}

/// Lexicographic comparison of two texts by their UTF-8 encoding.
pub open spec fn str_rank(a: Seq<char>, b: Seq<char>) -> Rank {
    bytes_rank(encode_utf8(a), encode_utf8(b))
}

/// Two byte sequences compare `Equal` exactly when they are the same sequence.
pub proof fn lemma_bytes_rank_equal(a: Seq<u8>, b: Seq<u8>)
    ensures
        bytes_rank(a, b) == Rank::Equal <==> a == b,
    decreases a.len(),
{
    if a.len() > 0 && b.len() > 0 && a[0] == b[0] {
        lemma_bytes_rank_equal(a.drop_first(), b.drop_first());
        if a.drop_first() == b.drop_first() {
            assert(a =~= seq![a[0]] + a.drop_first());
            assert(b =~= seq![b[0]] + b.drop_first());
        }
    } else if a.len() == 0 && b.len() == 0 {
        assert(a =~= b);
    }
}

/// Exchanging the operands flips the outcome.
pub proof fn lemma_bytes_rank_flip(a: Seq<u8>, b: Seq<u8>)
    ensures
        bytes_rank(b, a) == bytes_rank(a, b).flip(),
    decreases a.len(),
{
    if a.len() > 0 && b.len() > 0 && a[0] == b[0] {
        lemma_bytes_rank_flip(a.drop_first(), b.drop_first());
    }
}

/// `Less` is transitive.
pub proof fn lemma_bytes_rank_trans(a: Seq<u8>, b: Seq<u8>, c: Seq<u8>)
    requires
        bytes_rank(a, b) == Rank::Less,
        bytes_rank(b, c) == Rank::Less,
    ensures
        bytes_rank(a, c) == Rank::Less,
    decreases a.len(),
{
    if a.len() > 0 && b.len() > 0 && c.len() > 0 && a[0] == b[0] && b[0] == c[0] {
        lemma_bytes_rank_trans(a.drop_first(), b.drop_first(), c.drop_first());
    }
}

/// Two texts compare `Equal` exactly when they are the same text.
pub proof fn lemma_str_rank_equal(a: Seq<char>, b: Seq<char>)
    ensures
        str_rank(a, b) == Rank::Equal <==> a == b,
{
    lemma_bytes_rank_equal(encode_utf8(a), encode_utf8(b));
    encode_utf8_decode_utf8(a);
    encode_utf8_decode_utf8(b);
}

/// Exchanging the operands flips the outcome.
pub proof fn lemma_str_rank_flip(a: Seq<char>, b: Seq<char>)
    ensures
        str_rank(b, a) == str_rank(a, b).flip(),
{
    lemma_bytes_rank_flip(encode_utf8(a), encode_utf8(b));
}

/// `Less` is transitive.
pub proof fn lemma_str_rank_trans(a: Seq<char>, b: Seq<char>, c: Seq<char>)
    requires
        str_rank(a, b) == Rank::Less,
        str_rank(b, c) == Rank::Less,
    ensures
        str_rank(a, c) == Rank::Less,
{
    lemma_bytes_rank_trans(encode_utf8(a), encode_utf8(b), encode_utf8(c));
}

/// Compares two byte slices lexicographically.
pub fn rank_bytes(a: &[u8], b: &[u8]) -> (r: Rank)
    ensures
        r == bytes_rank(a@, b@),
{
    let mut i: usize = 0;
    proof {
        assert(a@.skip(0) =~= a@);
        assert(b@.skip(0) =~= b@);
    }
    while i < a.len() && i < b.len()
        invariant
            i <= a@.len(),
            i <= b@.len(),
            bytes_rank(a@, b@) == bytes_rank(a@.skip(i as int), b@.skip(i as int)),
        decreases a@.len() - i,
    {
        let x: u8 = a[i];
        let y: u8 = b[i];
        proof {
            assert(a@.skip(i as int)[0] == x);
            assert(b@.skip(i as int)[0] == y);
            assert(a@.skip(i as int).drop_first() =~= a@.skip(i + 1));
            assert(b@.skip(i as int).drop_first() =~= b@.skip(i + 1));
        }
        if x < y {
            return Rank::Less;
        }
        if x > y {
            return Rank::Greater;
        }
        i += 1;
    }
    if i < b.len() {
        Rank::Less
    } else if i < a.len() {
        Rank::Greater
    } else {
        Rank::Equal
    }
}

/// Compares two texts lexicographically by their UTF-8 bytes.
pub fn rank_str(a: &str, b: &str) -> (r: Rank)
    ensures
        r == str_rank(a@, b@),
{
    rank_bytes(a.as_bytes(), b.as_bytes())
}

/// Whether two texts hold the same characters.
pub fn str_eq(a: &str, b: &str) -> (r: bool)
    ensures
        r == (a@ == b@),
{
    proof {
        lemma_str_rank_equal(a@, b@);
    }
    match rank_str(a, b) {
        Rank::Equal => true,
        _ => false,
    }
}

/// Whether `c` is alphabetic in the sense of `char::is_alphabetic`.
pub uninterp spec fn char_is_alphabetic(c: char) -> bool;

/// Whether `c` is numeric in the sense of `char::is_numeric`.
pub uninterp spec fn char_is_numeric(c: char) -> bool;

/// Whether `c` is white space in the sense of `char::is_whitespace`.
pub uninterp spec fn char_is_whitespace(c: char) -> bool;

/// `char::is_alphabetic` of the standard library: its answer depends on the
/// character alone, and is what `char_is_alphabetic` names.
pub assume_specification[ char::is_alphabetic ](c: char) -> (r: bool)
    ensures
        r == char_is_alphabetic(c),
;

/// `char::is_numeric` of the standard library: its answer depends on the
/// character alone, and is what `char_is_numeric` names.
pub assume_specification[ char::is_numeric ](c: char) -> (r: bool)
    ensures
        r == char_is_numeric(c),
;

/// `char::is_whitespace` of the standard library: its answer depends on the
/// character alone, and is what `char_is_whitespace` names.
pub assume_specification[ char::is_whitespace ](c: char) -> (r: bool)
    ensures
        r == char_is_whitespace(c),
;

/// The characters of `s`, in order.
pub fn chars_of(s: &str) -> (v: Vec<char>)
    ensures
        v@ == s@,
{
    let mut v: Vec<char> = Vec::new();
    for c in it: s.chars()
        invariant
            it.seq() == s@,
            v@ == it.seq().take(it.index()),
    {
        v.push(c);
    }
    v
}

/// The decimal digit for `d`.
pub open spec fn digit_char(d: nat) -> char
    recommends
        d < 10,
{
    if d == 0 {
        '0'
    } else if d == 1 {
        '1'
    } else if d == 2 {
        '2'
    } else if d == 3 {
        '3'
    } else if d == 4 {
        '4'
    } else if d == 5 {
        '5'
    } else if d == 6 {
        '6'
    } else if d == 7 {
        '7'
    } else if d == 8 {
        '8'
    } else {
        '9'
    }
}

/// `n` written in decimal, without leading zeros.
pub open spec fn decimal(n: nat) -> Seq<char>
    decreases n,
{
    if n < 10 {
        seq![digit_char(n)]
    } else {
        decimal(n / 10).push(digit_char(n % 10))
    }
}

/// `n` spaces.
pub open spec fn spaces(n: nat) -> Seq<char> {
    Seq::new(n, |i: int| ' ')
}

/// `s` aligned to the right in a field of `width` characters; a longer `s`
/// is left as it is.
pub open spec fn pad_left(s: Seq<char>, width: nat) -> Seq<char> {
    if s.len() >= width {
        s
    } else {
        spaces((width - s.len()) as nat) + s
    }
}

/// `s` aligned to the left in a field of `width` characters; a longer `s`
/// is left as it is.
pub open spec fn pad_right(s: Seq<char>, width: nat) -> Seq<char> {
    if s.len() >= width {
        s
    } else {
        s + spaces((width - s.len()) as nat)
    }
}

fn digit_str(d: u8) -> (s: &'static str)
    requires
        d < 10,
    ensures
        s@ == seq![digit_char(d as nat)],
{
    proof {
        reveal_strlit("0");
        reveal_strlit("1");
        reveal_strlit("2");
        reveal_strlit("3");
        reveal_strlit("4");
        reveal_strlit("5");
        reveal_strlit("6");
        reveal_strlit("7");
        reveal_strlit("8");
        reveal_strlit("9");
        assert("0"@ =~= seq!['0']);
        assert("1"@ =~= seq!['1']);
        assert("2"@ =~= seq!['2']);
        assert("3"@ =~= seq!['3']);
        assert("4"@ =~= seq!['4']);
        assert("5"@ =~= seq!['5']);
        assert("6"@ =~= seq!['6']);
        assert("7"@ =~= seq!['7']);
        assert("8"@ =~= seq!['8']);
        assert("9"@ =~= seq!['9']);
    }
    if d == 0 {
        "0"
    } else if d == 1 {
        "1"
    } else if d == 2 {
        "2"
    } else if d == 3 {
        "3"
    } else if d == 4 {
        "4"
    } else if d == 5 {
        "5"
    } else if d == 6 {
        "6"
    } else if d == 7 {
        "7"
    } else if d == 8 {
        "8"
    } else {
        "9"
    }
}

/// Appends `n` in decimal to `out`.
pub fn append_decimal(out: &mut String, n: u128)
    ensures
        final(out)@ == old(out)@ + decimal(n as nat),
    decreases n,
{
    if n >= 10 {
        append_decimal(out, n / 10);
    }
    let d: u8 = (n % 10) as u8;
    out.append(digit_str(d));
    proof {
        if n >= 10 {
            assert(old(out)@ + decimal((n / 10) as nat) + seq![digit_char(d as nat)] =~= old(out)@
                + decimal(n as nat));
        }
    }
}

/// `n` in decimal.
pub fn decimal_string(n: u128) -> (s: String)
    ensures
        s@ == decimal(n as nat),
{
    let mut s = String::new();
    append_decimal(&mut s, n);
    proof {
        assert(Seq::<char>::empty() + decimal(n as nat) =~= decimal(n as nat));
    }
    s
}

/// Appends `n` spaces to `out`.
pub fn append_spaces(out: &mut String, n: usize)
    ensures
        final(out)@ == old(out)@ + spaces(n as nat),
{
    let mut i: usize = 0;
    proof {
        reveal_strlit(" ");
        assert(" "@ =~= seq![' ']);
        assert(out@ + spaces(0) =~= out@);
    }
    while i < n
        invariant
            i <= n,
            " "@ == seq![' '],
            out@ == old(out)@ + spaces(i as nat),
        decreases n - i,
    {
        out.append(" ");
        proof {
            assert(old(out)@ + spaces(i as nat) + seq![' '] =~= old(out)@ + spaces((i + 1) as nat));
        }
        i += 1;
    }
}

/// Appends `s` to `out`, aligned to the right in a field of `width` characters.
pub fn append_padded_left(out: &mut String, s: &str, width: usize)
    ensures
        final(out)@ == old(out)@ + pad_left(s@, width as nat),
{
    let len = s.unicode_len();
    if len < width {
        append_spaces(out, width - len);
    }
    out.append(s);
    proof {
        if len < width {
            assert(old(out)@ + spaces((width - len) as nat) + s@ =~= old(out)@ + pad_left(
                s@,
                width as nat,
            ));
        }
    }
}

/// Appends `s` to `out`, aligned to the left in a field of `width` characters.
pub fn append_padded_right(out: &mut String, s: &str, width: usize)
    ensures
        final(out)@ == old(out)@ + pad_right(s@, width as nat),
{
    let len = s.unicode_len();
    out.append(s);
    if len < width {
        append_spaces(out, width - len);
        proof {
            assert(old(out)@ + s@ + spaces((width - len) as nat) =~= old(out)@ + pad_right(
                s@,
                width as nat,
            ));
        }
    }
}

} // verus!
