//! Text helpers: UTF-8 byte offsets of character positions, and the few
//! `String` operations that the library needs.
use vstd::prelude::*;
use vstd::utf8::*;

verus! {

/// Number of bytes of the UTF-8 encoding of `c`.
pub open spec fn char_width(c: char) -> nat {
    encode_scalar(c as u32).len()
}

/// Byte offset of character position `i` in `s`: the length of the UTF-8
/// encoding of the first `i` characters.
pub open spec fn byte_pos(s: Seq<char>, i: int) -> nat {
    encode_utf8(s.take(i)).len()
}

pub proof fn lemma_encode_concat(a: Seq<char>, b: Seq<char>)
    ensures
        encode_utf8(a + b) == encode_utf8(a) + encode_utf8(b),
    decreases a.len(),
{
    if a.len() == 0 {
        assert(a + b =~= b);
        assert(encode_utf8(a) =~= Seq::<u8>::empty());
        assert(encode_utf8(a) + encode_utf8(b) =~= encode_utf8(b));
    } else {
        assert((a + b).drop_first() =~= a.drop_first() + b);
        lemma_encode_concat(a.drop_first(), b);
        assert((a + b)[0] == a[0]);
        assert(encode_utf8(a + b) =~= encode_scalar(a[0] as u32) + encode_utf8(a.drop_first() + b));
        assert(encode_utf8(a) + encode_utf8(b) =~= encode_scalar(a[0] as u32) + (encode_utf8(
            a.drop_first(),
        ) + encode_utf8(b)));
    }
}

pub proof fn lemma_encode_single(c: char)
    ensures
        encode_utf8(seq![c]) == encode_scalar(c as u32),
{
    let s = seq![c];
    assert(s.drop_first() =~= Seq::<char>::empty());
    assert(encode_utf8(s.drop_first()) =~= Seq::<u8>::empty());
    assert(encode_utf8(s) =~= encode_scalar(c as u32) + Seq::<u8>::empty());
}

/// Advancing one character advances the byte offset by that character's width.
pub proof fn lemma_byte_pos_step(s: Seq<char>, i: int)
    requires
        0 <= i < s.len(),
    ensures
        byte_pos(s, i + 1) == byte_pos(s, i) + char_width(s[i]),
{
    assert(s.take(i + 1) =~= s.take(i) + seq![s[i]]);
    lemma_encode_concat(s.take(i), seq![s[i]]);
    lemma_encode_single(s[i]);
}

/// Byte offsets grow with character positions.
pub proof fn lemma_byte_pos_mono(s: Seq<char>, i: int, j: int)
    requires
        0 <= i <= j <= s.len(),
    ensures
        byte_pos(s, i) <= byte_pos(s, j),
    decreases j - i,
{
    if i < j {
        lemma_byte_pos_step(s, j - 1);
        lemma_byte_pos_mono(s, i, j - 1);
    }
}

/// Byte offsets grow strictly with character positions.
pub proof fn lemma_byte_pos_strict(s: Seq<char>, i: int, j: int)
    requires
        0 <= i < j <= s.len(),
    ensures
        byte_pos(s, i) < byte_pos(s, j),
{
    lemma_byte_pos_step(s, j - 1);
    lemma_width_pos(s[j - 1]);
    lemma_byte_pos_mono(s, i, j - 1);
}

/// Every character takes at least one byte.
pub proof fn lemma_byte_pos_ge(s: Seq<char>, i: int)
    requires
        0 <= i <= s.len(),
    ensures
        byte_pos(s, i) >= i,
    decreases i,
{
    if i > 0 {
        lemma_byte_pos_step(s, i - 1);
        lemma_width_pos(s[i - 1]);
        lemma_byte_pos_ge(s, i - 1);
    } else {
        assert(s.take(0) =~= Seq::<char>::empty());
    }
}

pub proof fn lemma_width_pos(c: char)
    ensures
        1 <= char_width(c) <= 4,
        (c as u32) < 0x80 <==> char_width(c) == 1,
{
}

/// The number of bytes that `c` takes in UTF-8.
pub fn utf8_width(c: char) -> (w: usize)
    ensures
        w == char_width(c),
{
    let u = c as u32;
    if u <= 0x7f {
        1
    } else if u <= 0x7ff {
        2
    } else if u <= 0xffff {
        3
    } else {
        4
    }
}


/// The characters of `s`, in order.
pub fn chars_of(s: &str) -> (v: Vec<char>)
    ensures
        v@ == s@,
{
    broadcast use vstd::string::group_string_axioms;

    let mut v: Vec<char> = Vec::new();
    for c in iter: s.chars()
        invariant
            v@ == iter.seq().take(iter.index() as int),
    {
        v.push(c);
    }
    v
}

/// Appends `c` to `s` (`String::push`).
#[verifier::external_body]
pub fn string_push(s: &mut String, c: char)
    ensures
        final(s)@ == old(s)@.push(c),
{
    s.push(c);
}

/// The decimal digit `d` (for `d < 10`).
pub open spec fn digit_char(d: nat) -> char {
    if d == 0 {
        '0'
    } else if d == 1 {
        '1'
    } else if d == 2 {
        '2'
    } else if d == 3 {
        '3'
    } else if d == 4 {
        '4'
    } else if d == 5 {
        '5'
    } else if d == 6 {
        '6'
    } else if d == 7 {
        '7'
    } else if d == 8 {
        '8'
    } else {
        '9'
    }
}

/// The decimal digits of `n`, most significant first.
pub open spec fn decimal_text(n: nat) -> Seq<char>
    decreases n,
{
    if n < 10 {
        seq![digit_char(n)]
    } else {
        decimal_text(n / 10).push(digit_char(n % 10))
    }
}

/// The decimal digit `d`.
pub fn digit(d: usize) -> (c: char)
    requires
        d < 10,
    ensures
        c == digit_char(d as nat),
{
    match d {
        0 => '0',
        1 => '1',
        2 => '2',
        3 => '3',
        4 => '4',
        5 => '5',
        6 => '6',
        7 => '7',
        8 => '8',
        _ => '9',
    }
}

/// Appends the decimal digits of `n`.
pub fn push_decimal(s: &mut String, n: usize)
    ensures
        final(s)@ == old(s)@ + decimal_text(n as nat),
    decreases n,
{
    if n >= 10 {
        push_decimal(s, n / 10);
    }
    string_push(s, digit(n % 10));
    assert(n >= 10 ==> decimal_text(n as nat) == decimal_text((n / 10) as nat).push(
        digit_char((n % 10) as nat),
    ));
}

} // verus!
