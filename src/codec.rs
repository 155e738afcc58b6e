//! The two string escapes of DXF: caret escapes for control characters, and
//! `\U+HHHH` escapes for characters outside ASCII.
use vstd::prelude::*;

verus! {

broadcast use {vstd::utf8::char_is_scalar, vstd::utf8::char_u32_cast};

/// Relies on `String::push`: appends one character.
pub assume_specification[ String::push ](s: &mut String, ch: char)
    ensures
        final(s)@ == old(s)@.push(ch),
;

/// Relies on `char::from_u32`: the character with the given code point, or
/// `None` where the value is a surrogate or above `U+10FFFF`.
pub assume_specification[ core::char::from_u32 ](i: u32) -> (r: Option<char>)
    ensures
        r is Some <==> is_scalar_value(i as int),
        r matches Some(c) ==> c as u32 == i,
;

/// Code points that are Unicode scalar values.
pub open spec fn is_scalar_value(v: int) -> bool {
    (0 <= v < 0xD800) || (0xE000 <= v <= 0x10FFFF)
}

/// The characters of a string, in order.
pub fn chars_of(s: &str) -> (r: Vec<char>)
    ensures
        r@ == s@,
{
    let mut r: Vec<char> = Vec::new();
    for c in it: s.chars()
        invariant
            it.seq() == s@,
            r@ == it.seq().take(it.index() as int),
    {
        r.push(c);
    }
    r
}

/// Characters that the caret escape replaces: the control characters
/// `U+0000..=U+001F` and the caret itself.
pub open spec fn needs_caret(c: char) -> bool {
    (c as u32) <= 0x1F || c == '^'
}

/// The character that follows `^` in the escape of `c`: `@`, `A`, ... `_` for
/// the control characters (by code), a space for the caret.
pub open spec fn caret_code(c: char) -> char {
    if c == '^' {
        ' '
    } else {
        ((c as u32) + 0x40) as char
    }
}

/// What the caret escape makes of one character.
pub open spec fn caret_escape_char(c: char) -> Seq<char> {
    if needs_caret(c) {
        seq!['^', caret_code(c)]
    } else {
        seq![c]
    }
}

/// The caret escape of a whole string, character by character.
pub open spec fn caret_escape(s: Seq<char>) -> Seq<char>
    decreases s.len(),
{
    if s.len() == 0 {
        Seq::empty()
    } else {
        caret_escape(s.drop_last()) + caret_escape_char(s.last())
    }
}

/// The character that `^` followed by `n` stands for: a control character for
/// `@` to `_`, the caret for a space, and `n` itself otherwise.
pub open spec fn caret_decode(n: char) -> char {
    if '@' <= n && n <= '_' {
        ((n as u32) - 0x40) as char
    } else if n == ' ' {
        '^'
    } else {
        n
    }
}

/// Undoing the caret escape: each `^` and the character after it become one
/// character; a `^` that ends the string is dropped.
pub open spec fn caret_unescape(s: Seq<char>) -> Seq<char>
    decreases s.len(),
{
    if s.len() == 0 {
        Seq::empty()
    } else if s[0] == '^' {
        if s.len() == 1 {
            Seq::empty()
        } else {
            seq![caret_decode(s[1])] + caret_unescape(s.skip(2))
        }
    } else {
        seq![s[0]] + caret_unescape(s.skip(1))
    }
}

proof fn lemma_caret_escape_append(a: Seq<char>, b: Seq<char>)
    ensures
        caret_escape(a + b) == caret_escape(a) + caret_escape(b),
    decreases b.len(),
{
    if b.len() == 0 {
        assert(a + b == a);
        assert(caret_escape(b) == Seq::<char>::empty());
    } else {
        lemma_caret_escape_append(a, b.drop_last());
        assert((a + b).drop_last() == a + b.drop_last());
        assert((a + b).last() == b.last());
    }
}

proof fn lemma_caret_decode_code(c: char)
    requires
        needs_caret(c),
    ensures
        caret_decode(caret_code(c)) == c,
{
    if c != '^' {
        let v = c as u32;
        let n = (v + 0x40) as char;
        assert(n as u32 == v + 0x40);
        assert(((n as u32) - 0x40) as char == c);
    }
}

/// Escaping with carets and then unescaping gives back every string.
pub proof fn lemma_caret_round_trip(s: Seq<char>)
    ensures
        caret_unescape(caret_escape(s)) == s,
    decreases s.len(),
{
    if s.len() > 0 {
        let head = seq![s[0]];
        let rest = s.skip(1);
        assert(s == head + rest);
        lemma_caret_escape_append(head, rest);
        assert(head.drop_last() == Seq::<char>::empty());
        assert(caret_escape(head) == caret_escape_char(s[0])) by {
            assert(caret_escape(Seq::<char>::empty()) == Seq::<char>::empty());
            assert(caret_escape(head) == caret_escape(head.drop_last()) + caret_escape_char(s[0]));
        }
        let e = caret_escape_char(s[0]) + caret_escape(rest);
        lemma_caret_round_trip(rest);
        if needs_caret(s[0]) {
            assert(e[0] == '^');
            assert(e[1] == caret_code(s[0]));
            assert(e.skip(2) == caret_escape(rest));
            lemma_caret_decode_code(s[0]);
        } else {
            assert(e[0] == s[0]);
            assert(e.skip(1) == caret_escape(rest));
        }
        assert(caret_unescape(e) == head + rest);
    }
}

/// Replaces each control character and each `^` by a two-character caret
/// escape.
pub fn escape_control_characters(val: &str) -> (r: String)
    ensures
        r@ == caret_escape(val@),
{
    let chars = chars_of(val);
    let mut result = String::new();
    let mut i: usize = 0;
    while i < chars.len()
        invariant
            chars@ == val@,
            i <= chars@.len(),
            result@ == caret_escape(val@.take(i as int)),
        decreases chars@.len() - i,
    {
        let c = chars[i];
        assert(val@.take(i + 1).drop_last() == val@.take(i as int));
        if c == '^' {
            result.push('^');
            result.push(' ');
        } else if (c as u32) <= 0x1F {
            result.push('^');
            result.push(((c as u32) as u8 + 0x40u8) as char);
        } else {
            result.push(c);
        }
        i = i + 1;
    }
    assert(val@.take(chars@.len() as int) == val@);
    result
}

/// The upper-case hexadecimal digit for a value below 16.
pub open spec fn hex_digit(d: int) -> char {
    if d < 10 {
        (('0' as int) + d) as char
    } else {
        (('A' as int) + d - 10) as char
    }
}

/// Four upper-case hexadecimal digits of a value below `0x10000`.
pub open spec fn hex4(v: int) -> Seq<char> {
    seq![hex_digit((v / 4096) % 16), hex_digit((v / 256) % 16), hex_digit((v / 16) % 16), hex_digit(v % 16)]
}

/// A code point in upper-case hexadecimal, zero-padded to at least four digits.
pub open spec fn hex_code(v: int) -> Seq<char> {
    if v < 0x10000 {
        hex4(v)
    } else if v < 0x100000 {
        seq![hex_digit(v / 0x10000)] + hex4(v % 0x10000)
    } else {
        seq![hex_digit(v / 0x100000), hex_digit((v / 0x10000) % 16)] + hex4(v % 0x10000)
    }
}

/// What the unicode escape makes of one character: `\U+` and its code point
/// for a character outside ASCII, the character itself otherwise.
pub open spec fn unicode_escape_char(c: char) -> Seq<char> {
    if (c as u32) >= 0x80 {
        seq!['\\', 'U', '+'] + hex_code((c as u32) as int)
    } else {
        seq![c]
    }
}

/// The unicode escape of a whole string, character by character.
pub open spec fn unicode_escape(s: Seq<char>) -> Seq<char>
    decreases s.len(),
{
    if s.len() == 0 {
        Seq::empty()
    } else {
        unicode_escape(s.drop_last()) + unicode_escape_char(s.last())
    }
}

/// The value of a hexadecimal digit of either case.
pub open spec fn hex_value(c: char) -> Option<int> {
    if '0' <= c && c <= '9' {
        Some(c as int - '0' as int)
    } else if 'A' <= c && c <= 'F' {
        Some(c as int - 'A' as int + 10)
    } else if 'a' <= c && c <= 'f' {
        Some(c as int - 'a' as int + 10)
    } else {
        None
    }
}

/// The character named by four hexadecimal digits, or `?` where they are not
/// four digits or name a surrogate.
pub open spec fn decode_code(d: Seq<char>) -> char {
    if hex_value(d[0]) is Some && hex_value(d[1]) is Some && hex_value(d[2]) is Some
        && hex_value(d[3]) is Some {
        let v = 4096 * hex_value(d[0])->0 + 256 * hex_value(d[1])->0 + 16 * hex_value(
            d[2],
        )->0 + hex_value(d[3])->0;
        if is_scalar_value(v) {
            (v as u32) as char
        } else {
            '?'
        }
    } else {
        '?'
    }
}

/// What a window of seven characters that starts with a backslash becomes:
/// one decoded character where it reads `\U+`, itself otherwise.
pub open spec fn decode_window(w: Seq<char>) -> Seq<char> {
    if w[1] == 'U' && w[2] == '+' {
        seq![decode_code(w.subrange(3, 7))]
    } else {
        w
    }
}

/// Undoing the unicode escape. A backslash opens a window of seven characters
/// (see `decode_window`); a window cut short by the end of the input is dropped.
pub open spec fn unicode_unescape(s: Seq<char>) -> Seq<char>
    decreases s.len(),
{
    if s.len() == 0 {
        Seq::empty()
    } else if s[0] == '\\' {
        if s.len() < 7 {
            Seq::empty()
        } else {
            decode_window(s.take(7)) + unicode_unescape(s.skip(7))
        }
    } else {
        seq![s[0]] + unicode_unescape(s.skip(1))
    }
}

/// Appends the upper-case hexadecimal digit for `d`.
pub fn push_hex_digit(result: &mut String, d: u32)
    requires
        d < 16,
    ensures
        final(result)@ == old(result)@.push(hex_digit(d as int)),
{
    if d < 10 {
        result.push((48u8 + d as u8) as char);
    } else {
        result.push((65u8 + (d - 10) as u8) as char);
    }
}

fn push_code_escape(result: &mut String, b: u32)
    requires
        b <= 0x10FFFF,
    ensures
        final(result)@ == old(result)@ + seq!['\\', 'U', '+'] + hex_code(b as int),
{
    let ghost before = result@;
    result.push('\\');
    result.push('U');
    result.push('+');
    let ghost mid = result@;
    if b >= 0x100000 {
        push_hex_digit(result, b / 0x100000);
        push_hex_digit(result, (b / 0x10000) % 16);
    } else if b >= 0x10000 {
        push_hex_digit(result, b / 0x10000);
    }
    let ghost lead = result@;
    push_hex_digit(result, (b / 4096) % 16);
    push_hex_digit(result, (b / 256) % 16);
    push_hex_digit(result, (b / 16) % 16);
    push_hex_digit(result, b % 16);
    proof {
        let v = b as int;
        assert(v % 0x10000 / 4096 % 16 == v / 4096 % 16) by (nonlinear_arith)
            requires
                v >= 0,
        ;
        assert(v % 0x10000 / 256 % 16 == v / 256 % 16) by (nonlinear_arith)
            requires
                v >= 0,
        ;
        assert(v % 0x10000 / 16 % 16 == v / 16 % 16) by (nonlinear_arith)
            requires
                v >= 0,
        ;
        assert(v % 0x10000 % 16 == v % 16) by (nonlinear_arith)
            requires
                v >= 0,
        ;
        assert(result@ == lead + hex4(v));
        if v < 0x10000 {
            assert(v % 0x10000 == v);
            assert(lead == mid);
        }
        assert(mid == before + seq!['\\', 'U', '+']);
        assert(result@ == mid + hex_code(v));
    }
}

/// Replaces each character outside ASCII by `\U+` and its code point in
/// upper-case hexadecimal, at least four digits wide.
pub fn escape_unicode_to_ascii(val: &str) -> (r: String)
    ensures
        r@ == unicode_escape(val@),
{
    let chars = chars_of(val);
    let mut result = String::new();
    let mut i: usize = 0;
    while i < chars.len()
        invariant
            chars@ == val@,
            i <= chars@.len(),
            result@ == unicode_escape(val@.take(i as int)),
        decreases chars@.len() - i,
    {
        let c = chars[i];
        let ghost before = result@;
        assert(val@.take(i + 1).drop_last() == val@.take(i as int));
        let b = c as u32;
        if b >= 0x80 {
            proof {
                vstd::utf8::char_is_scalar(c);
            }
            push_code_escape(&mut result, b);
        } else {
            result.push(c);
        }
        assert(result@ == before + unicode_escape_char(c));
        assert(val@.take(i + 1).last() == c);
        i = i + 1;
    }
    assert(val@.take(chars@.len() as int) == val@);
    result
}

/// The value of a hexadecimal digit of either case.
pub fn hex_digit_value(c: char) -> (r: Option<u32>)
    ensures
        r matches Some(v) ==> hex_value(c) == Some(v as int),
        r is None ==> hex_value(c) is None,
{
    if '0' <= c && c <= '9' {
        Some((c as u32) - ('0' as u32))
    } else if 'A' <= c && c <= 'F' {
        Some((c as u32) - ('A' as u32) + 10)
    } else if 'a' <= c && c <= 'f' {
        Some((c as u32) - ('a' as u32) + 10)
    } else {
        None
    }
}

fn decode_code_point(a: char, b: char, c: char, d: char) -> (r: char)
    ensures
        r == decode_code(seq![a, b, c, d]),
{
    let ghost w = seq![a, b, c, d];
    assert(w[0] == a && w[1] == b && w[2] == c && w[3] == d);
    match (hex_digit_value(a), hex_digit_value(b), hex_digit_value(c), hex_digit_value(d)) {
        (Some(x), Some(y), Some(z), Some(t)) => {
            let v: u32 = 4096 * x + 256 * y + 16 * z + t;
            assert(v as int == 4096 * hex_value(w[0])->0 + 256 * hex_value(w[1])->0 + 16
                * hex_value(w[2])->0 + hex_value(w[3])->0);
            match core::char::from_u32(v) {
                Some(ch) => {
                    proof {
                        vstd::utf8::char_u32_cast(ch, v);
                    }
                    ch
                },
                None => '?',
            }
        },
        _ => '?',
    }
}

/// Undoes the unicode escape: `\U+HHHH` becomes the character it names (`?`
/// where the digits are not hexadecimal or name a surrogate); any other
/// seven characters from a backslash on are kept; a backslash fewer than seven
/// characters from the end drops the rest of the input.
pub fn un_escape_ascii_to_unicode(val: &str) -> (r: String)
    ensures
        r@ == unicode_unescape(val@),
{
    let chars = chars_of(val);
    let n = chars.len();
    let mut result = String::new();
    let mut i: usize = 0;
    assert(val@.skip(0) == val@);
    assert(result@ + unicode_unescape(val@) == unicode_unescape(val@));
    while i < n
        invariant
            chars@ == val@,
            n == chars@.len(),
            i <= n,
            result@ + unicode_unescape(val@.skip(i as int)) == unicode_unescape(val@),
        decreases n - i,
    {
        let c = chars[i];
        let ghost rest = val@.skip(i as int);
        let ghost before = result@;
        if c == '\\' {
            if n - i < 7 {
                i = n;
                assert(val@.skip(i as int).len() == 0);
                assert(result@ + Seq::<char>::empty() == result@);
            } else {
                let ghost w = rest.take(7);
                assert(rest.skip(7) == val@.skip(i + 7));
                if chars[i + 1] == 'U' && chars[i + 2] == '+' {
                    let ch = decode_code_point(chars[i + 3], chars[i + 4], chars[i + 5], chars[i + 6]);
                    assert(w.subrange(3, 7) == seq![chars@[i + 3], chars@[i + 4], chars@[i + 5], chars@[i + 6]]);
                    result.push(ch);
                } else {
                    let mut k: usize = 0;
                    while k < 7
                        invariant
                            chars@ == val@,
                            n == chars@.len(),
                            i + 7 <= n,
                            k <= 7,
                            result@ == before + w.take(k as int),
                            w == val@.skip(i as int).take(7),
                        decreases 7 - k,
                    {
                        result.push(chars[i + k]);
                        k = k + 1;
                        assert(w.take(k as int) == w.take(k - 1).push(chars@[i + k - 1]));
                    }
                    assert(w.take(7) == w);
                }
                assert(result@ == before + decode_window(w));
                i = i + 7;
            }
        } else {
            assert(rest.skip(1) == val@.skip(i + 1));
            result.push(c);
            i = i + 1;
        }
    }
    assert(val@.skip(n as int).len() == 0);
    assert(result@ + Seq::<char>::empty() == result@);
    result
}

proof fn lemma_unicode_escape_append(a: Seq<char>, b: Seq<char>)
    ensures
        unicode_escape(a + b) == unicode_escape(a) + unicode_escape(b),
    decreases b.len(),
{
    if b.len() == 0 {
        assert(a + b == a);
        assert(unicode_escape(b) == Seq::<char>::empty());
    } else {
        lemma_unicode_escape_append(a, b.drop_last());
        assert((a + b).drop_last() == a + b.drop_last());
        assert((a + b).last() == b.last());
    }
}

/// Reading back a hexadecimal digit gives its value.
pub proof fn lemma_hex_value_digit(d: int)
    requires
        0 <= d < 16,
    ensures
        hex_value(hex_digit(d)) == Some(d),
{
}

proof fn lemma_decode_hex4(c: char)
    requires
        (c as u32) < 0x10000,
    ensures
        decode_code(hex4((c as u32) as int)) == c,
{
    let v = (c as u32) as int;
    let d = hex4(v);
    lemma_hex_value_digit((v / 4096) % 16);
    lemma_hex_value_digit((v / 256) % 16);
    lemma_hex_value_digit((v / 16) % 16);
    lemma_hex_value_digit(v % 16);
    assert(4096 * ((v / 4096) % 16) + 256 * ((v / 256) % 16) + 16 * ((v / 16) % 16) + v % 16
        == v) by (nonlinear_arith)
        requires
            0 <= v < 0x10000,
    ;
    vstd::utf8::char_is_scalar(c);
    vstd::utf8::char_u32_cast(c, c as u32);
}

/// A string of Unicode scalar values from the Basic Multilingual Plane with no
/// backslash among them.
pub open spec fn is_plain_bmp(s: Seq<char>) -> bool {
    forall|i: int| 0 <= i < s.len() ==> (s[i] as u32) < 0x10000 && s[i] != '\\'
}

/// Escaping a string outside ASCII and unescaping it gives it back, for
/// strings of the Basic Multilingual Plane that hold no backslash (a backslash
/// opens an escape window when read back).
pub proof fn lemma_unicode_round_trip(s: Seq<char>)
    requires
        is_plain_bmp(s),
    ensures
        unicode_unescape(unicode_escape(s)) == s,
    decreases s.len(),
{
    if s.len() > 0 {
        let c = s[0];
        let head = seq![c];
        let rest = s.skip(1);
        assert(s == head + rest);
        assert(is_plain_bmp(rest)) by {
            assert forall|i: int| 0 <= i < rest.len() implies (rest[i] as u32) < 0x10000 && rest[i]
                != '\\' by {
                assert(rest[i] == s[i + 1]);
            }
        }
        lemma_unicode_escape_append(head, rest);
        assert(head.drop_last() == Seq::<char>::empty());
        assert(unicode_escape(head) == unicode_escape_char(c)) by {
            assert(unicode_escape(Seq::<char>::empty()) == Seq::<char>::empty());
            assert(unicode_escape(head) == unicode_escape(head.drop_last()) + unicode_escape_char(
                c,
            ));
        }
        let e = unicode_escape_char(c) + unicode_escape(rest);
        lemma_unicode_round_trip(rest);
        if (c as u32) >= 0x80 {
            let v = (c as u32) as int;
            assert(hex_code(v) == hex4(v));
            let w = e.take(7);
            assert(w == unicode_escape_char(c));
            assert(w.subrange(3, 7) == hex4(v));
            lemma_decode_hex4(c);
            assert(decode_window(w) == head);
            assert(e.skip(7) == unicode_escape(rest));
        } else {
            assert(e[0] == c);
            assert(e.skip(1) == unicode_escape(rest));
        }
        assert(unicode_unescape(e) == head + rest);
    }
}

} // verus!
