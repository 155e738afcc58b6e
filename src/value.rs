//! Code pairs: a group code with a typed value, the errors of reading them, and
//! the canonical text of decimal numbers.
use vstd::prelude::*;
use vstd::string::StringExecFns;

use crate::codec::caret_unescape;
use crate::codec::chars_of;
use crate::codec::hex_digit;
use crate::codec::hex_digit_value;
use crate::codec::hex_value;
use crate::codec::push_hex_digit;

verus! {

/// The value half of a code pair. A double is held as its IEEE-754 bit
/// pattern, so that equality is exact and values carry through unchanged.
#[derive(Clone, Debug, PartialEq)]
pub enum CodePairValue {
    Boolean(i16),
    Integer(i32),
    Long(i64),
    Short(i16),
    Double(u64),
    Str(String),
}

/// A group code, its value, and the line on which it was read.
#[derive(Clone, Debug, PartialEq)]
pub struct CodePair {
    pub code: i32,
    pub value: CodePairValue,
    pub offset: usize,
}

/// What can go wrong while reading or writing a drawing.
#[derive(Clone, Debug, PartialEq)]
pub enum DxfError {
    /// A pair that the grammar does not allow here, with what was expected.
    UnexpectedCodePair(CodePair, String),
    /// A group code out of range for its context, with its offset.
    UnexpectedCode(i32, usize),
    /// The input ended inside a structure.
    UnexpectedEndOfInput,
    /// A value of another kind than its group code calls for.
    WrongValueType(i32, usize),
    /// A handle that is not hexadecimal text.
    MalformedHandle(usize),
    /// Binary data that is not hexadecimal text.
    MalformedHexData(usize),
}

/// Whether a value is the string `text`.
pub open spec fn is_text(v: CodePairValue, text: Seq<char>) -> bool {
    v matches CodePairValue::Str(s) && s@ == text
}

/// Whether a pair has group code 0 and the string `text`: the pairs that open
/// and close sections, tables and entities.
pub open spec fn is_marker(p: CodePair, text: Seq<char>) -> bool {
    p.code == 0 && is_text(p.value, text)
}

impl CodePair {
    pub fn new_str(code: i32, val: &str) -> (r: CodePair)
        ensures
            r.code == code,
            is_text(r.value, val@),
            r.offset == 0,
    {
        CodePair { code, value: CodePairValue::Str(String::from_str(val)), offset: 0 }
    }

    pub fn new_string(code: i32, val: String) -> (r: CodePair)
        ensures
            r.code == code,
            r.value == CodePairValue::Str(val),
            r.offset == 0,
    {
        CodePair { code, value: CodePairValue::Str(val), offset: 0 }
    }

    pub fn new_i16(code: i32, val: i16) -> (r: CodePair)
        ensures
            r == (CodePair { code, value: CodePairValue::Short(val), offset: 0 }),
    {
        CodePair { code, value: CodePairValue::Short(val), offset: 0 }
    }

    pub fn new_i32(code: i32, val: i32) -> (r: CodePair)
        ensures
            r == (CodePair { code, value: CodePairValue::Integer(val), offset: 0 }),
    {
        CodePair { code, value: CodePairValue::Integer(val), offset: 0 }
    }

    /// A pair holding a double, given by its bit pattern.
    pub fn new_double(code: i32, bits: u64) -> (r: CodePair)
        ensures
            r == (CodePair { code, value: CodePairValue::Double(bits), offset: 0 }),
    {
        CodePair { code, value: CodePairValue::Double(bits), offset: 0 }
    }

    /// Whether this pair has group code 0 and the string `text`.
    pub fn is_marker(&self, text: &str) -> (r: bool)
        ensures
            r == is_marker(*self, text@),
    {
        self.code == 0 && self.value.is_text(text)
    }
}

impl CodePairValue {
    /// Whether this value is the string `text`.
    pub fn is_text(&self, text: &str) -> (r: bool)
        ensures
            r == is_text(*self, text@),
    {
        match self {
            CodePairValue::Str(s) => {
                let t = String::from_str(text);
                *s == t
            },
            _ => false,
        }
    }

    /// Undoes the caret escape of control characters: `^` and the character
    /// after it become the character it stands for (`^J` a line feed, `^ ` a
    /// caret, any other character itself); a `^` at the end is dropped.
    pub fn un_escape_string(val: &str) -> (r: String)
        ensures
            r@ == caret_unescape(val@),
    {
        let chars = chars_of(val);
        let n = chars.len();
        let mut result = String::new();
        let mut i: usize = 0;
        assert(val@.skip(0) == val@);
        assert(result@ + caret_unescape(val@) == caret_unescape(val@));
        while i < n
            invariant
                chars@ == val@,
                n == chars@.len(),
                i <= n,
                result@ + caret_unescape(val@.skip(i as int)) == caret_unescape(val@),
            decreases n - i,
        {
            let c = chars[i];
            let ghost rest = val@.skip(i as int);
            if c == '^' {
                if i + 1 < n {
                    let d = chars[i + 1];
                    let decoded = if '@' <= d && d <= '_' {
                        ((d as u32) as u8 - 0x40u8) as char
                    } else if d == ' ' {
                        '^'
                    } else {
                        d
                    };
                    assert(rest.skip(2) == val@.skip(i + 2));
                    result.push(decoded);
                    i = i + 2;
                } else {
                    i = i + 1;
                    assert(val@.skip(i as int).len() == 0);
                }
            } else {
                assert(rest.skip(1) == val@.skip(i + 1));
                result.push(c);
                i = i + 1;
            }
        }
        assert(val@.skip(n as int).len() == 0);
        assert(result@ + Seq::<char>::empty() == result@);
        result
    }
}

/// `s` without its trailing `0` characters.
pub open spec fn trim_zeros(s: Seq<char>) -> Seq<char>
    decreases s.len(),
{
    if s.len() > 0 && s.last() == '0' {
        trim_zeros(s.drop_last())
    } else {
        s
    }
}

/// The canonical text of a decimal number written with a fixed count of
/// fractional digits: trailing zeros go, but one digit stays after the point.
pub open spec fn canonical_decimal(s: Seq<char>) -> Seq<char> {
    let t = trim_zeros(s);
    if t.len() > 0 && t.last() == '.' {
        t.push('0')
    } else {
        t
    }
}

/// Trims the trailing zeros of a number written with a fixed count of
/// fractional digits, keeping at least one digit after the decimal point.
pub fn trim_decimal(fixed: &str) -> (r: String)
    ensures
        r@ == canonical_decimal(fixed@),
{
    let chars = chars_of(fixed);
    let mut n: usize = chars.len();
    assert(fixed@.take(n as int) == fixed@);
    while n > 0 && chars[n - 1] == '0'
        invariant
            chars@ == fixed@,
            n <= chars@.len(),
            trim_zeros(fixed@.take(n as int)) == trim_zeros(fixed@),
        decreases n,
    {
        assert(fixed@.take(n as int).drop_last() == fixed@.take(n - 1));
        n = n - 1;
    }
    let ghost t = fixed@.take(n as int);
    assert(trim_zeros(t) == t);
    let mut r = String::new();
    let mut i: usize = 0;
    while i < n
        invariant
            chars@ == fixed@,
            n <= chars@.len(),
            i <= n,
            r@ == fixed@.take(i as int),
        decreases n - i,
    {
        r.push(chars[i]);
        i = i + 1;
        assert(fixed@.take(i as int) == fixed@.take(i - 1).push(chars@[i - 1]));
    }
    if n > 0 && chars[n - 1] == '.' {
        r.push('0');
    }
    r
}

proof fn lemma_trim_zeros(s: Seq<char>)
    ensures
        trim_zeros(s).len() <= s.len(),
        trim_zeros(s) == s.take(trim_zeros(s).len() as int),
        trim_zeros(s).len() == 0 || trim_zeros(s).last() != '0',
        forall|i: int| trim_zeros(s).len() <= i < s.len() ==> s[i] == '0',
    decreases s.len(),
{
    if s.len() > 0 && s.last() == '0' {
        lemma_trim_zeros(s.drop_last());
        let t = trim_zeros(s.drop_last());
        assert(s.drop_last().take(t.len() as int) == s.take(t.len() as int));
        assert forall|i: int| t.len() <= i < s.len() implies s[i] == '0' by {
            if i < s.len() - 1 {
                assert(s.drop_last()[i] == s[i]);
            }
        }
    } else {
        assert(s.take(s.len() as int) == s);
    }
}

/// Decimal text as a fixed-point formatter writes it: an optional minus sign,
/// digits, a point at `point`, and twelve fractional digits.
pub open spec fn is_fixed_twelve(s: Seq<char>, point: int) -> bool {
    &&& 0 < point
    &&& s.len() == point + 13
    &&& s[point] == '.'
    &&& forall|i: int|
        0 <= i < s.len() && i != point ==> ('0' <= #[trigger] s[i] && s[i] <= '9') || (i == 0
            && s[i] == '-')
}

/// The canonical text of a number written with twelve fractional digits has
/// exactly one point, at least one digit after it, and ends in `0` only where
/// that is its sole fractional digit.
pub proof fn lemma_canonical_decimal_shape(s: Seq<char>, point: int)
    requires
        is_fixed_twelve(s, point),
    ensures
        canonical_decimal(s)[point] == '.',
        forall|i: int| 0 <= i < canonical_decimal(s).len() && i != point ==> #[trigger] canonical_decimal(s)[i] != '.',
        canonical_decimal(s).len() >= point + 2,
        canonical_decimal(s).last() == '0' ==> canonical_decimal(s).len() == point + 2,
{
    lemma_trim_zeros(s);
    let t = trim_zeros(s);
    let r = canonical_decimal(s);
    assert(t.len() > point) by {
        if t.len() <= point {
            assert(s[point] == '0');
        }
    }
    if t.len() == point + 1 {
        assert(t.last() == '.');
        assert(r == t.push('0'));
        assert forall|i: int| 0 <= i < r.len() && i != point implies #[trigger] r[i] != '.' by {
            if i < t.len() {
                assert(r[i] == s[i]);
            }
        }
    } else {
        assert(t.last() == s[t.len() - 1]);
        assert(r == t);
        assert forall|i: int| 0 <= i < r.len() && i != point implies #[trigger] r[i] != '.' by {
            assert(r[i] == s[i]);
        }
    }
}

/// The number that hexadecimal digits `d` of either case spell, if they all are
/// hexadecimal digits.
pub open spec fn hex_number(d: Seq<char>) -> Option<nat>
    decreases d.len(),
{
    if d.len() == 0 {
        Some(0)
    } else {
        match (hex_number(d.drop_last()), hex_value(d.last())) {
            (Some(h), Some(v)) => Some(h * 16 + v as nat),
            _ => None,
        }
    }
}

/// The upper-case hexadecimal digits of `v`, without leading zeros (`0` for
/// zero).
pub open spec fn hex_text(v: nat) -> Seq<char>
    decreases v,
{
    if v < 16 {
        seq![hex_digit(v as int)]
    } else {
        hex_text(v / 16).push(hex_digit((v % 16) as int))
    }
}

/// Reading back the hexadecimal text of a number gives the number.
pub proof fn lemma_hex_text_number(v: nat)
    ensures
        hex_text(v).len() > 0,
        hex_number(hex_text(v)) == Some(v),
    decreases v,
{
    if v < 16 {
        crate::codec::lemma_hex_value_digit(v as int);
        let t = hex_text(v);
        assert(t.drop_last() =~= Seq::<char>::empty());
        assert(hex_number(t.drop_last()) == Some(0nat));
        assert(t.last() == hex_digit(v as int));
    } else {
        lemma_hex_text_number(v / 16);
        crate::codec::lemma_hex_value_digit((v % 16) as int);
        let t = hex_text(v);
        assert(t.drop_last() == hex_text(v / 16));
        assert(t.last() == hex_digit((v % 16) as int));
        assert((v / 16) * 16 + v % 16 == v);
    }
}

/// Parses a handle: hexadecimal text of either case that fits in 32 bits.
pub fn parse_handle(text: &String) -> (r: Option<u32>)
    ensures
        r matches Some(h) ==> text@.len() > 0 && hex_number(text@) == Some(h as nat),
        r is None ==> text@.len() == 0 || !(hex_number(text@) matches Some(n) && n <= u32::MAX),
{
    let chars = chars_of(text.as_str());
    if chars.len() == 0 {
        return None;
    }
    let mut acc: u64 = 0;
    let mut i: usize = 0;
    assert(text@.take(0) =~= Seq::<char>::empty());
    while i < chars.len()
        invariant
            chars@ == text@,
            i <= chars@.len(),
            hex_number(text@.take(i as int)) == Some(acc as nat),
            acc <= u32::MAX,
        decreases chars@.len() - i,
    {
        assert(text@.take(i + 1).drop_last() =~= text@.take(i as int));
        let d = match hex_digit_value(chars[i]) {
            Some(d) => d,
            None => {
                proof {
                    lemma_hex_number_prefix(text@, i + 1);
                }
                return None;
            },
        };
        if acc > 0x0FFF_FFFF {
            proof {
                lemma_hex_number_grows(text@, i + 1);
            }
            return None;
        }
        acc = acc * 16 + d as u64;
        i = i + 1;
    }
    assert(text@.take(chars@.len() as int) =~= text@);
    Some(acc as u32)
}

proof fn lemma_hex_number_prefix(d: Seq<char>, k: int)
    requires
        0 <= k <= d.len(),
        hex_number(d.take(k)) is None,
    ensures
        hex_number(d) is None,
    decreases d.len() - k,
{
    if k < d.len() {
        assert(d.take(k + 1).drop_last() =~= d.take(k));
        lemma_hex_number_prefix(d, k + 1);
    } else {
        assert(d.take(k) =~= d);
    }
}

proof fn lemma_hex_number_grows(d: Seq<char>, k: int)
    requires
        0 < k <= d.len(),
        hex_number(d.take(k - 1)) matches Some(n) && n > 0x0FFF_FFFF,
    ensures
        !(hex_number(d) matches Some(n) && n <= u32::MAX),
    decreases d.len() - k,
{
    assert(d.take(k).drop_last() =~= d.take(k - 1));
    if hex_number(d.take(k)) is None {
        lemma_hex_number_prefix(d, k);
    } else {
        let m = hex_number(d.take(k))->0;
        assert(m > u32::MAX);
        lemma_hex_number_large(d, k);
    }
}

proof fn lemma_hex_number_large(d: Seq<char>, k: int)
    requires
        0 < k <= d.len(),
        hex_number(d.take(k)) matches Some(n) && n > u32::MAX,
    ensures
        !(hex_number(d) matches Some(n) && n <= u32::MAX),
    decreases d.len() - k,
{
    if k < d.len() {
        assert(d.take(k + 1).drop_last() =~= d.take(k));
        if hex_number(d.take(k + 1)) is None {
            lemma_hex_number_prefix(d, k + 1);
        } else {
            lemma_hex_number_large(d, k + 1);
        }
    } else {
        assert(d.take(k) =~= d);
    }
}

/// The handle as upper-case hexadecimal text without leading zeros.
pub fn handle_text(h: u32) -> (r: String)
    ensures
        r@ == hex_text(h as nat),
    decreases h,
{
    if h < 16 {
        let mut r = String::new();
        push_hex_digit(&mut r, h);
        r
    } else {
        let mut r = handle_text(h / 16);
        push_hex_digit(&mut r, h % 16);
        r
    }
}

impl CodePair {
    /// The string of a pair that holds one.
    pub fn assert_string(&self) -> (r: Result<String, DxfError>)
        ensures
            r matches Ok(v) ==> self.value == CodePairValue::Str(v),
            r matches Err(e) ==> !(self.value is Str) && e == DxfError::WrongValueType(self.code, self.offset),
    {
        match &self.value {
            CodePairValue::Str(v) => Ok(v.clone()),
            _ => Err(DxfError::WrongValueType(self.code, self.offset)),
        }
    }

    /// The bit pattern of the double of a pair that holds one.
    pub fn assert_f64(&self) -> (r: Result<u64, DxfError>)
        ensures
            r matches Ok(v) ==> self.value == CodePairValue::Double(v),
            r matches Err(e) ==> !(self.value is Double) && e == DxfError::WrongValueType(self.code, self.offset),
    {
        match &self.value {
            CodePairValue::Double(v) => Ok(*v),
            _ => Err(DxfError::WrongValueType(self.code, self.offset)),
        }
    }

    /// The short integer of a pair that holds one.
    pub fn assert_i16(&self) -> (r: Result<i16, DxfError>)
        ensures
            r matches Ok(v) ==> self.value == CodePairValue::Short(v),
            r matches Err(e) ==> !(self.value is Short) && e == DxfError::WrongValueType(self.code, self.offset),
    {
        match &self.value {
            CodePairValue::Short(v) => Ok(*v),
            _ => Err(DxfError::WrongValueType(self.code, self.offset)),
        }
    }

    /// The integer of a pair that holds one.
    pub fn assert_i32(&self) -> (r: Result<i32, DxfError>)
        ensures
            r matches Ok(v) ==> self.value == CodePairValue::Integer(v),
            r matches Err(e) ==> !(self.value is Integer) && e == DxfError::WrongValueType(self.code, self.offset),
    {
        match &self.value {
            CodePairValue::Integer(v) => Ok(*v),
            _ => Err(DxfError::WrongValueType(self.code, self.offset)),
        }
    }

    /// The handle that the hexadecimal string of this pair names.
    pub fn as_handle(&self) -> (r: Result<u32, DxfError>)
        ensures
            r matches Ok(h) ==> self.value matches CodePairValue::Str(t) && t@.len() > 0
                && hex_number(t@) == Some(h as nat),
            r matches Err(e) ==> match self.value {
                CodePairValue::Str(t) => e == DxfError::MalformedHandle(self.offset) && (t@.len() == 0
                    || !(hex_number(t@) matches Some(n) && n <= u32::MAX)),
                _ => e == DxfError::WrongValueType(self.code, self.offset),
            },
    {
        match &self.value {
            CodePairValue::Str(t) => match parse_handle(t) {
                Some(h) => Ok(h),
                None => Err(DxfError::MalformedHandle(self.offset)),
            },
            _ => Err(DxfError::WrongValueType(self.code, self.offset)),
        }
    }
}

/// The kind of value that a group code carries.
#[derive(Clone, Copy, Debug, PartialEq, Eq, Structural)]
pub enum ValueKind {
    Boolean,
    Integer,
    Long,
    Short,
    Double,
    Str,
}

/// The kind of value that a group code carries, by the ranges of the format.
pub open spec fn kind_of_code(code: int) -> ValueKind {
    if (10 <= code <= 59) || (110 <= code <= 149) || (210 <= code <= 239) || (460 <= code <= 469)
        || (1010 <= code <= 1059) {
        ValueKind::Double
    } else if (60 <= code <= 79) || (170 <= code <= 179) || (270 <= code <= 289) || (370 <= code
        <= 389) || (400 <= code <= 409) || (1060 <= code <= 1070) {
        ValueKind::Short
    } else if (90 <= code <= 99) || (420 <= code <= 429) || (440 <= code <= 449) || code == 1071 {
        ValueKind::Integer
    } else if (160 <= code <= 169) || (450 <= code <= 459) {
        ValueKind::Long
    } else if 290 <= code <= 299 {
        ValueKind::Boolean
    } else {
        ValueKind::Str
    }
}

/// The kind of value that a group code carries.
pub fn value_kind(code: i32) -> (r: ValueKind)
    ensures
        r == kind_of_code(code as int),
{
    if (10 <= code && code <= 59) || (110 <= code && code <= 149) || (210 <= code && code <= 239)
        || (460 <= code && code <= 469) || (1010 <= code && code <= 1059) {
        ValueKind::Double
    } else if (60 <= code && code <= 79) || (170 <= code && code <= 179) || (270 <= code && code
        <= 289) || (370 <= code && code <= 389) || (400 <= code && code <= 409) || (1060 <= code
        && code <= 1070) {
        ValueKind::Short
    } else if (90 <= code && code <= 99) || (420 <= code && code <= 429) || (440 <= code && code
        <= 449) || code == 1071 {
        ValueKind::Integer
    } else if (160 <= code && code <= 169) || (450 <= code && code <= 459) {
        ValueKind::Long
    } else if 290 <= code && code <= 299 {
        ValueKind::Boolean
    } else {
        ValueKind::Str
    }
}

} // verus!
