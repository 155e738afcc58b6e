//! Extended data: values that an application attaches to an object, under
//! group codes 1000 to 1071, with nested control groups.
use vstd::prelude::*;
use vstd::string::StringExecFns;

use crate::codec::chars_of;
use crate::codec::hex_digit;
use crate::codec::hex_digit_value;
use crate::codec::hex_value;
use crate::codec::push_hex_digit;
use crate::entities::Point;
use crate::header::version_rank;
use crate::header::AcadVersion;
use crate::reading::extends;
use crate::reading::lemma_read_step_chain;
use crate::reading::lemma_suffix_next;
use crate::reading::lemma_suffix_refl;
use crate::reading::read_step;
use crate::reading::bad_pair;
use crate::reading::same_error;
use crate::reading::stopped_at;
use crate::reading::suffix_of;
use crate::stream::CodePairStream;
use crate::value::handle_text;
use crate::value::CodePair;
use crate::value::DxfError;
use crate::value::CodePairValue;
use crate::value::hex_number;
use crate::value::hex_text;
use crate::value::is_text;

verus! {

broadcast use {
    crate::reading::lemma_extends_trans,
    crate::reading::lemma_extends_push,
    crate::reading::lemma_extends_concat,
};

pub const XDATA_APPLICATIONNAME: i32 = 1001;

pub const XDATA_STRING: i32 = 1000;

pub const XDATA_CONTROLGROUP: i32 = 1002;

pub const XDATA_LAYER: i32 = 1003;

pub const XDATA_BINARYDATA: i32 = 1004;

pub const XDATA_HANDLE: i32 = 1005;

pub const XDATA_THREEREALS: i32 = 1010;

pub const XDATA_WORLDSPACEPOSITION: i32 = 1011;

pub const XDATA_WORLDSPACEDISPLACEMENT: i32 = 1012;

pub const XDATA_WORLDDIRECTION: i32 = 1013;

pub const XDATA_REAL: i32 = 1040;

pub const XDATA_DISTANCE: i32 = 1041;

pub const XDATA_SCALEFACTOR: i32 = 1042;

pub const XDATA_INTEGER: i32 = 1070;

pub const XDATA_LONG: i32 = 1071;

/// A direction in space, each coordinate held as the bit pattern of a double.
#[derive(Clone, Copy, Debug, PartialEq, Eq, Structural)]
pub struct Vector {
    pub x: u64,
    pub y: u64,
    pub z: u64,
}

/// An application name and the extended data it attaches.
#[derive(Debug, PartialEq)]
pub struct XData {
    pub application_name: String,
    pub items: Vec<XDataItem>,
}

/// One piece of extended data. Reals are held as the bit patterns of doubles.
#[derive(Debug, PartialEq)]
pub enum XDataItem {
    Str(String),
    ControlGroup(Vec<XDataItem>),
    LayerName(String),
    BinaryData(Vec<u8>),
    Handle(u32),
    ThreeReals(u64, u64, u64),
    WorldSpacePosition(Point),
    WorldSpaceDisplacement(Point),
    WorldDirection(Vector),
    Real(u64),
    Distance(u64),
    ScaleFactor(u64),
    Integer(i16),
    Long(i32),
}

/// The bytes that pairs of hexadecimal digits spell, if `d` is such pairs.
pub open spec fn hex_bytes(d: Seq<char>) -> Option<Seq<u8>>
    decreases d.len(),
{
    if d.len() == 0 {
        Some(Seq::empty())
    } else if d.len() == 1 {
        None
    } else {
        match (hex_value(d[0]), hex_value(d[1]), hex_bytes(d.skip(2))) {
            (Some(h), Some(l), Some(rest)) => Some(seq![(h * 16 + l) as u8] + rest),
            _ => None,
        }
    }
}

/// Two upper-case hexadecimal digits for each byte, in order.
pub open spec fn hex_of_bytes(b: Seq<u8>) -> Seq<char>
    decreases b.len(),
{
    if b.len() == 0 {
        Seq::empty()
    } else {
        hex_of_bytes(b.drop_last()) + seq![hex_digit(b.last() as int / 16), hex_digit(b.last() as int % 16)]
    }
}

proof fn lemma_hex_of_bytes_front(b: Seq<u8>)
    requires
        b.len() > 0,
    ensures
        hex_of_bytes(b) == seq![hex_digit(b[0] as int / 16), hex_digit(b[0] as int % 16)] + hex_of_bytes(
            b.skip(1),
        ),
    decreases b.len(),
{
    if b.len() == 1 {
        assert(b.drop_last() =~= Seq::<u8>::empty());
        assert(b.skip(1) =~= Seq::<u8>::empty());
        assert(hex_of_bytes(b.skip(1)) == Seq::<char>::empty());
    } else {
        lemma_hex_of_bytes_front(b.drop_last());
        assert(b.drop_last().skip(1) =~= b.skip(1).drop_last());
        assert(b.skip(1).last() == b.last());
        assert(b.drop_last()[0] == b[0]);
    }
}

/// Reading back the hexadecimal text of bytes gives the bytes.
pub proof fn lemma_hex_bytes_round_trip(b: Seq<u8>)
    ensures
        hex_bytes(hex_of_bytes(b)) == Some(b),
    decreases b.len(),
{
    if b.len() > 0 {
        lemma_hex_of_bytes_front(b);
        lemma_hex_bytes_round_trip(b.skip(1));
        let x = b[0] as int;
        crate::codec::lemma_hex_value_digit(x / 16);
        crate::codec::lemma_hex_value_digit(x % 16);
        let t = hex_of_bytes(b);
        assert(t.skip(2) =~= hex_of_bytes(b.skip(1)));
        assert((x / 16) * 16 + x % 16 == x);
        assert(seq![b[0]] + b.skip(1) =~= b);
    } else {
        assert(hex_of_bytes(b) == Seq::<char>::empty());
        assert(b =~= Seq::<u8>::empty());
    }
}

/// Decodes binary data written as pairs of hexadecimal digits.
pub fn parse_hex_bytes(text: &String) -> (r: Option<Vec<u8>>)
    ensures
        r matches Some(v) ==> hex_bytes(text@) == Some(v@),
        r is None ==> hex_bytes(text@) is None,
{
    let chars = chars_of(text.as_str());
    let n = chars.len();
    let mut out: Vec<u8> = Vec::new();
    let mut i: usize = 0;
    assert(text@.skip(0) =~= text@);
    assert(out@ + Seq::<u8>::empty() =~= out@);
    while i < n
        invariant
            chars@ == text@,
            n == chars@.len(),
            i <= n,
            hex_bytes(text@.skip(i as int)) matches Some(rest) ==> hex_bytes(text@) == Some(out@ + rest),
            hex_bytes(text@.skip(i as int)) is None ==> hex_bytes(text@) is None,
        decreases n - i,
    {
        let ghost rest = text@.skip(i as int);
        if i + 1 >= n {
            assert(rest.len() == 1);
            return None;
        }
        assert(rest[0] == chars@[i as int] && rest[1] == chars@[i + 1]);
        assert(rest.skip(2) =~= text@.skip(i + 2));
        match (hex_digit_value(chars[i]), hex_digit_value(chars[i + 1])) {
            (Some(h), Some(l)) => {
                let ghost before = out@;
                out.push((h * 16 + l) as u8);
                proof {
                    if hex_bytes(text@.skip(i + 2)) is Some {
                        let tail = hex_bytes(text@.skip(i + 2))->0;
                        assert(before + (seq![(h * 16 + l) as u8] + tail) =~= out@ + tail);
                    }
                }
                i = i + 2;
            },
            _ => {
                return None;
            },
        }
    }
    assert(text@.skip(n as int).len() == 0);
    assert(out@ + Seq::<u8>::empty() =~= out@);
    Some(out)
}

/// Writes bytes as two upper-case hexadecimal digits each.
pub fn hex_text_of_bytes(data: &Vec<u8>) -> (r: String)
    ensures
        r@ == hex_of_bytes(data@),
{
    let mut line = String::new();
    let mut i: usize = 0;
    while i < data.len()
        invariant
            i <= data.len(),
            line@ == hex_of_bytes(data@.take(i as int)),
        decreases data.len() - i,
    {
        assert(data@.take(i + 1).drop_last() =~= data@.take(i as int));
        let b = data[i];
        push_hex_digit(&mut line, (b / 16) as u32);
        push_hex_digit(&mut line, (b % 16) as u32);
        i = i + 1;
    }
    assert(data@.take(data.len() as int) =~= data@);
    line
}

/// Group codes whose item is one pair.
pub open spec fn single_pair_item(code: i32) -> bool {
    code == XDATA_STRING || code == XDATA_LAYER || code == XDATA_BINARYDATA || code == XDATA_HANDLE
        || code == XDATA_REAL || code == XDATA_DISTANCE || code == XDATA_SCALEFACTOR || code
        == XDATA_INTEGER || code == XDATA_LONG
}

/// Group codes whose item is three pairs with that code.
pub open spec fn is_triple_code(code: i32) -> bool {
    code == XDATA_THREEREALS || code == XDATA_WORLDSPACEPOSITION || code == XDATA_WORLDSPACEDISPLACEMENT
        || code == XDATA_WORLDDIRECTION
}

/// The error for a pair whose value is not of the kind its code calls for.
pub open spec fn wrong_type(p: CodePair) -> Result<XDataItem, DxfError> {
    Err(DxfError::WrongValueType(p.code, p.offset))
}

/// `r` is what reading the one-pair item of `p` gives.
pub open spec fn reads_single(p: CodePair, r: Result<XDataItem, DxfError>) -> bool {
    if p.code == XDATA_STRING {
        if let CodePairValue::Str(v) = p.value { r == Ok::<XDataItem, DxfError>(XDataItem::Str(v)) } else { r == wrong_type(p) }
    } else if p.code == XDATA_LAYER {
        if let CodePairValue::Str(v) = p.value { r == Ok::<XDataItem, DxfError>(XDataItem::LayerName(v)) } else { r == wrong_type(p) }
    } else if p.code == XDATA_BINARYDATA {
        if let CodePairValue::Str(v) = p.value {
            match hex_bytes(v@) {
                Some(b) => r matches Ok(XDataItem::BinaryData(d)) && d@ == b,
                None => r == Err::<XDataItem, DxfError>(DxfError::MalformedHexData(p.offset)),
            }
        } else {
            r == wrong_type(p)
        }
    } else if p.code == XDATA_HANDLE {
        if let CodePairValue::Str(v) = p.value {
            match hex_number(v@) {
                Some(n) if v@.len() > 0 && n <= u32::MAX => r == Ok::<XDataItem, DxfError>(XDataItem::Handle(n as u32)),
                _ => r == Err::<XDataItem, DxfError>(DxfError::MalformedHandle(p.offset)),
            }
        } else {
            r == wrong_type(p)
        }
    } else if p.code == XDATA_REAL {
        if let CodePairValue::Double(v) = p.value { r == Ok::<XDataItem, DxfError>(XDataItem::Real(v)) } else { r == wrong_type(p) }
    } else if p.code == XDATA_DISTANCE {
        if let CodePairValue::Double(v) = p.value { r == Ok::<XDataItem, DxfError>(XDataItem::Distance(v)) } else { r == wrong_type(p) }
    } else if p.code == XDATA_SCALEFACTOR {
        if let CodePairValue::Double(v) = p.value { r == Ok::<XDataItem, DxfError>(XDataItem::ScaleFactor(v)) } else { r == wrong_type(p) }
    } else if p.code == XDATA_INTEGER {
        if let CodePairValue::Short(v) = p.value { r == Ok::<XDataItem, DxfError>(XDataItem::Integer(v)) } else { r == wrong_type(p) }
    } else {
        if let CodePairValue::Integer(v) = p.value { r == Ok::<XDataItem, DxfError>(XDataItem::Long(v)) } else { r == wrong_type(p) }
    }
}

/// What reading one more coordinate with group code `code` from `rest` gives.
pub open spec fn reads_coordinate(code: i32, rest: Seq<CodePair>) -> Result<u64, DxfError> {
    if rest.len() == 0 {
        Err(DxfError::UnexpectedEndOfInput)
    } else if rest[0].code != code {
        Err(DxfError::UnexpectedCode(rest[0].code, rest[0].offset))
    } else if let CodePairValue::Double(v) = rest[0].value {
        Ok(v)
    } else {
        Err(DxfError::WrongValueType(rest[0].code, rest[0].offset))
    }
}

/// The three-real item of a group code and its coordinates.
pub open spec fn make_triple(code: i32, x: u64, y: u64, z: u64) -> XDataItem {
    if code == XDATA_THREEREALS {
        XDataItem::ThreeReals(x, y, z)
    } else if code == XDATA_WORLDSPACEPOSITION {
        XDataItem::WorldSpacePosition(Point { x, y, z })
    } else if code == XDATA_WORLDSPACEDISPLACEMENT {
        XDataItem::WorldSpaceDisplacement(Point { x, y, z })
    } else {
        XDataItem::WorldDirection(Vector { x, y, z })
    }
}

/// What reading the three-real item that `p` opens gives, with `rest` after it.
pub open spec fn reads_triple(p: CodePair, rest: Seq<CodePair>) -> Result<XDataItem, DxfError> {
    if let CodePairValue::Double(x) = p.value {
        match reads_coordinate(p.code, rest) {
            Ok(y) => match reads_coordinate(p.code, rest.skip(1)) {
                Ok(z) => Ok(make_triple(p.code, x, y, z)),
                Err(e) => Err(e),
            },
            Err(e) => Err(e),
        }
    } else {
        Err(DxfError::WrongValueType(p.code, p.offset))
    }
}

/// The first coordinate of a three-real item.
pub open spec fn triple_first(item: XDataItem) -> Option<u64> {
    match item {
        XDataItem::ThreeReals(x, _, _) => Some(x),
        XDataItem::WorldSpacePosition(p) => Some(p.x),
        XDataItem::WorldSpaceDisplacement(p) => Some(p.x),
        XDataItem::WorldDirection(v) => Some(v.x),
        _ => None,
    }
}

/// The group code of a three-real item.
pub open spec fn triple_code(item: XDataItem) -> i32 {
    match item {
        XDataItem::ThreeReals(..) => XDATA_THREEREALS,
        XDataItem::WorldSpacePosition(_) => XDATA_WORLDSPACEPOSITION,
        XDataItem::WorldSpaceDisplacement(_) => XDATA_WORLDSPACEDISPLACEMENT,
        _ => XDATA_WORLDDIRECTION,
    }
}

/// A pair as the writer makes it.
pub open spec fn out_pair(code: i32, value: CodePairValue) -> CodePair {
    CodePair { code, value, offset: 0 }
}

/// Three pairs with one group code.
pub open spec fn triple_pairs(code: i32, x: u64, y: u64, z: u64) -> Seq<CodePair> {
    seq![
        out_pair(code, CodePairValue::Double(x)),
        out_pair(code, CodePairValue::Double(y)),
        out_pair(code, CodePairValue::Double(z)),
    ]
}

/// `ps` are the pairs written for `item`: one pair for a single value, three
/// for a point, vector or three reals, hexadecimal text for binary data and
/// handles, and for a control group `1002/{`, its items and `1002/}`.
pub open spec fn written_as(item: XDataItem, ps: Seq<CodePair>) -> bool
    decreases item,
{
    match item {
        XDataItem::Str(v) => ps == seq![out_pair(XDATA_STRING, CodePairValue::Str(v))],
        XDataItem::LayerName(v) => ps == seq![out_pair(XDATA_LAYER, CodePairValue::Str(v))],
        XDataItem::BinaryData(d) => ps.len() == 1 && ps[0].code == XDATA_BINARYDATA && ps[0].offset == 0
            && is_text(ps[0].value, hex_of_bytes(d@)),
        XDataItem::Handle(h) => ps.len() == 1 && ps[0].code == XDATA_HANDLE && ps[0].offset == 0
            && is_text(ps[0].value, hex_text(h as nat)),
        XDataItem::ThreeReals(x, y, z) => ps == triple_pairs(XDATA_THREEREALS, x, y, z),
        XDataItem::WorldSpacePosition(p) => ps == triple_pairs(XDATA_WORLDSPACEPOSITION, p.x, p.y, p.z),
        XDataItem::WorldSpaceDisplacement(p) => ps == triple_pairs(
            XDATA_WORLDSPACEDISPLACEMENT,
            p.x,
            p.y,
            p.z,
        ),
        XDataItem::WorldDirection(v) => ps == triple_pairs(XDATA_WORLDDIRECTION, v.x, v.y, v.z),
        XDataItem::Real(v) => ps == seq![out_pair(XDATA_REAL, CodePairValue::Double(v))],
        XDataItem::Distance(v) => ps == seq![out_pair(XDATA_DISTANCE, CodePairValue::Double(v))],
        XDataItem::ScaleFactor(v) => ps == seq![out_pair(XDATA_SCALEFACTOR, CodePairValue::Double(v))],
        XDataItem::Integer(v) => ps == seq![out_pair(XDATA_INTEGER, CodePairValue::Short(v))],
        XDataItem::Long(v) => ps == seq![out_pair(XDATA_LONG, CodePairValue::Integer(v))],
        XDataItem::ControlGroup(items) => ps.len() >= 2 && ps[0].code == XDATA_CONTROLGROUP && is_text(
            ps[0].value,
            "{"@,
        ) && ps.last().code == XDATA_CONTROLGROUP && is_text(ps.last().value, "}"@) && items_written(
            items@,
            ps.subrange(1, ps.len() - 1),
        ),
    }
}

/// `ps` are the pairs written for `items`, one after another.
pub open spec fn items_written(items: Seq<XDataItem>, ps: Seq<CodePair>) -> bool
    decreases items,
{
    if items.len() == 0 {
        ps.len() == 0
    } else {
        exists|k: int|
            0 <= k <= ps.len() && items_written(items.drop_last(), #[trigger] ps.take(k)) && written_as(
                items.last(),
                ps.skip(k),
            )
    }
}

/// An item of one pair reads back as itself from the pair written for it.
pub proof fn lemma_single_item_round_trip(item: XDataItem, ps: Seq<CodePair>)
    requires
        written_as(item, ps),
        !(item is ControlGroup),
        triple_first(item) is None,
    ensures
        single_pair_item(ps[0].code),
        reads_single(ps[0], Ok(item)),
{
    match item {
        XDataItem::BinaryData(d) => {
            lemma_hex_bytes_round_trip(d@);
        },
        XDataItem::Handle(h) => {
            crate::value::lemma_hex_text_number(h as nat);
        },
        _ => {},
    }
}

/// A three-real item reads back as itself from the three pairs written for
/// it, whatever follows them.
pub proof fn lemma_triple_item_round_trip(item: XDataItem, ps: Seq<CodePair>, rest: Seq<CodePair>)
    requires
        written_as(item, ps),
        triple_first(item) is Some,
    ensures
        is_triple_code(ps[0].code),
        reads_triple(ps[0], ps.skip(1) + rest) == Ok::<XDataItem, DxfError>(item),
{
    let after = ps.skip(1) + rest;
    assert(after[0] == ps[1]);
    assert(after.skip(1)[0] == ps[2]);
}

/// Whether a pair ends the extended data of one application: the start of the
/// next object, another application's data, or a group code below 1000.
pub open spec fn ends_xdata(p: CodePair) -> bool {
    p.code == 0 || p.code == XDATA_APPLICATIONNAME || p.code < XDATA_STRING
}

/// The pair that closes a control group: `1002/}`.
pub open spec fn is_closer(p: CodePair) -> bool {
    p.code == XDATA_CONTROLGROUP && is_text(p.value, "}"@)
}

/// Reading the item that `p` opens, with `after` following it, gives `item`
/// and leaves `rest`: a one-pair item as `reads_single` says, a three-real
/// item as `reads_triple` says, and a control group its items in turn up to
/// its closing `1002/}`.
pub open spec fn item_reads(p: CodePair, after: Seq<CodePair>, item: XDataItem, rest: Seq<CodePair>) -> bool
    decreases item,
{
    if single_pair_item(p.code) {
        reads_single(p, Ok(item)) && rest == after
    } else if is_triple_code(p.code) {
        reads_triple(p, after) == Ok::<XDataItem, DxfError>(item) && rest == after.skip(2)
    } else if p.code == XDATA_CONTROLGROUP {
        match item {
            XDataItem::ControlGroup(v) => group_reads(after, v@, rest),
            _ => false,
        }
    } else {
        false
    }
}

/// The number of pairs after its first that an item takes when read.
pub open spec fn item_width(item: XDataItem) -> nat
    decreases item,
{
    match item {
        XDataItem::ControlGroup(v) => items_width(v@) + 1,
        XDataItem::ThreeReals(..) | XDataItem::WorldSpacePosition(_) | XDataItem::WorldSpaceDisplacement(_)
        | XDataItem::WorldDirection(_) => 2,
        _ => 0,
    }
}

/// The number of pairs that items take when read, each with its first pair.
pub open spec fn items_width(items: Seq<XDataItem>) -> nat
    decreases items,
{
    if items.len() == 0 {
        0
    } else {
        items_width(items.drop_last()) + 1 + item_width(items.last())
    }
}

/// Reading the items of a control group from `ps` gives `items` and leaves
/// `rest`: each item opens with a pair of group code 1000 or more (a `1002`
/// one holding a string) and is read as `item_reads` says, and `1002/}` ends
/// the group.
pub open spec fn group_reads(ps: Seq<CodePair>, items: Seq<XDataItem>, rest: Seq<CodePair>) -> bool
    decreases items,
{
    if items.len() == 0 {
        ps.len() > 0 && is_closer(ps[0]) && rest == ps.skip(1)
    } else {
        &&& ps.len() > 0
        &&& ps[0].code >= XDATA_STRING
        &&& !is_closer(ps[0])
        &&& (ps[0].code == XDATA_CONTROLGROUP ==> ps[0].value is Str)
        &&& item_reads(ps[0], ps.skip(1), items[0], ps.skip(1 + item_width(items[0]) as int))
        &&& group_reads(ps.skip(1 + item_width(items[0]) as int), items.skip(1), rest)
    }
}

/// Whether a one-pair item reads: `Ok(0)` (it takes no pair after its own),
/// or the error that reading it gives.
pub open spec fn single_outcome(p: CodePair) -> Result<nat, DxfError> {
    let wrong = Err(DxfError::WrongValueType(p.code, p.offset));
    if p.code == XDATA_STRING || p.code == XDATA_LAYER {
        if p.value is Str { Ok(0) } else { wrong }
    } else if p.code == XDATA_BINARYDATA {
        match p.value {
            CodePairValue::Str(v) => if hex_bytes(v@) is Some { Ok(0) } else { Err(DxfError::MalformedHexData(p.offset)) },
            _ => wrong,
        }
    } else if p.code == XDATA_HANDLE {
        match p.value {
            CodePairValue::Str(v) => if v@.len() > 0 && (hex_number(v@) matches Some(n) && n <= u32::MAX) {
                Ok(0)
            } else {
                Err(DxfError::MalformedHandle(p.offset))
            },
            _ => wrong,
        }
    } else if p.code == XDATA_REAL || p.code == XDATA_DISTANCE || p.code == XDATA_SCALEFACTOR {
        if p.value is Double { Ok(0) } else { wrong }
    } else if p.code == XDATA_INTEGER {
        if p.value is Short { Ok(0) } else { wrong }
    } else {
        if p.value is Integer { Ok(0) } else { wrong }
    }
}

/// Whether reading the item that `p` opens, with `after` following it,
/// succeeds, and how many pairs of `after` it then takes; or the error it
/// gives. A control group reads items up to its closing `1002/}`; a pair with
/// group code below 1000 inside it is an error on that pair.
pub open spec fn item_span(p: CodePair, after: Seq<CodePair>) -> Result<nat, DxfError>
    decreases after.len(), 1nat,
{
    if single_pair_item(p.code) {
        single_outcome(p)
    } else if is_triple_code(p.code) {
        match reads_triple(p, after) {
            Ok(_) => Ok(2),
            Err(e) => Err(e),
        }
    } else if p.code == XDATA_CONTROLGROUP {
        group_span(after)
    } else {
        Err(DxfError::UnexpectedCode(p.code, p.offset))
    }
}

/// Whether reading the items of a control group from `ps`, through its
/// closing `1002/}`, succeeds, and how many pairs it then takes; or the error.
pub open spec fn group_span(ps: Seq<CodePair>) -> Result<nat, DxfError>
    decreases ps.len(), 0nat,
{
    if ps.len() == 0 {
        Err(DxfError::UnexpectedEndOfInput)
    } else if ps[0].code < XDATA_STRING {
        Err(bad_pair(ps[0]))
    } else if ps[0].code == XDATA_CONTROLGROUP && !(ps[0].value is Str) {
        Err(DxfError::WrongValueType(ps[0].code, ps[0].offset))
    } else if is_closer(ps[0]) {
        Ok(1)
    } else {
        match item_span(ps[0], ps.skip(1)) {
            Ok(w) => if 1 + w <= ps.len() {
                match group_span(ps.skip(1 + w as int)) {
                    Ok(w2) => Ok(1 + w + w2),
                    Err(e) => Err(e),
                }
            } else {
                Err(DxfError::UnexpectedEndOfInput)
            },
            Err(e) => Err(e),
        }
    }
}

/// Whether reading one application's items from `ps` succeeds, and how many
/// pairs it then takes (up to a pair that ends the data, or the end); or the
/// error.
pub open spec fn xdata_span(ps: Seq<CodePair>) -> Result<nat, DxfError>
    decreases ps.len(),
{
    if ps.len() == 0 || ends_xdata(ps[0]) {
        Ok(0)
    } else {
        match item_span(ps[0], ps.skip(1)) {
            Ok(w) => if 1 + w <= ps.len() {
                match xdata_span(ps.skip(1 + w as int)) {
                    Ok(w2) => Ok(1 + w + w2),
                    Err(e) => Err(e),
                }
            } else {
                Err(DxfError::UnexpectedEndOfInput)
            },
            Err(e) => Err(e),
        }
    }
}

/// `r` is the outcome `sp` of a reader: success exactly when `sp` is `Ok`,
/// and the same error otherwise.
pub open spec fn span_agrees<T>(r: Result<T, DxfError>, sp: Result<nat, DxfError>) -> bool {
    match sp {
        Ok(_) => r is Ok,
        Err(e) => r matches Err(e2) && same_error(e2, e),
    }
}

/// `sp` with `c` more pairs taken before it.
pub open spec fn shift(sp: Result<nat, DxfError>, c: nat) -> Result<nat, DxfError> {
    match sp {
        Ok(w) => Ok(w + c),
        Err(e) => Err(e),
    }
}

/// The pairs written for an item read back: reading the item from its first
/// pair succeeds and takes exactly the rest of its pairs, whatever follows.
pub proof fn lemma_item_span_written(item: XDataItem, ps: Seq<CodePair>, rest: Seq<CodePair>)
    requires
        written_as(item, ps),
    ensures
        ps.len() >= 1,
        ps[0].code >= XDATA_STRING,
        ps[0].code != XDATA_APPLICATIONNAME,
        !is_closer(ps[0]),
        ps[0].code == XDATA_CONTROLGROUP ==> ps[0].value is Str,
        item_span(ps[0], ps.skip(1) + rest) == Ok::<nat, DxfError>((ps.len() - 1) as nat),
    decreases item,
{
    reveal_strlit("{");
    reveal_strlit("}");
    match item {
        XDataItem::BinaryData(d) => {
            lemma_hex_bytes_round_trip(d@);
        },
        XDataItem::Handle(h) => {
            crate::value::lemma_hex_text_number(h as nat);
        },
        XDataItem::ControlGroup(v) => {
            let inner = ps.subrange(1, ps.len() - 1);
            let after = ps.skip(1) + rest;
            let tail = seq![ps.last()] + rest;
            assert(after =~= inner + tail);
            assert("{"@ != "}"@) by {
                assert("{"@[0] != "}"@[0]);
            }
            lemma_group_span_prefix(v@, inner, tail);
            assert(tail[0] == ps.last());
            assert(group_span(tail) == Ok::<nat, DxfError>(1));
        },
        _ => {
            if triple_first(item) is Some {
                lemma_triple_item_round_trip(item, ps, rest);
                assert((ps.skip(1) + rest).skip(1)[0] == ps[2]);
            }
        },
    }
}

/// Items written one after another read as a control group's items: what
/// follows them reads as it would alone, after that many pairs.
pub proof fn lemma_group_span_prefix(items: Seq<XDataItem>, ps: Seq<CodePair>, tail: Seq<CodePair>)
    requires
        items_written(items, ps),
    ensures
        group_span(ps + tail) == shift(group_span(tail), ps.len()),
    decreases items,
{
    if items.len() == 0 {
        assert(ps + tail =~= tail);
        assert(shift(group_span(tail), 0) == group_span(tail));
    } else {
        let k = choose|k: int|
            0 <= k <= ps.len() && items_written(items.drop_last(), #[trigger] ps.take(k)) && written_as(
                items.last(),
                ps.skip(k),
            );
        let last = ps.skip(k);
        lemma_item_span_written(items.last(), last, tail);
        let x = last + tail;
        assert(x[0] == last[0]);
        assert(x.skip(1) =~= last.skip(1) + tail);
        assert(x.skip(1 + (last.len() - 1)) =~= tail);
        assert(group_span(x) == shift(group_span(tail), last.len()));
        lemma_group_span_prefix(items.drop_last(), ps.take(k), x);
        assert(ps.take(k) + x =~= ps + tail);
    }
}

/// Items written one after another read as one application's items: what
/// follows them reads as it would alone, after that many pairs.
pub proof fn lemma_xdata_span_prefix(items: Seq<XDataItem>, ps: Seq<CodePair>, tail: Seq<CodePair>)
    requires
        items_written(items, ps),
    ensures
        xdata_span(ps + tail) == shift(xdata_span(tail), ps.len()),
    decreases items.len(),
{
    if items.len() == 0 {
        assert(ps + tail =~= tail);
        assert(shift(xdata_span(tail), 0) == xdata_span(tail));
    } else {
        let k = choose|k: int|
            0 <= k <= ps.len() && items_written(items.drop_last(), #[trigger] ps.take(k)) && written_as(
                items.last(),
                ps.skip(k),
            );
        let last = ps.skip(k);
        lemma_item_span_written(items.last(), last, tail);
        let x = last + tail;
        assert(x[0] == last[0]);
        assert(x.skip(1) =~= last.skip(1) + tail);
        assert(x.skip(1 + (last.len() - 1)) =~= tail);
        assert(!ends_xdata(x[0]));
        assert(xdata_span(x) == shift(xdata_span(tail), last.len()));
        lemma_xdata_span_prefix(items.drop_last(), ps.take(k), x);
        assert(ps.take(k) + x =~= ps + tail);
    }
}

/// Reading back what `XData::write` wrote after its `1001` pair succeeds, takes
/// exactly the items' pairs, and leaves a following pair that ends the data in
/// place.
pub proof fn lemma_xdata_write_read(items: Seq<XDataItem>, ps: Seq<CodePair>, z: CodePair)
    requires
        items_written(items, ps),
        ends_xdata(z),
    ensures
        xdata_span(ps.push(z)) == Ok::<nat, DxfError>(ps.len()),
        ps.push(z).skip(ps.len() as int) == seq![z],
{
    lemma_xdata_span_prefix(items, ps, seq![z]);
    assert(ps + seq![z] =~= ps.push(z));
    assert(ps.push(z).skip(ps.len() as int) =~= seq![z]);
}

/// Two items with the same contents: equal, but for vectors compared by
/// their elements.
pub open spec fn same_item(a: XDataItem, b: XDataItem) -> bool
    decreases a,
{
    match a {
        XDataItem::ControlGroup(v1) => match b {
            XDataItem::ControlGroup(v2) => same_items(v1@, v2@),
            _ => false,
        },
        XDataItem::BinaryData(d1) => match b {
            XDataItem::BinaryData(d2) => d1@ == d2@,
            _ => false,
        },
        _ => a == b,
    }
}

/// Two sequences of items with the same contents, item by item.
pub open spec fn same_items(a: Seq<XDataItem>, b: Seq<XDataItem>) -> bool
    decreases a,
{
    if a.len() == 0 {
        b.len() == 0
    } else {
        b.len() == a.len() && same_item(a.last(), b.last()) && same_items(a.drop_last(), b.drop_last())
    }
}

/// Reading back the pairs written for an item gives an item with the same
/// contents, and takes exactly those pairs.
pub proof fn lemma_item_read_written(
    item: XDataItem,
    ps: Seq<CodePair>,
    rest: Seq<CodePair>,
    item2: XDataItem,
    rest2: Seq<CodePair>,
)
    requires
        written_as(item, ps),
        item_reads(ps[0], ps.skip(1) + rest, item2, rest2),
    ensures
        same_item(item, item2),
        rest2 == rest,
    decreases item,
{
    lemma_item_span_written(item, ps, rest);
    reveal_strlit("{");
    reveal_strlit("}");
    assert(ps.skip(1) + rest == ps.skip(1) + rest);
    match item {
        XDataItem::BinaryData(d) => {
            lemma_hex_bytes_round_trip(d@);
            assert(ps.skip(1) + rest =~= rest);
        },
        XDataItem::Handle(h) => {
            crate::value::lemma_hex_text_number(h as nat);
            assert(ps.skip(1) + rest =~= rest);
        },
        XDataItem::ControlGroup(v) => {
            let inner = ps.subrange(1, ps.len() - 1);
            let tail = seq![ps.last()] + rest;
            assert(ps.skip(1) + rest =~= inner + tail);
            assert("{"@ != "}"@) by {
                assert("{"@[0] != "}"@[0]);
            }
            let v2 = item2->ControlGroup_0;
            lemma_group_read_written(v@, inner, tail, v2@, rest2);
            let left = v2@.skip(v@.len() as int);
            assert(tail[0] == ps.last());
            if left.len() > 0 {
                assert(!is_closer(tail[0]));
            }
            assert(v2@.take(v@.len() as int) =~= v2@);
            assert(tail.skip(1) =~= rest);
        },
        _ => {
            if triple_first(item) is Some {
                lemma_triple_item_round_trip(item, ps, rest);
                assert((ps.skip(1) + rest).skip(2) =~= rest);
            } else {
                assert(ps.skip(1) + rest =~= rest);
            }
        },
    }
}

/// Reading a control group's items over pairs that begin with the pairs
/// written for `items` gives items with the same contents first, then reads
/// on from what follows those pairs.
pub proof fn lemma_group_read_written(
    items: Seq<XDataItem>,
    ps: Seq<CodePair>,
    tail: Seq<CodePair>,
    items2: Seq<XDataItem>,
    rest2: Seq<CodePair>,
)
    requires
        items_written(items, ps),
        group_reads(ps + tail, items2, rest2),
    ensures
        items2.len() >= items.len(),
        same_items(items, items2.take(items.len() as int)),
        group_reads(tail, items2.skip(items.len() as int), rest2),
    decreases items,
{
    let n = items.len() as int;
    if n == 0 {
        assert(ps + tail =~= tail);
        assert(items2.skip(0) =~= items2);
        assert(items2.take(0) =~= Seq::<XDataItem>::empty());
    } else {
        let k = choose|k: int|
            0 <= k <= ps.len() && items_written(items.drop_last(), #[trigger] ps.take(k)) && written_as(
                items.last(),
                ps.skip(k),
            );
        let last = ps.skip(k);
        let lt = last + tail;
        assert(ps.take(k) + lt =~= ps + tail);
        lemma_group_read_written(items.drop_last(), ps.take(k), lt, items2, rest2);
        let x = items2.skip(n - 1);
        lemma_item_span_written(items.last(), last, tail);
        assert(lt[0] == last[0]);
        assert(x.len() > 0);
        assert(lt.skip(1) =~= last.skip(1) + tail);
        let w = item_width(x[0]);
        lemma_item_read_written(items.last(), last, tail, x[0], lt.skip(1 + w as int));
        assert(x.skip(1) =~= items2.skip(n));
        assert(items2.take(n).drop_last() =~= items2.take(n - 1));
        assert(items2.take(n).last() == x[0]);
    }
}

/// Reading one application's items over pairs that begin with the pairs
/// written for `items` gives items with the same contents first, then reads
/// on from what follows those pairs.
pub proof fn lemma_xdata_read_written(
    items: Seq<XDataItem>,
    ps: Seq<CodePair>,
    tail: Seq<CodePair>,
    items2: Seq<XDataItem>,
    rest2: Seq<CodePair>,
)
    requires
        items_written(items, ps),
        xdata_reads(ps + tail, items2, rest2),
    ensures
        items2.len() >= items.len(),
        same_items(items, items2.take(items.len() as int)),
        xdata_reads(tail, items2.skip(items.len() as int), rest2),
    decreases items.len(),
{
    let n = items.len() as int;
    if n == 0 {
        assert(ps + tail =~= tail);
        assert(items2.skip(0) =~= items2);
        assert(items2.take(0) =~= Seq::<XDataItem>::empty());
    } else {
        let k = choose|k: int|
            0 <= k <= ps.len() && items_written(items.drop_last(), #[trigger] ps.take(k)) && written_as(
                items.last(),
                ps.skip(k),
            );
        let last = ps.skip(k);
        let lt = last + tail;
        assert(ps.take(k) + lt =~= ps + tail);
        lemma_xdata_read_written(items.drop_last(), ps.take(k), lt, items2, rest2);
        let x = items2.skip(n - 1);
        lemma_item_span_written(items.last(), last, tail);
        assert(lt[0] == last[0]);
        assert(x.len() > 0);
        assert(lt.skip(1) =~= last.skip(1) + tail);
        let w = item_width(x[0]);
        lemma_item_read_written(items.last(), last, tail, x[0], lt.skip(1 + w as int));
        assert(x.skip(1) =~= items2.skip(n));
        assert(items2.take(n).drop_last() =~= items2.take(n - 1));
        assert(items2.take(n).last() == x[0]);
    }
}

/// What `XData::write` wrote after its `1001` pair reads back as items with the
/// same contents, leaving a following pair that ends the data in place.
pub proof fn lemma_xdata_round_trip(
    items: Seq<XDataItem>,
    ps: Seq<CodePair>,
    z: CodePair,
    items2: Seq<XDataItem>,
    rest2: Seq<CodePair>,
)
    requires
        items_written(items, ps),
        ends_xdata(z),
        xdata_reads(ps.push(z), items2, rest2),
    ensures
        same_items(items, items2),
        rest2 == seq![z],
{
    assert(ps + seq![z] =~= ps.push(z));
    lemma_xdata_read_written(items, ps, seq![z], items2, rest2);
    let left = items2.skip(items.len() as int);
    assert(left.len() == 0);
    assert(items2.take(items.len() as int) =~= items2);
}

/// Reading one application's items from `ps` gives `items` and leaves `rest`:
/// items in turn until a pair that ends the data (see `ends_xdata`), or the end.
pub open spec fn xdata_reads(ps: Seq<CodePair>, items: Seq<XDataItem>, rest: Seq<CodePair>) -> bool
    decreases items,
{
    if items.len() == 0 {
        rest == ps && (ps.len() == 0 || ends_xdata(ps[0]))
    } else {
        &&& ps.len() > 0
        &&& !ends_xdata(ps[0])
        &&& item_reads(ps[0], ps.skip(1), items[0], ps.skip(1 + item_width(items[0]) as int))
        &&& xdata_reads(ps.skip(1 + item_width(items[0]) as int), items.skip(1), rest)
    }
}

impl XData {
    /// Reads the items of one application's extended data, after its `1001`
    /// pair, up to the pair that ends them (see `ends_xdata`), which is left
    /// in the stream, or to the end of the input.
    pub fn read_item(application_name: String, s: &mut CodePairStream) -> (r: Result<XData, DxfError>)
        ensures
            read_step(old(s)@, final(s)@, r),
            r matches Ok(x) ==> x.application_name == application_name && (final(s)@.len() == 0
                || ends_xdata(final(s)@[0])) && xdata_reads(old(s)@, x.items@, final(s)@),
            old(s)@.len() == 0 || ends_xdata(old(s)@[0]) ==> (r matches Ok(x) && x.items@.len() == 0
                && final(s)@ == old(s)@),
            match xdata_span(old(s)@) {
                Ok(w) => r is Ok && w <= old(s)@.len() && final(s)@ == old(s)@.skip(w as int),
                Err(e) => r matches Err(e2) && same_error(e2, e),
            },
    {
        let ghost start = s@;
        let mut items: Vec<XDataItem> = Vec::new();
        proof {
            lemma_suffix_refl(start);
            assert(xdata_span(start) == shift(xdata_span(s@), 0));
            assert forall|tail: Seq<XDataItem>, rest: Seq<CodePair>| #[trigger] xdata_reads(s@, tail, rest)
                implies xdata_reads(start, items@ + tail, rest) by {
                assert(items@ + tail =~= tail);
            }
        }
        loop
            invariant
                start == old(s)@,
                suffix_of(start, s@),
                forall|tail: Seq<XDataItem>, rest: Seq<CodePair>| #[trigger] xdata_reads(s@, tail, rest)
                    ==> xdata_reads(start, items@ + tail, rest),
                items@.len() > 0 ==> start.len() > 0 && !ends_xdata(start[0]),
                items@.len() == 0 ==> s@ == start,
                xdata_span(start) == shift(xdata_span(s@), (start.len() - s@.len()) as nat),
            decreases s@.len(),
        {
            let ghost before = s@;
            proof {
                if before.len() > 0 {
                    lemma_suffix_next(start, before);
                }
            }
            let pair = match s.next() {
                Some(p) => p,
                None => {
                    proof {
                        assert(xdata_reads(s@, Seq::empty(), s@));
                        assert(items@ + Seq::<XDataItem>::empty() =~= items@);
                    }
                    return Ok(XData { application_name, items });
                },
            };
            if pair.code == 0 || pair.code == XDATA_APPLICATIONNAME || pair.code < XDATA_STRING {
                s.put_back(pair);
                assert(s@ =~= before);
                proof {
                    assert(xdata_reads(s@, Seq::empty(), s@));
                    assert(items@ + Seq::<XDataItem>::empty() =~= items@);
                }
                return Ok(XData { application_name, items });
            }
            let ghost mid = s@;
            let r = XDataItem::read_item(&pair, s);
            proof {
                assert(seq![pair] + mid =~= before);
                lemma_read_step_chain(start, before, s@, r);
            }
            match r {
                Ok(item) => {
                    let ghost items0 = items@;
                    items.push(item);
                    proof {
                        if items0.len() == 0 {
                            assert(before == start);
                        }
                        assert(s@ =~= before.skip(1 + item_width(item) as int));
                        assert(item_span(pair, before.skip(1)) == Ok::<nat, DxfError>(item_width(item)));
                        assert(xdata_span(before) == shift(xdata_span(s@), 1 + item_width(item)));
                        assert forall|tail: Seq<XDataItem>, rest: Seq<CodePair>| #[trigger] xdata_reads(s@, tail, rest)
                            implies xdata_reads(start, items@ + tail, rest) by {
                            let t2 = seq![item] + tail;
                            assert(t2[0] == item);
                            assert(t2.skip(1) =~= tail);
                            assert(s@ =~= before.skip(1 + item_width(item) as int));
                            assert(xdata_reads(before, t2, rest));
                            assert(items0 + t2 =~= items@ + tail);
                        }
                    }
                },
                Err(e) => return Err(e),
            }
        }
    }

    /// Appends the pairs of this extended data: nothing before R2000, else
    /// `1001` with the application name and then each item.
    pub fn write(&self, version: AcadVersion, out: &mut Vec<CodePair>)
        ensures
            extends(old(out)@, final(out)@),
            version_rank(version) < version_rank(AcadVersion::R2000) ==> final(out)@ == old(out)@,
            version_rank(version) >= version_rank(AcadVersion::R2000) ==> final(out)@.len() > old(out)@.len()
                && final(out)@[old(out)@.len() as int] == out_pair(
                XDATA_APPLICATIONNAME,
                CodePairValue::Str(self.application_name),
            ) && items_written(self.items@, final(out)@.skip(old(out)@.len() as int + 1)),
    {
        let ghost start = out@;
        proof {
            crate::reading::lemma_extends_refl(start);
        }
        if version.at_least(AcadVersion::R2000) {
            out.push(CodePair::new_string(XDATA_APPLICATIONNAME, self.application_name.clone()));
            let ghost first = out@[start.len() as int];
            let mut i: usize = 0;
            proof {
                assert(self.items@.take(0) =~= Seq::<XDataItem>::empty());
                assert(out@.skip(start.len() as int + 1) =~= Seq::<CodePair>::empty());
            }
            while i < self.items.len()
                invariant
                    extends(start, out@),
                    out@.len() > start.len(),
                    out@[start.len() as int] == first,
                    i <= self.items.len(),
                    items_written(self.items@.take(i as int), out@.skip(start.len() as int + 1)),
                decreases self.items.len() - i,
            {
                let ghost prev = out@;
                self.items[i].write(out);
                proof {
                    assert(out@[start.len() as int] == out@.take(prev.len() as int)[start.len() as int]);
                    let whole = out@.skip(start.len() as int + 1);
                    let k = prev.len() - start.len() - 1;
                    assert(whole.take(k) =~= prev.skip(start.len() as int + 1));
                    assert(whole.skip(k) =~= out@.skip(prev.len() as int));
                    assert(self.items@.take(i + 1).drop_last() =~= self.items@.take(i as int));
                    assert(self.items@.take(i + 1).last() == self.items@[i as int]);
                    assert(items_written(self.items@.take(i + 1), whole));
                }
                i = i + 1;
            }
            assert(self.items@.take(self.items@.len() as int) =~= self.items@);
        }
    }
}

/// Appends one pair.
fn emit(out: &mut Vec<CodePair>, p: CodePair)
    ensures
        final(out)@ == old(out)@.push(p),
        final(out)@.skip(old(out)@.len() as int) == seq![p],
        extends(old(out)@, final(out)@),
{
    let ghost start = out@;
    out.push(p);
    assert(out@.skip(start.len() as int) =~= seq![p]);
}

impl XDataItem {
    /// Reads the double of the next pair, which must have group code
    /// `expected_code`.
    fn read_double(s: &mut CodePairStream, expected_code: i32) -> (r: Result<u64, DxfError>)
        ensures
            read_step(old(s)@, final(s)@, r),
            final(s)@.len() <= old(s)@.len(),
            r == reads_coordinate(expected_code, old(s)@),
            r is Ok ==> final(s)@ == old(s)@.skip(1),
    {
        let ghost start = s@;
        proof {
            lemma_suffix_refl(start);
            if start.len() > 0 {
                lemma_suffix_next(start, start);
            }
        }
        match s.next() {
            Some(q) => {
                assert(stopped_at(start, s@, q));
                if q.code == expected_code {
                    q.assert_f64()
                } else {
                    Err(DxfError::UnexpectedCode(q.code, q.offset))
                }
            },
            None => Err(DxfError::UnexpectedEndOfInput),
        }
    }

    /// Reads the second and third coordinates after the first, from two
    /// pairs with the same group code.
    fn read_triple(s: &mut CodePairStream, expected_code: i32) -> (r: Result<(u64, u64), DxfError>)
        ensures
            read_step(old(s)@, final(s)@, r),
            final(s)@.len() <= old(s)@.len(),
            match reads_coordinate(expected_code, old(s)@) {
                Ok(y) => match reads_coordinate(expected_code, old(s)@.skip(1)) {
                    Ok(z) => r == Ok::<(u64, u64), DxfError>((y, z)) && final(s)@ == old(s)@.skip(2),
                    Err(e) => r == Err::<(u64, u64), DxfError>(e),
                },
                Err(e) => r == Err::<(u64, u64), DxfError>(e),
            },
    {
        let ghost start = s@;
        let y = match XDataItem::read_double(s, expected_code) {
            Ok(y) => y,
            Err(e) => return Err(e),
        };
        let ghost mid = s@;
        let z = XDataItem::read_double(s, expected_code);
        proof {
            lemma_read_step_chain(start, mid, s@, z);
            if z is Ok {
                assert(start.skip(1).skip(1) =~= start.skip(2));
            }
        }
        match z {
            Ok(z) => Ok((y, z)),
            Err(e) => Err(e),
        }
    }

    /// Reads the item that `pair`, just taken from the stream, opens. A
    /// control group reads items up to its closing `1002/}`; the three-real
    /// items read two more pairs of the same group code.
    pub fn read_item(pair: &CodePair, s: &mut CodePairStream) -> (r: Result<XDataItem, DxfError>)
        ensures
            read_step(seq![*pair] + old(s)@, final(s)@, r),
            final(s)@.len() <= old(s)@.len(),
            single_pair_item(pair.code) ==> final(s)@ == old(s)@ && reads_single(*pair, r),
            is_triple_code(pair.code) ==> r == reads_triple(*pair, old(s)@) && (r is Ok ==> final(s)@
                == old(s)@.skip(2)),
            r matches Ok(item) ==> item_reads(*pair, old(s)@, item, final(s)@) && item_width(item) <= old(
                s,
            )@.len() && final(s)@ == old(s)@.skip(item_width(item) as int),
            !single_pair_item(pair.code) && !is_triple_code(pair.code) && pair.code
                != XDATA_CONTROLGROUP ==> r == Err::<XDataItem, DxfError>(
                DxfError::UnexpectedCode(pair.code, pair.offset),
            ) && final(s)@ == old(s)@,
            match item_span(*pair, old(s)@) {
                Ok(w) => r matches Ok(item) && item_width(item) == w,
                Err(e) => r matches Err(e2) && same_error(e2, e),
            },
        decreases old(s)@.len(),
    {
        let ghost start = seq![*pair] + s@;
        proof {
            assert(start.skip(1) =~= s@);
            lemma_suffix_refl(start);
            lemma_suffix_next(start, start);
        }
        let code = pair.code;
        if code == XDATA_STRING {
            match pair.assert_string() {
                Ok(v) => Ok(XDataItem::Str(v)),
                Err(e) => Err(e),
            }
        } else if code == XDATA_CONTROLGROUP {
            let mut items: Vec<XDataItem> = Vec::new();
            proof {
                assert(old(s)@.skip(0) =~= old(s)@);
                assert(group_span(old(s)@) == shift(group_span(s@), 0));
                assert forall|tail: Seq<XDataItem>, rest: Seq<CodePair>| #[trigger] group_reads(s@, tail, rest)
                    implies group_reads(old(s)@, items@ + tail, rest) by {
                    assert(items@ + tail =~= tail);
                }
            }
            loop
                invariant_except_break
                    forall|tail: Seq<XDataItem>, rest: Seq<CodePair>| #[trigger] group_reads(s@, tail, rest)
                        ==> group_reads(old(s)@, items@ + tail, rest),
                    items_width(items@) <= old(s)@.len(),
                    s@ == old(s)@.skip(items_width(items@) as int),
                    group_span(old(s)@) == shift(group_span(s@), items_width(items@)),
                invariant
                    start == seq![*pair] + old(s)@,
                    pair.code == XDATA_CONTROLGROUP,
                    suffix_of(start, s@),
                    s@.len() <= old(s)@.len(),
                ensures
                    start == seq![*pair] + old(s)@,
                    pair.code == XDATA_CONTROLGROUP,
                    suffix_of(start, s@),
                    s@.len() < old(s)@.len(),
                    group_reads(old(s)@, items@, s@),
                    items_width(items@) + 1 <= old(s)@.len(),
                    s@ == old(s)@.skip(items_width(items@) as int + 1),
                    group_span(old(s)@) == Ok::<nat, DxfError>(items_width(items@) + 1),
                decreases s@.len(),
            {
                let ghost before = s@;
                proof {
                    if before.len() > 0 {
                        lemma_suffix_next(start, before);
                    }
                }
                let q = match s.next() {
                    Some(q) => q,
                    None => return Err(DxfError::UnexpectedEndOfInput),
                };
                if q.code < XDATA_STRING {
                    return Err(DxfError::UnexpectedCodePair(q, String::from_str("expected XDATA item")));
                }
                if q.code == XDATA_CONTROLGROUP {
                    match q.assert_string() {
                        Ok(v) => {
                            if q.value.is_text("}") {
                                proof {
                                    assert(group_reads(before, Seq::empty(), s@));
                                    assert(items@ + Seq::<XDataItem>::empty() =~= items@);
                                    assert(s@ =~= old(s)@.skip(items_width(items@) as int + 1));
                                    assert(group_span(before) == Ok::<nat, DxfError>(1));
                                }
                                break;
                            }
                        },
                        Err(e) => return Err(e),
                    }
                }
                let r = XDataItem::read_item(&q, s);
                proof {
                    assert(seq![q] + before.skip(1) =~= before);
                    lemma_read_step_chain(start, before, s@, r);
                }
                match r {
                    Ok(item) => {
                        let ghost items0 = items@;
                        items.push(item);
                        proof {
                            assert(before[0] == q);
                            assert(!is_closer(q));
                            assert(items@.drop_last() =~= items0);
                            assert(items_width(items@) == items_width(items0) + 1 + item_width(item));
                            assert(s@ =~= before.skip(1 + item_width(item) as int));
                            assert(s@ =~= old(s)@.skip(items_width(items@) as int));
                            assert(item_span(q, before.skip(1)) == Ok::<nat, DxfError>(item_width(item)));
                            assert(group_span(before) == shift(group_span(s@), 1 + item_width(item)));
                            assert forall|tail: Seq<XDataItem>, rest: Seq<CodePair>| #[trigger] group_reads(s@, tail, rest)
                                implies group_reads(old(s)@, items@ + tail, rest) by {
                                let t2 = seq![item] + tail;
                                assert(t2[0] == item);
                                assert(t2.skip(1) =~= tail);
                                assert(group_reads(before, t2, rest));
                                assert(items0 + t2 =~= items@ + tail);
                            }
                        }
                    },
                    Err(e) => return Err(e),
                }
            }
            Ok(XDataItem::ControlGroup(items))
        } else if code == XDATA_LAYER {
            match pair.assert_string() {
                Ok(v) => Ok(XDataItem::LayerName(v)),
                Err(e) => Err(e),
            }
        } else if code == XDATA_BINARYDATA {
            match pair.assert_string() {
                Ok(v) => match parse_hex_bytes(&v) {
                    Some(data) => Ok(XDataItem::BinaryData(data)),
                    None => Err(DxfError::MalformedHexData(pair.offset)),
                },
                Err(e) => Err(e),
            }
        } else if code == XDATA_HANDLE {
            match pair.as_handle() {
                Ok(h) => Ok(XDataItem::Handle(h)),
                Err(e) => Err(e),
            }
        } else if code == XDATA_THREEREALS || code == XDATA_WORLDSPACEPOSITION || code
            == XDATA_WORLDSPACEDISPLACEMENT || code == XDATA_WORLDDIRECTION {
            let x = match pair.assert_f64() {
                Ok(x) => x,
                Err(e) => return Err(e),
            };
            let ghost mid = s@;
            let rest = XDataItem::read_triple(s, code);
            proof {
                lemma_read_step_chain(start, mid, s@, rest);
            }
            match rest {
                Ok((y, z)) => {
                    if code == XDATA_THREEREALS {
                        Ok(XDataItem::ThreeReals(x, y, z))
                    } else if code == XDATA_WORLDSPACEPOSITION {
                        Ok(XDataItem::WorldSpacePosition(Point { x, y, z }))
                    } else if code == XDATA_WORLDSPACEDISPLACEMENT {
                        Ok(XDataItem::WorldSpaceDisplacement(Point { x, y, z }))
                    } else {
                        Ok(XDataItem::WorldDirection(Vector { x, y, z }))
                    }
                },
                Err(e) => Err(e),
            }
        } else if code == XDATA_REAL {
            match pair.assert_f64() {
                Ok(v) => Ok(XDataItem::Real(v)),
                Err(e) => Err(e),
            }
        } else if code == XDATA_DISTANCE {
            match pair.assert_f64() {
                Ok(v) => Ok(XDataItem::Distance(v)),
                Err(e) => Err(e),
            }
        } else if code == XDATA_SCALEFACTOR {
            match pair.assert_f64() {
                Ok(v) => Ok(XDataItem::ScaleFactor(v)),
                Err(e) => Err(e),
            }
        } else if code == XDATA_INTEGER {
            match pair.assert_i16() {
                Ok(v) => Ok(XDataItem::Integer(v)),
                Err(e) => Err(e),
            }
        } else if code == XDATA_LONG {
            match pair.assert_i32() {
                Ok(v) => Ok(XDataItem::Long(v)),
                Err(e) => Err(e),
            }
        } else {
            Err(DxfError::UnexpectedCode(pair.code, pair.offset))
        }
    }

    /// Appends three pairs with the same group code.
    fn write_triple(out: &mut Vec<CodePair>, code: i32, x: u64, y: u64, z: u64)
        ensures
            extends(old(out)@, final(out)@),
            final(out)@.len() > old(out)@.len(),
            final(out)@.skip(old(out)@.len() as int) == triple_pairs(code, x, y, z),
    {
        let ghost start = out@;
        out.push(CodePair::new_double(code, x));
        out.push(CodePair::new_double(code, y));
        out.push(CodePair::new_double(code, z));
        assert(out@.skip(start.len() as int) =~= triple_pairs(code, x, y, z));
    }

    /// Appends the pairs of this item: one pair for a single value, three with
    /// the same group code for the three-real items, hexadecimal text for
    /// binary data and handles, and a control group between `1002/{` and
    /// `1002/}`.
    pub fn write(&self, out: &mut Vec<CodePair>)
        ensures
            extends(old(out)@, final(out)@),
            final(out)@.len() > old(out)@.len(),
            written_as(*self, final(out)@.skip(old(out)@.len() as int)),
        decreases self,
    {
        match self {
            XDataItem::Str(v) => emit(out, CodePair::new_string(XDATA_STRING, v.clone())),
            XDataItem::ControlGroup(items) => {
                let ghost start = out@;
                out.push(CodePair::new_str(XDATA_CONTROLGROUP, "{"));
                let ghost opener = out@[start.len() as int];
                let mut i: usize = 0;
                proof {
                    assert(items@.take(0) =~= Seq::<XDataItem>::empty());
                    assert(out@.subrange(start.len() as int + 1, out@.len() as int) =~= Seq::<CodePair>::empty());
                }
                while i < items.len()
                    invariant
                        extends(start, out@),
                        out@.len() > start.len(),
                        out@[start.len() as int] == opener,
                        *self == XDataItem::ControlGroup(*items),
                        i <= items.len(),
                        items_written(items@.take(i as int), out@.subrange(start.len() as int + 1, out@.len() as int)),
                    decreases items.len() - i,
                {
                    proof {
                        vstd::std_specs::vec::axiom_vec_index_decreases(*items, i as int);
                        assert(decreases_to!(*self => self->ControlGroup_0));
                        assert(decreases_to!(*self => items[i as int]));
                    }
                    let ghost prev = out@;
                    items[i].write(out);
                    proof {
                        assert(out@[start.len() as int] == out@.take(prev.len() as int)[start.len() as int]);
                        let whole = out@.subrange(start.len() as int + 1, out@.len() as int);
                        let k = prev.len() - start.len() - 1;
                        assert(whole.take(k) =~= prev.subrange(start.len() as int + 1, prev.len() as int));
                        assert(whole.skip(k) =~= out@.skip(prev.len() as int));
                        assert(items@.take(i + 1).drop_last() =~= items@.take(i as int));
                        assert(items@.take(i + 1).last() == items@[i as int]);
                        assert(items_written(items@.take(i + 1), whole));
                    }
                    i = i + 1;
                }
                let ghost prev = out@;
                out.push(CodePair::new_str(XDATA_CONTROLGROUP, "}"));
                assert(out@[start.len() as int] == prev[start.len() as int]);
                let ghost ps = out@.skip(start.len() as int);
                assert(ps[0] == opener);
                assert(ps.last() == out@.last());
                assert(items@.take(items@.len() as int) =~= items@);
                assert(ps.subrange(1, ps.len() - 1) =~= prev.subrange(start.len() as int + 1, prev.len() as int));
            },
            XDataItem::LayerName(v) => emit(out, CodePair::new_string(XDATA_LAYER, v.clone())),
            XDataItem::BinaryData(data) => emit(out, CodePair::new_string(XDATA_BINARYDATA, hex_text_of_bytes(data))),
            XDataItem::Handle(h) => emit(out, CodePair::new_string(XDATA_HANDLE, handle_text(*h))),
            XDataItem::ThreeReals(x, y, z) => XDataItem::write_triple(out, XDATA_THREEREALS, *x, *y, *z),
            XDataItem::WorldSpacePosition(p) => XDataItem::write_triple(out, XDATA_WORLDSPACEPOSITION, p.x, p.y, p.z),
            XDataItem::WorldSpaceDisplacement(p) => XDataItem::write_triple(out, XDATA_WORLDSPACEDISPLACEMENT, p.x, p.y, p.z),
            XDataItem::WorldDirection(v) => XDataItem::write_triple(out, XDATA_WORLDDIRECTION, v.x, v.y, v.z),
            XDataItem::Real(v) => emit(out, CodePair::new_double(XDATA_REAL, *v)),
            XDataItem::Distance(v) => emit(out, CodePair::new_double(XDATA_DISTANCE, *v)),
            XDataItem::ScaleFactor(v) => emit(out, CodePair::new_double(XDATA_SCALEFACTOR, *v)),
            XDataItem::Integer(v) => emit(out, CodePair::new_i16(XDATA_INTEGER, *v)),
            XDataItem::Long(v) => emit(out, CodePair::new_i32(XDATA_LONG, *v)),
        }
    }
}

} // verus!
