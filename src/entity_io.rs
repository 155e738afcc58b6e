//! Reading entities from the pairs of an entities section, and writing them back.
use vstd::prelude::*;
use vstd::string::StringExecFns;

use crate::entities::Attribute;
use crate::entities::Entity;
use crate::entities::EntityCommon;
use crate::entities::EntityType;
use crate::entities::Insert;
use crate::entities::Line;
use crate::entities::Point;
use crate::entities::Polyline;
use crate::entities::Vertex;
use crate::reading::error_in_place;
use crate::reading::extends;
use crate::reading::lemma_suffix_next;
use crate::reading::lemma_suffix_refl;
use crate::reading::read_step;
use crate::reading::stopped_at;
use crate::reading::suffix_of;
use crate::stream::CodePairStream;
use crate::value::handle_text;
use crate::value::is_marker;
use crate::value::is_text;
use crate::value::hex_number;
use crate::value::hex_text;
use crate::reading::bad_pair;
use crate::reading::same_error;
use crate::value::CodePair;
use crate::value::CodePairValue;
use crate::value::DxfError;

verus! {

broadcast use {
    crate::reading::lemma_extends_trans,
    crate::reading::lemma_extends_push,
    crate::reading::lemma_extends_concat,
};

/// The fields gathered while reading one entity.
struct Fields {
    handle: u32,
    layer: String,
    name: String,
    value: String,
    first: Point,
    second: Point,
    flags: i16,
    has_attributes: bool,
}

fn origin() -> (r: Point)
    ensures
        r == (Point { x: 0, y: 0, z: 0 }),
{
    Point { x: 0, y: 0, z: 0 }
}

/// The fields of an entity as read, by their values.
pub struct EntityFields {
    pub handle: u32,
    pub layer: Seq<char>,
    pub name: Seq<char>,
    pub value: Seq<char>,
    pub first: Point,
    pub second: Point,
    pub flags: i16,
    pub has_attributes: bool,
}

/// The fields before any pair is read: layer `0`, everything else zero or empty.
pub open spec fn default_fields() -> EntityFields {
    EntityFields {
        handle: 0,
        layer: "0"@,
        name: Seq::empty(),
        value: Seq::empty(),
        first: Point { x: 0, y: 0, z: 0 },
        second: Point { x: 0, y: 0, z: 0 },
        flags: 0,
        has_attributes: false,
    }
}

spec fn fields_view(f: Fields) -> EntityFields {
    EntityFields {
        handle: f.handle,
        layer: f.layer@,
        name: f.name@,
        value: f.value@,
        first: f.first,
        second: f.second,
        flags: f.flags,
        has_attributes: f.has_attributes,
    }
}

/// What the field pair `q` does to the fields `f`: handle (5, hexadecimal),
/// layer (8), name or tag (2), text value (1), first point (10, 20, 30),
/// second point (11, 21, 31), attributes flag (66) and flags (70). Other
/// group codes are passed over.
pub open spec fn field_step(f: EntityFields, q: CodePair) -> Result<EntityFields, DxfError> {
    let wrong = Err(DxfError::WrongValueType(q.code, q.offset));
    if q.code == 5 {
        match q.value {
            CodePairValue::Str(t) => if t@.len() > 0 && (hex_number(t@) matches Some(n) && n <= u32::MAX) {
                Ok(EntityFields { handle: hex_number(t@)->0 as u32, ..f })
            } else {
                Err(DxfError::MalformedHandle(q.offset))
            },
            _ => wrong,
        }
    } else if q.code == 8 || q.code == 2 || q.code == 1 {
        match q.value {
            CodePairValue::Str(t) => if q.code == 8 {
                Ok(EntityFields { layer: t@, ..f })
            } else if q.code == 2 {
                Ok(EntityFields { name: t@, ..f })
            } else {
                Ok(EntityFields { value: t@, ..f })
            },
            _ => wrong,
        }
    } else if q.code == 10 || q.code == 20 || q.code == 30 || q.code == 11 || q.code == 21 || q.code
        == 31 {
        match q.value {
            CodePairValue::Double(b) => if q.code == 10 {
                Ok(EntityFields { first: Point { x: b, ..f.first }, ..f })
            } else if q.code == 20 {
                Ok(EntityFields { first: Point { y: b, ..f.first }, ..f })
            } else if q.code == 30 {
                Ok(EntityFields { first: Point { z: b, ..f.first }, ..f })
            } else if q.code == 11 {
                Ok(EntityFields { second: Point { x: b, ..f.second }, ..f })
            } else if q.code == 21 {
                Ok(EntityFields { second: Point { y: b, ..f.second }, ..f })
            } else {
                Ok(EntityFields { second: Point { z: b, ..f.second }, ..f })
            },
            _ => wrong,
        }
    } else if q.code == 66 || q.code == 70 {
        match q.value {
            CodePairValue::Short(v) => if q.code == 66 {
                Ok(EntityFields { has_attributes: v != 0, ..f })
            } else {
                Ok(EntityFields { flags: v, ..f })
            },
            _ => wrong,
        }
    } else {
        Ok(f)
    }
}

/// What reading the field pairs of one entity gives, up to the next `0` pair
/// (left in place) or the end, with the pairs left after it.
pub open spec fn fields_read(ps: Seq<CodePair>, f: EntityFields) -> (Result<EntityFields, DxfError>, Seq<CodePair>)
    decreases ps.len(),
{
    if ps.len() == 0 || ps[0].code == 0 {
        (Ok(f), ps)
    } else {
        match field_step(f, ps[0]) {
            Ok(g) => fields_read(ps.skip(1), g),
            Err(e) => (Err(e), ps.skip(1)),
        }
    }
}

/// Reading fields takes pairs, never adds any.
pub proof fn lemma_fields_read_len(ps: Seq<CodePair>, f: EntityFields)
    ensures
        fields_read(ps, f).1.len() <= ps.len(),
    decreases ps.len(),
{
    if ps.len() > 0 && ps[0].code != 0 {
        if let Ok(g) = field_step(f, ps[0]) {
            lemma_fields_read_len(ps.skip(1), g);
        }
    }
}

/// The entity kinds that are read; others are passed over.
pub open spec fn known_kind(kind: CodePairValue) -> bool {
    is_text(kind, "LINE"@) || is_text(kind, "INSERT"@) || is_text(kind, "ATTRIB"@) || is_text(
        kind,
        "POLYLINE"@,
    ) || is_text(kind, "VERTEX"@) || is_text(kind, "SEQEND"@)
}

/// `e` is the entity of kind `kind` with fields `f`; an insert or polyline
/// has no children yet.
pub open spec fn entity_matches(e: Entity, kind: CodePairValue, f: EntityFields) -> bool {
    &&& e.common.handle == f.handle
    &&& e.common.layer@ == f.layer
    &&& if is_text(kind, "LINE"@) {
        e.specific == EntityType::Line(Line { p1: f.first, p2: f.second })
    } else if is_text(kind, "INSERT"@) {
        e.specific matches EntityType::Insert(i) && i.name@ == f.name && i.location == f.first
            && i.has_attributes == f.has_attributes && i.attributes@.len() == 0
    } else if is_text(kind, "ATTRIB"@) {
        e.specific matches EntityType::Attribute(a) && a.tag@ == f.name && a.value@ == f.value
    } else if is_text(kind, "POLYLINE"@) {
        e.specific matches EntityType::Polyline(p) && p.flags == f.flags && p.vertices@.len() == 0
    } else if is_text(kind, "VERTEX"@) {
        e.specific == EntityType::Vertex(Vertex { location: f.first })
    } else {
        e.specific is Seqend
    }
}

/// What reading the entities of an entities section from `ps` gives: the kind
/// and fields of each entity of a known kind, in order, after `acc`; up to
/// `0/ENDSEC` (left in place), with the pairs left after it. Each entity opens
/// with a `0` pair; the input may not end first.
pub open spec fn raw_read(ps: Seq<CodePair>, acc: Seq<(CodePairValue, EntityFields)>) -> (Result<Seq<(CodePairValue, EntityFields)>, DxfError>, Seq<CodePair>)
    decreases ps.len(),
    via raw_read_decreases
{
    if ps.len() == 0 {
        (Err(DxfError::UnexpectedEndOfInput), ps)
    } else if is_marker(ps[0], "ENDSEC"@) {
        (Ok(acc), ps)
    } else if ps[0].code != 0 {
        (Err(bad_pair(ps[0])), ps.skip(1))
    } else {
        match fields_read(ps.skip(1), default_fields()) {
            (Ok(f), rest) => raw_read(
                rest,
                if known_kind(ps[0].value) {
                    acc.push((ps[0].value, f))
                } else {
                    acc
                },
            ),
            (Err(e), rest) => (Err(e), rest),
        }
    }
}

#[via_fn]
proof fn raw_read_decreases(ps: Seq<CodePair>, acc: Seq<(CodePairValue, EntityFields)>) {
    if ps.len() > 0 {
        lemma_fields_read_len(ps.skip(1), default_fields());
    }
}

/// The entities `v` are those that `list` gives, one for one.
pub open spec fn entities_match(v: Seq<Entity>, list: Seq<(CodePairValue, EntityFields)>) -> bool {
    v.len() == list.len() && forall|i: int| 0 <= i < v.len() ==> entity_matches(#[trigger] v[i], list[i].0, list[i].1)
}

/// Takes the field of one pair into `f`; group codes that no entity here
/// reads are passed over.
fn apply_field(f: &mut Fields, q: &CodePair) -> (r: Result<(), DxfError>)
    ensures
        match field_step(fields_view(*old(f)), *q) {
            Ok(g) => r is Ok && fields_view(*final(f)) == g,
            Err(e) => r == Err::<(), DxfError>(e),
        },
{
    let c = q.code;
    if c == 5 {
        match q.as_handle() {
            Ok(h) => f.handle = h,
            Err(e) => return Err(e),
        }
    } else if c == 8 || c == 2 || c == 1 {
        match q.assert_string() {
            Ok(v) => {
                if c == 8 {
                    f.layer = v;
                } else if c == 2 {
                    f.name = v;
                } else {
                    f.value = v;
                }
            },
            Err(e) => return Err(e),
        }
    } else if c == 10 || c == 20 || c == 30 || c == 11 || c == 21 || c == 31 {
        match q.assert_f64() {
            Ok(b) => {
                if c == 10 {
                    f.first.x = b;
                } else if c == 20 {
                    f.first.y = b;
                } else if c == 30 {
                    f.first.z = b;
                } else if c == 11 {
                    f.second.x = b;
                } else if c == 21 {
                    f.second.y = b;
                } else {
                    f.second.z = b;
                }
            },
            Err(e) => return Err(e),
        }
    } else if c == 66 || c == 70 {
        match q.assert_i16() {
            Ok(v) => {
                if c == 66 {
                    f.has_attributes = v != 0;
                } else {
                    f.flags = v;
                }
            },
            Err(e) => return Err(e),
        }
    }
    Ok(())
}

/// The entity that a type name and its fields make, if the type is known.
fn build_entity(kind: &CodePair, f: Fields) -> (r: Option<Entity>)
    ensures
        known_kind(kind.value) ==> (r matches Some(e) && entity_matches(e, kind.value, fields_view(f))),
        !known_kind(kind.value) ==> r is None,
{
    proof {
        reveal_strlit("LINE");
        reveal_strlit("INSERT");
        reveal_strlit("ATTRIB");
        reveal_strlit("POLYLINE");
        reveal_strlit("VERTEX");
        reveal_strlit("SEQEND");
    }
    let common = EntityCommon { handle: f.handle, layer: f.layer };
    if kind.value.is_text("LINE") {
        Some(Entity { common, specific: EntityType::Line(Line { p1: f.first, p2: f.second }) })
    } else if kind.value.is_text("INSERT") {
        Some(
            Entity {
                common,
                specific: EntityType::Insert(
                    Insert {
                        name: f.name,
                        location: f.first,
                        has_attributes: f.has_attributes,
                        attributes: Vec::new(),
                    },
                ),
            },
        )
    } else if kind.value.is_text("ATTRIB") {
        Some(Entity { common, specific: EntityType::Attribute(Attribute { tag: f.name, value: f.value }) })
    } else if kind.value.is_text("POLYLINE") {
        Some(Entity { common, specific: EntityType::Polyline(Polyline { flags: f.flags, vertices: Vec::new() }) })
    } else if kind.value.is_text("VERTEX") {
        Some(Entity { common, specific: EntityType::Vertex(Vertex { location: f.first }) })
    } else if kind.value.is_text("SEQEND") {
        Some(Entity { common, specific: EntityType::Seqend })
    } else {
        None
    }
}

/// Reads the entities of an entities section, in order, up to the `0/ENDSEC`
/// that closes it, which is left in the stream. Each entity opens with a `0`
/// pair that names its type; entities of a type not modelled here are passed
/// over.
pub fn read_raw_entities(s: &mut CodePairStream) -> (r: Result<Vec<Entity>, DxfError>)
    ensures
        read_step(old(s)@, final(s)@, r),
        final(s)@ == raw_read(old(s)@, Seq::empty()).1,
        r is Ok ==> final(s)@.len() > 0 && is_marker(final(s)@[0], "ENDSEC"@),
        match raw_read(old(s)@, Seq::empty()).0 {
            Ok(list) => r matches Ok(v) && entities_match(v@, list),
            Err(e) => r matches Err(e2) && same_error(e2, e),
        },
{
    let ghost start = s@;
    let mut out: Vec<Entity> = Vec::new();
    let ghost mut acc: Seq<(CodePairValue, EntityFields)> = Seq::empty();
    proof {
        lemma_suffix_refl(start);
    }
    loop
        invariant
            start == old(s)@,
            suffix_of(start, s@),
            raw_read(start, Seq::empty()) == raw_read(s@, acc),
            entities_match(out@, acc),
        decreases s@.len(),
    {
        let ghost before = s@;
        proof {
            if before.len() > 0 {
                lemma_suffix_next(start, before);
            }
        }
        let kind = match s.next() {
            Some(p) => p,
            None => return Err(DxfError::UnexpectedEndOfInput),
        };
        if kind.is_marker("ENDSEC") {
            s.put_back(kind);
            assert(s@ =~= before);
            return Ok(out);
        }
        if kind.code != 0 {
            return Err(DxfError::UnexpectedCodePair(kind, String::from_str("expected 0/<entity>")));
        }
        let ghost body = s@;
        let mut f = Fields {
            handle: 0,
            layer: String::from_str("0"),
            name: String::new(),
            value: String::new(),
            first: origin(),
            second: origin(),
            flags: 0,
            has_attributes: false,
        };
        assert(fields_view(f) == default_fields()) by {
            assert(f.name@ =~= Seq::<char>::empty());
            assert(f.value@ =~= Seq::<char>::empty());
        }
        loop
            invariant
                start == old(s)@,
                suffix_of(start, s@),
                s@.len() < before.len(),
                fields_read(body, default_fields()) == fields_read(s@, fields_view(f)),
                raw_read(start, Seq::empty()) == raw_read(before, acc),
                before.len() > 0 && before[0] == kind && kind.code == 0 && !is_marker(kind, "ENDSEC"@),
                body == before.skip(1),
            ensures
                start == old(s)@,
                suffix_of(start, s@),
                s@.len() < before.len(),
                fields_read(body, default_fields()) == (Ok::<EntityFields, DxfError>(fields_view(f)), s@),
                raw_read(start, Seq::empty()) == raw_read(before, acc),
                before.len() > 0 && before[0] == kind && kind.code == 0 && !is_marker(kind, "ENDSEC"@),
                body == before.skip(1),
            decreases s@.len(),
        {
            let ghost mid = s@;
            proof {
                if mid.len() > 0 {
                    lemma_suffix_next(start, mid);
                }
            }
            let q = match s.next() {
                Some(q) => q,
                None => break,
            };
            if q.code == 0 {
                s.put_back(q);
                assert(s@ =~= mid);
                break;
            }
            assert(mid.skip(1) == s@);
            match apply_field(&mut f, &q) {
                Ok(()) => {},
                Err(e) => {
                    assert(stopped_at(start, s@, q));
                    assert(error_in_place(start, s@, e));
                    return Err(e);
                },
            }
        }
        let ghost fv = fields_view(f);
        let ghost known = known_kind(kind.value);
        let ghost out0 = out@;
        match build_entity(&kind, f) {
            Some(e) => {
                out.push(e);
            },
            None => {},
        }
        proof {
            let new_acc = if known { acc.push((kind.value, fv)) } else { acc };
            assert(entities_match(out@, new_acc)) by {
                if known {
                    assert forall|i: int| 0 <= i < out@.len() implies entity_matches(
                        #[trigger] out@[i],
                        new_acc[i].0,
                        new_acc[i].1,
                    ) by {
                        if i < acc.len() {
                            assert(out@[i] == out0[i]);
                        }
                    }
                }
            }
            acc = new_acc;
        }
    }
}

/// The three pairs of a point: group codes `code`, `code + 10`, `code + 20`.
pub open spec fn point_pairs(code: i32, p: Point) -> Seq<CodePair> {
    seq![
        CodePair { code, value: CodePairValue::Double(p.x), offset: 0 },
        CodePair { code: (code + 10) as i32, value: CodePairValue::Double(p.y), offset: 0 },
        CodePair { code: (code + 20) as i32, value: CodePairValue::Double(p.z), offset: 0 },
    ]
}

/// The number of pairs that open an entity: its kind, its handle where
/// handles are written, and its layer.
pub open spec fn common_len(write_handles: bool) -> int {
    if write_handles { 3 } else { 2 }
}

/// `ps` open an entity of kind `kind`: `0/<kind>`, the handle in hexadecimal
/// under code 5 where handles are written, and the layer under code 8.
pub open spec fn common_written(kind: Seq<char>, c: EntityCommon, write_handles: bool, ps: Seq<CodePair>) -> bool {
    &&& ps.len() == common_len(write_handles)
    &&& is_marker(ps[0], kind) && ps[0].offset == 0
    &&& write_handles ==> ps[1].code == 5 && ps[1].offset == 0 && is_text(ps[1].value, hex_text(c.handle as nat))
    &&& ps.last() == (CodePair { code: 8, value: CodePairValue::Str(c.layer), offset: 0 })
}

/// `ps` are the pairs of an attribute written under the common fields `c`.
pub open spec fn attribute_written(c: EntityCommon, write_handles: bool, a: Attribute, ps: Seq<CodePair>) -> bool {
    let n = common_len(write_handles);
    &&& ps.len() == n + 2
    &&& common_written("ATTRIB"@, c, write_handles, ps.take(n))
    &&& ps.skip(n) == seq![
        CodePair { code: 2, value: CodePairValue::Str(a.tag), offset: 0 },
        CodePair { code: 1, value: CodePairValue::Str(a.value), offset: 0 },
    ]
}

/// `ps` are the pairs of a vertex written under the common fields `c`.
pub open spec fn vertex_written(c: EntityCommon, write_handles: bool, v: Vertex, ps: Seq<CodePair>) -> bool {
    let n = common_len(write_handles);
    &&& ps.len() == n + 3
    &&& common_written("VERTEX"@, c, write_handles, ps.take(n))
    &&& ps.skip(n) == point_pairs(10, v.location)
}

/// `ps` are `k` blocks of `w` pairs each, block `i` written for child `i`,
/// then (where `seqend`) a sequence end under `c`.
pub open spec fn children_written(
    c: EntityCommon,
    write_handles: bool,
    attrs: Seq<Attribute>,
    verts: Seq<Vertex>,
    is_insert: bool,
    seqend: bool,
    ps: Seq<CodePair>,
) -> bool {
    let w = if is_insert { common_len(write_handles) + 2 } else { common_len(write_handles) + 3 };
    let k = if is_insert { attrs.len() as int } else { verts.len() as int };
    &&& ps.len() == k * w + if seqend { common_len(write_handles) } else { 0 }
    &&& forall|i: int|
        0 <= i < k ==> if is_insert {
            attribute_written(c, write_handles, attrs[i], #[trigger] ps.subrange(i * w, i * w + w))
        } else {
            vertex_written(c, write_handles, verts[i], ps.subrange(i * w, i * w + w))
        }
    &&& seqend ==> common_written("SEQEND"@, c, write_handles, ps.skip(k * w))
}

/// The pairs of an insert's own fields: its block name, its location, and
/// `66/1` where it has attributes.
pub open spec fn insert_head(i: Insert) -> Seq<CodePair> {
    seq![CodePair { code: 2, value: CodePairValue::Str(i.name), offset: 0 }] + point_pairs(10, i.location)
        + if i.has_attributes {
        seq![CodePair { code: 66, value: CodePairValue::Short(1), offset: 0 }]
    } else {
        Seq::empty()
    }
}

/// `body` follows the opening pairs of an insert: its own fields, then (where
/// it has attributes) its attributes and a sequence end.
pub open spec fn insert_body_written(c: EntityCommon, write_handles: bool, i: Insert, body: Seq<CodePair>) -> bool {
    &&& body.len() >= insert_head(i).len()
    &&& body.take(insert_head(i).len() as int) == insert_head(i)
    &&& children_written(c, write_handles, i.attributes@, Seq::empty(), true, i.has_attributes, body.skip(insert_head(i).len() as int))
}

/// `body` follows the opening pairs of a polyline: its flags, its vertices
/// and a sequence end.
pub open spec fn polyline_body_written(c: EntityCommon, write_handles: bool, p: Polyline, body: Seq<CodePair>) -> bool {
    &&& body.len() >= 1
    &&& body[0] == (CodePair { code: 70, value: CodePairValue::Short(p.flags), offset: 0 })
    &&& children_written(c, write_handles, Seq::empty(), p.vertices@, false, true, body.skip(1))
}

/// `ps` are the pairs written for `e`: its opening pairs, then its own fields;
/// an insert that has attributes writes them and a sequence end after its
/// fields, a polyline its vertices and a sequence end.
pub open spec fn entity_written(e: Entity, write_handles: bool, ps: Seq<CodePair>) -> bool {
    let n = common_len(write_handles);
    let body = ps.skip(n);
    &&& ps.len() >= n
    &&& common_written(kind_name(e.specific), e.common, write_handles, ps.take(n))
    &&& match e.specific {
        EntityType::Line(l) => body == point_pairs(10, l.p1) + point_pairs(11, l.p2),
        EntityType::Insert(i) => insert_body_written(e.common, write_handles, i, body),
        EntityType::Attribute(a) => body == seq![
            CodePair { code: 2, value: CodePairValue::Str(a.tag), offset: 0 },
            CodePair { code: 1, value: CodePairValue::Str(a.value), offset: 0 },
        ],
        EntityType::Polyline(p) => polyline_body_written(e.common, write_handles, p, body),
        EntityType::Vertex(v) => body == point_pairs(10, v.location),
        EntityType::Seqend => body.len() == 0,
    }
}

/// Appends a point as three pairs with group codes `code`, `code + 10` and
/// `code + 20`.
fn write_point(out: &mut Vec<CodePair>, code: i32, p: &Point)
    requires
        0 <= code < 1000,
    ensures
        final(out)@ == old(out)@ + point_pairs(code, *p),
        final(out)@ == old(out)@ + seq![
            CodePair { code, value: CodePairValue::Double(p.x), offset: 0 },
            CodePair { code: (code + 10) as i32, value: CodePairValue::Double(p.y), offset: 0 },
            CodePair { code: (code + 20) as i32, value: CodePairValue::Double(p.z), offset: 0 },
        ],
{
    let ghost start = out@;
    out.push(CodePair::new_double(code, p.x));
    out.push(CodePair::new_double(code + 10, p.y));
    out.push(CodePair::new_double(code + 20, p.z));
    assert(out@ =~= start + seq![
        CodePair { code, value: CodePairValue::Double(p.x), offset: 0 },
        CodePair { code: (code + 10) as i32, value: CodePairValue::Double(p.y), offset: 0 },
        CodePair { code: (code + 20) as i32, value: CodePairValue::Double(p.z), offset: 0 },
    ]);
}

fn write_common(out: &mut Vec<CodePair>, kind: &str, common: &EntityCommon, write_handles: bool)
    ensures
        extends(old(out)@, final(out)@),
        final(out)@.len() > old(out)@.len(),
        is_marker(final(out)@[old(out)@.len() as int], kind@),
        common_written(kind@, *common, write_handles, final(out)@.skip(old(out)@.len() as int)),
{
    let ghost start = out@;
    out.push(CodePair::new_str(0, kind));
    if write_handles {
        out.push(CodePair::new_string(5, handle_text(common.handle)));
    }
    out.push(CodePair::new_string(8, common.layer.clone()));
    assert(out@.take(start.len() as int) =~= start);
    let ghost ps = out@.skip(start.len() as int);
    assert(ps[0] == out@[start.len() as int]);
    if write_handles {
        assert(ps[1] == out@[start.len() as int + 1]);
    }
}

/// The name that opens an entity of the given kind.
pub open spec fn kind_name(t: EntityType) -> Seq<char> {
    match t {
        EntityType::Line(_) => "LINE"@,
        EntityType::Insert(_) => "INSERT"@,
        EntityType::Attribute(_) => "ATTRIB"@,
        EntityType::Polyline(_) => "POLYLINE"@,
        EntityType::Vertex(_) => "VERTEX"@,
        EntityType::Seqend => "SEQEND"@,
    }
}

/// Appends an insert's own fields, and its attributes and a sequence end
/// where it has attributes.
fn write_insert_body(out: &mut Vec<CodePair>, c: &EntityCommon, ins: &Insert, write_handles: bool)
    ensures
        extends(old(out)@, final(out)@),
        insert_body_written(*c, write_handles, *ins, final(out)@.skip(old(out)@.len() as int)),
{
    let ghost head = out@;
    let ghost start = out@;
    let ghost n = common_len(write_handles);
    out.push(CodePair::new_string(2, ins.name.clone()));
    write_point(out, 10, &ins.location);
    if ins.has_attributes {
        out.push(CodePair::new_i16(66, 1));
    }
    let ghost hstart = out@.len() as int;
    let ghost w = n + 2;
    let ghost at_children = out@;
    let ghost hd = seq![CodePair { code: 2, value: CodePairValue::Str(ins.name), offset: 0 }]
        + point_pairs(10, ins.location) + if ins.has_attributes {
        seq![CodePair { code: 66, value: CodePairValue::Short(1), offset: 0 }]
    } else {
        Seq::<CodePair>::empty()
    };
    assert(at_children =~= head + hd);
    proof {
        crate::reading::lemma_extends_refl(at_children);
    }
    let mut i: usize = 0;
    while i < ins.attributes.len()
        invariant
            extends(head, out@),
            extends(at_children, out@),
            hstart == at_children.len(),
            w == common_len(write_handles) + 2,
            n == common_len(write_handles),
            i <= ins.attributes.len(),
            out@.len() == hstart + i * w,
            forall|k: int|
                0 <= k < i ==> attribute_written(
                    *c,
                    write_handles,
                    ins.attributes@[k],
                    #[trigger] out@.subrange(hstart + k * w, hstart + k * w + w),
                ),
        decreases ins.attributes.len() - i,
    {
        let ghost pre = out@;
        let a = &ins.attributes[i];
        write_common(out, "ATTRIB", c, write_handles);
        let ghost mid = out@;
        out.push(CodePair::new_string(2, a.tag.clone()));
        out.push(CodePair::new_string(1, a.value.clone()));
        proof {
            assert(mid.len() == pre.len() + n);
            reveal_strlit("ATTRIB");
            assert(hstart + (i + 1) * w == hstart + i * w + w) by (nonlinear_arith);
            let blk = out@.subrange(pre.len() as int, out@.len() as int);
            assert(blk.take(n) =~= mid.skip(pre.len() as int));
            assert(blk.skip(n) =~= seq![
                CodePair { code: 2, value: CodePairValue::Str(a.tag), offset: 0 },
                CodePair { code: 1, value: CodePairValue::Str(a.value), offset: 0 },
            ]);
            assert(attribute_written(*c, write_handles, ins.attributes@[i as int], blk));
            assert forall|k: int| 0 <= k < i + 1 implies attribute_written(
                *c,
                write_handles,
                ins.attributes@[k],
                #[trigger] out@.subrange(hstart + k * w, hstart + k * w + w),
            ) by {
                if k < i {
                    assert(hstart + k * w + w <= hstart + i * w) by (nonlinear_arith)
                        requires k < i, w >= 0;
                    assert(out@.subrange(hstart + k * w, hstart + k * w + w) =~= pre.subrange(
                        hstart + k * w,
                        hstart + k * w + w,
                    ));
                } else {
                    assert(k == i);
                }
            }
        }
        i = i + 1;
    }
    let ghost before_seqend = out@;
    if ins.has_attributes {
        write_common(out, "SEQEND", c, write_handles);
    }
    proof {
        reveal_strlit("SEQEND");
        let body = out@.skip(start.len() as int);
        assert(before_seqend.take(hstart) == at_children);
        assert(at_children.skip(head.len() as int) =~= hd);
        assert(hstart == head.len() + hd.len());
        assert(out@.take(hstart) == at_children);
        assert(body.take(hd.len() as int) =~= at_children.skip(head.len() as int));
        let ch = body.skip(hd.len() as int);
        assert(ch =~= out@.skip(hstart));
        let k = ins.attributes@.len() as int;
        assert forall|j: int| 0 <= j < k implies attribute_written(
            *c,
            write_handles,
            ins.attributes@[j],
            #[trigger] ch.subrange(j * w, j * w + w),
        ) by {
            assert(j * w + w <= k * w) by (nonlinear_arith)
                requires j < k, w >= 0;
            assert(ch.subrange(j * w, j * w + w) =~= before_seqend.subrange(hstart + j * w, hstart + j * w + w));
        }
        if ins.has_attributes {
            assert(ch.skip(k * w) =~= out@.skip(before_seqend.len() as int));
        }
        assert(children_written(*c, write_handles, ins.attributes@, Seq::empty(), true, ins.has_attributes, ch));
        assert(hd == insert_head(*ins));
    }
    proof {
    crate::reading::lemma_extends_refl(head);
    }
}

/// Appends a polyline's flags, its vertices and a sequence end.
fn write_polyline_body(out: &mut Vec<CodePair>, c: &EntityCommon, p: &Polyline, write_handles: bool)
    ensures
        extends(old(out)@, final(out)@),
        polyline_body_written(*c, write_handles, *p, final(out)@.skip(old(out)@.len() as int)),
{
    let ghost head = out@;
    let ghost start = out@;
    let ghost n = common_len(write_handles);
    out.push(CodePair::new_i16(70, p.flags));
    let ghost hstart = out@.len() as int;
    let ghost w = n + 3;
    let ghost at_children = out@;
    assert(at_children =~= head.push(CodePair { code: 70, value: CodePairValue::Short(p.flags), offset: 0 }));
    proof {
        crate::reading::lemma_extends_refl(at_children);
    }
    let mut i: usize = 0;
    while i < p.vertices.len()
        invariant
            extends(head, out@),
            extends(at_children, out@),
            hstart == at_children.len(),
            w == common_len(write_handles) + 3,
            n == common_len(write_handles),
            i <= p.vertices.len(),
            out@.len() == hstart + i * w,
            forall|k: int|
                0 <= k < i ==> vertex_written(
                    *c,
                    write_handles,
                    p.vertices@[k],
                    #[trigger] out@.subrange(hstart + k * w, hstart + k * w + w),
                ),
        decreases p.vertices.len() - i,
    {
        let ghost pre = out@;
        write_common(out, "VERTEX", c, write_handles);
        let ghost mid = out@;
        write_point(out, 10, &p.vertices[i].location);
        proof {
            assert(mid.len() == pre.len() + n);
            reveal_strlit("VERTEX");
            assert(hstart + (i + 1) * w == hstart + i * w + w) by (nonlinear_arith);
            let blk = out@.subrange(pre.len() as int, out@.len() as int);
            assert(blk.take(n) =~= mid.skip(pre.len() as int));
            assert(blk.skip(n) =~= point_pairs(10, p.vertices@[i as int].location));
            assert forall|k: int| 0 <= k < i + 1 implies vertex_written(
                *c,
                write_handles,
                p.vertices@[k],
                #[trigger] out@.subrange(hstart + k * w, hstart + k * w + w),
            ) by {
                if k < i {
                    assert(hstart + k * w + w <= hstart + i * w) by (nonlinear_arith)
                        requires k < i, w >= 0;
                    assert(out@.subrange(hstart + k * w, hstart + k * w + w) =~= pre.subrange(
                        hstart + k * w,
                        hstart + k * w + w,
                    ));
                } else {
                    assert(k == i);
                }
            }
        }
        i = i + 1;
    }
    let ghost before_seqend = out@;
    write_common(out, "SEQEND", c, write_handles);
    proof {
        reveal_strlit("SEQEND");
        let body = out@.skip(start.len() as int);
        assert(out@.take(hstart) == at_children);
        assert(body[0] == out@[start.len() as int]);
        assert(at_children[start.len() as int] == (CodePair { code: 70, value: CodePairValue::Short(p.flags), offset: 0 }));
        let ch = body.skip(1);
        assert(ch =~= out@.skip(hstart));
        let k = p.vertices@.len() as int;
        assert forall|j: int| 0 <= j < k implies vertex_written(
            *c,
            write_handles,
            p.vertices@[j],
            #[trigger] ch.subrange(j * w, j * w + w),
        ) by {
            assert(j * w + w <= k * w) by (nonlinear_arith)
                requires j < k, w >= 0;
            assert(ch.subrange(j * w, j * w + w) =~= before_seqend.subrange(hstart + j * w, hstart + j * w + w));
        }
        assert(ch.skip(k * w) =~= out@.skip(before_seqend.len() as int));
        assert(children_written(*c, write_handles, Seq::empty(), p.vertices@, false, true, ch));
    }
    proof {
    crate::reading::lemma_extends_refl(head);
    }
}

/// The name that opens an entity of the given kind.
fn kind_text(t: &EntityType) -> (r: &'static str)
    ensures
        r@ == kind_name(*t),
{
    proof {
        reveal_strlit("LINE");
        reveal_strlit("INSERT");
        reveal_strlit("ATTRIB");
        reveal_strlit("POLYLINE");
        reveal_strlit("VERTEX");
        reveal_strlit("SEQEND");
    }
    match t {
        EntityType::Line(_) => "LINE",
        EntityType::Insert(_) => "INSERT",
        EntityType::Attribute(_) => "ATTRIB",
        EntityType::Polyline(_) => "POLYLINE",
        EntityType::Vertex(_) => "VERTEX",
        EntityType::Seqend => "SEQEND",
    }
}

/// Appends the pairs of an entity: its type, its handle where handles are
/// written, its layer and its own fields. An insert with attributes and a
/// polyline write their children after them, then a sequence end.
pub fn write_entity(out: &mut Vec<CodePair>, e: &Entity, write_handles: bool)
    ensures
        extends(old(out)@, final(out)@),
        final(out)@.len() > old(out)@.len(),
        is_marker(final(out)@[old(out)@.len() as int], kind_name(e.specific)),
        entity_written(*e, write_handles, final(out)@.skip(old(out)@.len() as int)),
{
    let ghost start = out@;
    let ghost n = common_len(write_handles);
    write_common(out, kind_text(&e.specific), &e.common, write_handles);
    let ghost head = out@;
    assert(head.len() == start.len() + n);
    match &e.specific {
        EntityType::Line(l) => {
            write_point(out, 10, &l.p1);
            write_point(out, 11, &l.p2);
            assert(out@.skip(head.len() as int) =~= point_pairs(10, l.p1) + point_pairs(11, l.p2));
        },
        EntityType::Insert(ins) => {
            write_insert_body(out, &e.common, ins, write_handles);
        },
        EntityType::Attribute(a) => {
            out.push(CodePair::new_string(2, a.tag.clone()));
            out.push(CodePair::new_string(1, a.value.clone()));
            assert(out@.skip(head.len() as int) =~= seq![
                CodePair { code: 2, value: CodePairValue::Str(a.tag), offset: 0 },
                CodePair { code: 1, value: CodePairValue::Str(a.value), offset: 0 },
            ]);
        },
        EntityType::Polyline(p) => {
            write_polyline_body(out, &e.common, p, write_handles);
        },
        EntityType::Vertex(v) => {
            write_point(out, 10, &v.location);
            assert(out@.skip(head.len() as int) =~= point_pairs(10, v.location));
        },
        EntityType::Seqend => {
            assert(out@.skip(head.len() as int) =~= Seq::<CodePair>::empty());
        },
    }
    proof {
        crate::reading::lemma_extends_refl(head);
        let ps = out@.skip(start.len() as int);
        assert(ps.take(n) =~= head.skip(start.len() as int));
        assert(ps.skip(n) =~= out@.skip(head.len() as int));
    }
    assert(extends(head, out@));
    assert(out@[start.len() as int] == out@.take(head.len() as int)[start.len() as int]);
}

} // verus!
