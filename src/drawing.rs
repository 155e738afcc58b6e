//! A drawing, and the section reader and writer that load and save it.
use vstd::prelude::*;
use vstd::string::StringExecFns;

use crate::entities::fold_entities;
use crate::entities::Entity;
use crate::entity_io::read_raw_entities;
use crate::entity_io::write_entity;
use crate::entity_io::entity_written;
use crate::entity_io::raw_read;
use crate::entity_io::entities_match;
use crate::entity_io::EntityFields;
use crate::entities::folds_to;
use crate::value::CodePairValue;
use crate::reading::same_error;
use crate::reading::bad_pair;
use crate::header::version_rank;
use crate::header::AcadVersion;
use crate::header::Header;
use crate::header::header_read;
use crate::header::header_written;
use crate::reading::error_in_place;
use crate::reading::extends;
use crate::reading::lemma_read_step_chain;
use crate::reading::lemma_suffix_next;
use crate::reading::lemma_suffix_refl;
use crate::reading::read_step;
use crate::reading::suffix_of;
use crate::stream::CodePairStream;
use crate::value::handle_text;
use crate::value::is_marker;
use crate::value::is_text;
use crate::value::hex_number;
use crate::value::CodePair;
use crate::value::DxfError;

verus! {

broadcast use {
    crate::reading::lemma_extends_trans,
    crate::reading::lemma_extends_push,
    crate::reading::lemma_extends_concat,
};

/// A layer of the drawing.
#[derive(Clone, Debug, PartialEq)]
pub struct Layer {
    pub name: String,
    pub handle: u32,
}

/// A drawing: its header, its entities and its layers.
#[derive(Clone, Debug, PartialEq)]
pub struct Drawing {
    pub header: Header,
    pub entities: Vec<Entity>,
    pub layers: Vec<Layer>,
}

/// The index of the first pair of `s` that is the marker `text`, or the length
/// of `s` where there is none.
pub open spec fn marker_index(s: Seq<CodePair>, text: Seq<char>) -> nat
    decreases s.len(),
{
    if s.len() == 0 {
        0
    } else if is_marker(s[0], text) {
        0
    } else {
        1 + marker_index(s.skip(1), text)
    }
}

proof fn lemma_marker_index_len(s: Seq<CodePair>, text: Seq<char>)
    ensures
        marker_index(s, text) <= s.len(),
    decreases s.len(),
{
    if s.len() > 0 {
        lemma_marker_index_len(s.skip(1), text);
    }
}

/// The state of a new drawing: the default header, no layers, no entities.
pub open spec fn default_state() -> SectionsState {
    SectionsState { version: AcadVersion::R2018, handles: true, layers: Seq::empty(), lists: Seq::empty() }
}

/// `after` is `before` with the entities appended that folding the entities
/// read as `list` gives.
pub open spec fn entities_appended(
    before: Seq<Entity>,
    after: Seq<Entity>,
    list: Seq<(CodePairValue, EntityFields)>,
) -> bool {
    &&& after.len() >= before.len()
    &&& after.take(before.len() as int) == before
    &&& exists|raw: Seq<Entity>| entities_match(raw, list) && folds_to(raw, after.skip(before.len() as int))
}

/// `ps` are the pairs of a layer entry: `0/LAYER`, the handle under code 5
/// where handles are written, and the name under code 2.
pub open spec fn layer_written(l: Layer, write_handles: bool, ps: Seq<CodePair>) -> bool {
    &&& ps.len() == if write_handles { 3int } else { 2int }
    &&& is_marker(ps[0], "LAYER"@)
    &&& write_handles ==> ps[1].code == 5 && is_text(ps[1].value, crate::value::hex_text(l.handle as nat))
    &&& ps.last() == (CodePair { code: 2, value: CodePairValue::Str(l.name), offset: 0 })
}

/// `ps` are the entries written for `ls`, one after another.
pub open spec fn layers_written(ls: Seq<Layer>, write_handles: bool, ps: Seq<CodePair>) -> bool
    decreases ls.len(),
{
    if ls.len() == 0 {
        ps.len() == 0
    } else {
        exists|k: int|
            0 <= k <= ps.len() && layers_written(ls.drop_last(), write_handles, #[trigger] ps.take(k))
                && layer_written(ls.last(), write_handles, ps.skip(k))
    }
}

/// `ps` is the tables section written for the layers `ls`: `0/SECTION`,
/// `2/TABLES`, `0/TABLE`, `2/LAYER`, the entries, `0/ENDTAB`, `0/ENDSEC`.
pub open spec fn tables_written(ls: Seq<Layer>, write_handles: bool, ps: Seq<CodePair>) -> bool {
    &&& ps.len() >= 6
    &&& is_marker(ps[0], "SECTION"@) && ps[1].code == 2 && is_text(ps[1].value, "TABLES"@)
    &&& is_marker(ps[2], "TABLE"@) && ps[3].code == 2 && is_text(ps[3].value, "LAYER"@)
    &&& layers_written(ls, write_handles, ps.subrange(4, ps.len() - 2))
    &&& is_marker(ps[ps.len() - 2], "ENDTAB"@) && is_marker(ps.last(), "ENDSEC"@)
}

/// `ps` are the pairs written for the entities `es`, one after another.
pub open spec fn entities_written(es: Seq<Entity>, write_handles: bool, ps: Seq<CodePair>) -> bool
    decreases es.len(),
{
    if es.len() == 0 {
        ps.len() == 0
    } else {
        exists|k: int|
            0 <= k <= ps.len() && entities_written(es.drop_last(), write_handles, #[trigger] ps.take(k))
                && entity_written(es.last(), write_handles, ps.skip(k))
    }
}

/// `ps` is the entities section written for `es`: `0/SECTION`, `2/ENTITIES`,
/// the entities, `0/ENDSEC`.
pub open spec fn entities_section_written(es: Seq<Entity>, write_handles: bool, ps: Seq<CodePair>) -> bool {
    &&& ps.len() >= 3
    &&& is_marker(ps[0], "SECTION"@) && ps[1].code == 2 && is_text(ps[1].value, "ENTITIES"@)
    &&& entities_written(es, write_handles, ps.subrange(2, ps.len() - 1))
    &&& is_marker(ps.last(), "ENDSEC"@)
}

/// Whether every entity read as `list` is a line, an insert or a polyline:
/// none is an attribute, a vertex or a sequence end, which the folder takes
/// into a parent or drops.
pub open spec fn settled_list(list: Seq<(CodePairValue, EntityFields)>) -> bool {
    forall|i: int|
        0 <= i < list.len() ==> is_text(#[trigger] list[i].0, "LINE"@) || is_text(list[i].0, "INSERT"@)
            || is_text(list[i].0, "POLYLINE"@)
}

proof fn lemma_settled_kind(e: Entity, kind: CodePairValue, f: EntityFields)
    requires
        crate::entity_io::entity_matches(e, kind, f),
        is_text(kind, "LINE"@) || is_text(kind, "INSERT"@) || is_text(kind, "POLYLINE"@),
    ensures
        !(e.specific is Attribute) && !(e.specific is Vertex) && !(e.specific is Seqend),
{
    reveal_strlit("LINE");
    reveal_strlit("INSERT");
    reveal_strlit("ATTRIB");
    reveal_strlit("POLYLINE");
    reveal_strlit("VERTEX");
    reveal_strlit("SEQEND");
    assert("LINE"@ != "INSERT"@ && "LINE"@ != "POLYLINE"@ && "INSERT"@ != "POLYLINE"@) by {
        assert("LINE"@.len() != "INSERT"@.len());
        assert("LINE"@.len() != "POLYLINE"@.len());
        assert("INSERT"@.len() != "POLYLINE"@.len());
    }
    assert("ATTRIB"@ != "LINE"@ && "ATTRIB"@ != "INSERT"@ && "ATTRIB"@ != "POLYLINE"@) by {
        assert("ATTRIB"@.len() != "LINE"@.len());
        assert("ATTRIB"@[0] != "INSERT"@[0]);
        assert("ATTRIB"@.len() != "POLYLINE"@.len());
    }
}

proof fn lemma_fold_settled_matches(
    raw: Seq<Entity>,
    out: Seq<Entity>,
    list: Seq<(CodePairValue, EntityFields)>,
)
    requires
        entities_match(raw, list),
        folds_to(raw, out),
        settled_list(list),
    ensures
        entities_match(out, list),
    decreases raw.len(),
{
    if raw.len() > 0 {
        let rest = raw.skip(1);
        let lrest = list.skip(1);
        assert(entities_match(rest, lrest)) by {
            assert forall|i: int| 0 <= i < rest.len() implies crate::entity_io::entity_matches(
                #[trigger] rest[i],
                lrest[i].0,
                lrest[i].1,
            ) by {
                assert(rest[i] == raw[i + 1]);
                assert(lrest[i] == list[i + 1]);
            }
        }
        assert(settled_list(lrest)) by {
            assert forall|i: int| 0 <= i < lrest.len() implies is_text(#[trigger] lrest[i].0, "LINE"@)
                || is_text(lrest[i].0, "INSERT"@) || is_text(lrest[i].0, "POLYLINE"@) by {
                assert(lrest[i] == list[i + 1]);
            }
        }
        assert(crate::entity_io::entity_matches(raw[0], list[0].0, list[0].1));
        lemma_settled_kind(raw[0], list[0].0, list[0].1);
        if rest.len() > 0 {
            assert(crate::entity_io::entity_matches(rest[0], lrest[0].0, lrest[0].1));
            lemma_settled_kind(rest[0], lrest[0].0, lrest[0].1);
        }
        assert(crate::entities::attribute_run(rest) == 0);
        assert(crate::entities::vertex_run(rest) == 0);
        assert(raw.skip(1int + 0int) == rest);
        assert(crate::entities::skip_seqend(rest) == rest);
        assert(!(raw[0].specific is Seqend));
        lemma_fold_settled_matches(rest, out.skip(1), lrest);
        assert(crate::entity_io::entity_matches(out[0], list[0].0, list[0].1));
        assert forall|i: int| 0 <= i < out.len() implies crate::entity_io::entity_matches(
            #[trigger] out[i],
            list[i].0,
            list[i].1,
        ) by {
            if i > 0 {
                assert(out[i] == out.skip(1)[i - 1]);
                assert(list[i] == lrest[i - 1]);
            }
        }
    } else {
        assert(out.len() == 0);
    }
}

/// Folding entities as read leaves them as they are where none of them is an
/// attribute, a vertex or a sequence end: the entities appended are the
/// entities read, one for one.
pub proof fn lemma_settled_entities_unchanged(
    before: Seq<Entity>,
    after: Seq<Entity>,
    list: Seq<(CodePairValue, EntityFields)>,
)
    requires
        entities_appended(before, after, list),
        settled_list(list),
    ensures
        entities_match(after.skip(before.len() as int), list),
{
    let raw = choose|raw: Seq<Entity>| entities_match(raw, list) && folds_to(raw, after.skip(before.len() as int));
    lemma_fold_settled_matches(raw, after.skip(before.len() as int), list);
}

/// The markers at which a skipped table stops: `TABLE`, `ENDSEC`, `ENDTAB`.
pub open spec fn is_table_boundary(p: CodePair) -> bool {
    is_marker(p, "TABLE"@) || is_marker(p, "ENDSEC"@) || is_marker(p, "ENDTAB"@)
}

/// The index of the first table boundary in `s`, or the length of `s`.
pub open spec fn boundary_index(s: Seq<CodePair>) -> nat
    decreases s.len(),
{
    if s.len() == 0 {
        0
    } else if is_table_boundary(s[0]) {
        0
    } else {
        1 + boundary_index(s.skip(1))
    }
}

/// Whether saving `d` writes handles: from R13 on, or where its header asks
/// for them.
pub open spec fn handles_written(d: Drawing) -> bool {
    version_rank(d.header.version) >= version_rank(AcadVersion::R13) || d.header.handles_enabled
}

impl Drawing {
    /// A new drawing: the default header, no entities, no layers.
    pub fn new() -> (r: Drawing)
        ensures
            r.header.version == AcadVersion::R2018,
            r.header.handles_enabled,
            r.entities@.len() == 0,
            r.layers@.len() == 0,
    {
        Drawing { header: Header::new(), entities: Vec::new(), layers: Vec::new() }
    }

    /// Passes over the body of a section that is not read, up to the
    /// `0/ENDSEC` that closes it, which is left in the stream, or to the end.
    pub fn swallow_section(s: &mut CodePairStream) -> (r: Result<(), DxfError>)
        ensures
            r is Ok,
            final(s)@ == old(s)@.skip(marker_index(old(s)@, "ENDSEC"@) as int),
    {
        let ghost start = s@;
        let ghost mut i: int = 0;
        assert(start.skip(0) =~= start);
        loop
            invariant
                start == old(s)@,
                0 <= i <= start.len(),
                s@ == start.skip(i),
                marker_index(start, "ENDSEC"@) == i + marker_index(s@, "ENDSEC"@),
            decreases s@.len(),
        {
            let ghost before = s@;
            match s.next() {
                Some(pair) => {
                    if pair.is_marker("ENDSEC") {
                        s.put_back(pair);
                        assert(s@ =~= before);
                        return Ok(());
                    }
                    proof {
                        assert(before.skip(1) =~= start.skip(i + 1));
                        i = i + 1;
                    }
                },
                None => {
                    return Ok(());
                },
            }
        }
    }

    /// Passes over the pairs of a table that is not read, up to the next
    /// `0/TABLE`, `0/ENDSEC` or `0/ENDTAB`, which is left in the stream. The
    /// input may not end first.
    pub fn swallow_table(s: &mut CodePairStream) -> (r: Result<(), DxfError>)
        ensures
            r is Ok <==> boundary_index(old(s)@) < old(s)@.len(),
            r is Ok ==> final(s)@ == old(s)@.skip(boundary_index(old(s)@) as int),
            r matches Err(e) ==> e == DxfError::UnexpectedEndOfInput && final(s)@.len() == 0,
    {
        let ghost start = s@;
        let ghost mut i: int = 0;
        assert(start.skip(0) =~= start);
        loop
            invariant
                start == old(s)@,
                0 <= i <= start.len(),
                s@ == start.skip(i),
                boundary_index(start) == i + boundary_index(s@),
            decreases s@.len(),
        {
            let ghost before = s@;
            match s.next() {
                Some(pair) => {
                    if pair.is_marker("TABLE") || pair.is_marker("ENDSEC") || pair.is_marker("ENDTAB") {
                        s.put_back(pair);
                        assert(s@ =~= before);
                        return Ok(());
                    }
                    proof {
                        assert(before.skip(1) =~= start.skip(i + 1));
                        i = i + 1;
                    }
                },
                None => {
                    return Err(DxfError::UnexpectedEndOfInput);
                },
            }
        }
    }
}

/// A layer by its values: name and handle.
pub open spec fn layer_view(l: Layer) -> (Seq<char>, u32) {
    (l.name@, l.handle)
}

/// The layers of a drawing by their values.
pub open spec fn layers_view(v: Seq<Layer>) -> Seq<(Seq<char>, u32)> {
    Seq::new(v.len(), |i: int| layer_view(v[i]))
}

/// What reading the fields of a layer entry gives, up to the next `0` pair
/// (left in place) or the end: the name from `2`, the handle from `5`; other
/// pairs are passed over.
pub open spec fn layer_read(ps: Seq<CodePair>, name: Seq<char>, handle: u32) -> (Result<(Seq<char>, u32), DxfError>, Seq<CodePair>)
    decreases ps.len(),
{
    if ps.len() == 0 || ps[0].code == 0 {
        (Ok((name, handle)), ps)
    } else if ps[0].code == 2 {
        match ps[0].value {
            CodePairValue::Str(t) => layer_read(ps.skip(1), t@, handle),
            _ => (Err(DxfError::WrongValueType(ps[0].code, ps[0].offset)), ps.skip(1)),
        }
    } else if ps[0].code == 5 {
        match ps[0].value {
            CodePairValue::Str(t) => if t@.len() > 0 && (hex_number(t@) matches Some(n) && n <= u32::MAX) {
                layer_read(ps.skip(1), name, hex_number(t@)->0 as u32)
            } else {
                (Err(DxfError::MalformedHandle(ps[0].offset)), ps.skip(1))
            },
            _ => (Err(DxfError::WrongValueType(ps[0].code, ps[0].offset)), ps.skip(1)),
        }
    } else {
        layer_read(ps.skip(1), name, handle)
    }
}

proof fn lemma_layer_read_len(ps: Seq<CodePair>, name: Seq<char>, handle: u32)
    ensures
        layer_read(ps, name, handle).1.len() <= ps.len(),
    decreases ps.len(),
{
    if ps.len() > 0 && ps[0].code != 0 {
        if ps[0].code == 2 {
            if let CodePairValue::Str(t) = ps[0].value {
                lemma_layer_read_len(ps.skip(1), t@, handle);
            }
        } else if ps[0].code == 5 {
            if let CodePairValue::Str(t) = ps[0].value {
                if t@.len() > 0 && (hex_number(t@) matches Some(n) && n <= u32::MAX) {
                    lemma_layer_read_len(ps.skip(1), name, hex_number(t@)->0 as u32);
                }
            }
        } else {
            lemma_layer_read_len(ps.skip(1), name, handle);
        }
    }
}

/// What reading the entries of a layer table gives, after its `2/LAYER`,
/// through its `0/ENDTAB`: the layers after `acc`, each from a `0/LAYER`
/// entry; any other `0` pair is an error, other pairs are passed over.
pub open spec fn layer_table_read(ps: Seq<CodePair>, acc: Seq<(Seq<char>, u32)>) -> (Result<Seq<(Seq<char>, u32)>, DxfError>, Seq<CodePair>)
    decreases ps.len(),
    via layer_table_read_decreases
{
    if ps.len() == 0 {
        (Err(DxfError::UnexpectedEndOfInput), ps)
    } else if is_marker(ps[0], "ENDTAB"@) {
        (Ok(acc), ps.skip(1))
    } else if is_marker(ps[0], "LAYER"@) {
        match layer_read(ps.skip(1), Seq::empty(), 0) {
            (Ok(l), rest) => layer_table_read(rest, acc.push(l)),
            (Err(e), rest) => (Err(e), rest),
        }
    } else if ps[0].code == 0 {
        (Err(bad_pair(ps[0])), ps.skip(1))
    } else {
        layer_table_read(ps.skip(1), acc)
    }
}

#[via_fn]
proof fn layer_table_read_decreases(ps: Seq<CodePair>, acc: Seq<(Seq<char>, u32)>) {
    if ps.len() > 0 {
        lemma_layer_read_len(ps.skip(1), Seq::empty(), 0);
    }
}

proof fn lemma_boundary_index_len(s: Seq<CodePair>)
    ensures
        boundary_index(s) <= s.len(),
    decreases s.len(),
{
    if s.len() > 0 {
        lemma_boundary_index_len(s.skip(1));
    }
}

/// What reading one table gives, after its `0/TABLE`: a `2` pair names it; a
/// layer table adds its layers to `acc`; any other table is passed over to the
/// next table boundary, and through it where that is `0/ENDTAB`.
pub open spec fn table_read(ps: Seq<CodePair>, acc: Seq<(Seq<char>, u32)>) -> (Result<Seq<(Seq<char>, u32)>, DxfError>, Seq<CodePair>) {
    if ps.len() == 0 {
        (Err(DxfError::UnexpectedEndOfInput), ps)
    } else if ps[0].code != 2 {
        (Err(bad_pair(ps[0])), ps.skip(1))
    } else if is_text(ps[0].value, "LAYER"@) {
        layer_table_read(ps.skip(1), acc)
    } else {
        let body = ps.skip(1);
        let k = boundary_index(body);
        if k >= body.len() {
            (Err(DxfError::UnexpectedEndOfInput), Seq::empty())
        } else if is_marker(body[k as int], "ENDTAB"@) {
            (Ok(acc), body.skip(k as int + 1))
        } else {
            (Ok(acc), body.skip(k as int))
        }
    }
}

proof fn lemma_table_read_len(ps: Seq<CodePair>, acc: Seq<(Seq<char>, u32)>)
    ensures
        table_read(ps, acc).1.len() < ps.len() || ps.len() == 0,
{
    if ps.len() > 0 && ps[0].code == 2 {
        if is_text(ps[0].value, "LAYER"@) {
            lemma_layer_table_read_len(ps.skip(1), acc);
        } else {
            lemma_boundary_index_len(ps.skip(1));
        }
    }
}

proof fn lemma_layer_table_read_len(ps: Seq<CodePair>, acc: Seq<(Seq<char>, u32)>)
    ensures
        layer_table_read(ps, acc).1.len() <= ps.len(),
    decreases ps.len(),
{
    if ps.len() > 0 && !is_marker(ps[0], "ENDTAB"@) {
        if is_marker(ps[0], "LAYER"@) {
            lemma_layer_read_len(ps.skip(1), Seq::empty(), 0);
            if let (Ok(l), rest) = layer_read(ps.skip(1), Seq::empty(), 0) {
                lemma_layer_table_read_len(rest, acc.push(l));
            }
        } else if ps[0].code != 0 {
            lemma_layer_table_read_len(ps.skip(1), acc);
        }
    }
}

/// What reading the body of a tables section gives: each `0/TABLE` block in
/// turn, up to `0/ENDSEC` (left in place); the layers read come after `acc`.
/// Any other pair is an error, and the input may not end first.
pub open spec fn tables_read(ps: Seq<CodePair>, acc: Seq<(Seq<char>, u32)>) -> (Result<Seq<(Seq<char>, u32)>, DxfError>, Seq<CodePair>)
    decreases ps.len(),
    via tables_read_decreases
{
    if ps.len() == 0 {
        (Err(DxfError::UnexpectedEndOfInput), ps)
    } else if is_marker(ps[0], "ENDSEC"@) {
        (Ok(acc), ps)
    } else if is_marker(ps[0], "TABLE"@) {
        match table_read(ps.skip(1), acc) {
            (Ok(a), rest) => tables_read(rest, a),
            (Err(e), rest) => (Err(e), rest),
        }
    } else {
        (Err(bad_pair(ps[0])), ps.skip(1))
    }
}

#[via_fn]
proof fn tables_read_decreases(ps: Seq<CodePair>, acc: Seq<(Seq<char>, u32)>) {
    if ps.len() > 0 {
        lemma_table_read_len(ps.skip(1), acc);
    }
}

/// `r` and the layers `after` are the outcome `spec` of a table reader.
pub open spec fn tables_agree(
    r: Result<(), DxfError>,
    after: Seq<Layer>,
    spec: Result<Seq<(Seq<char>, u32)>, DxfError>,
) -> bool {
    match spec {
        Ok(l) => r is Ok && layers_view(after) == l,
        Err(e) => r matches Err(e2) && same_error(e2, e),
    }
}

impl Drawing {
    /// Reads the fields of one layer entry, up to the next `0` pair.
    fn read_layer(s: &mut CodePairStream) -> (r: Result<Layer, DxfError>)
        ensures
            read_step(old(s)@, final(s)@, r),
            final(s)@ == layer_read(old(s)@, Seq::empty(), 0).1,
            match layer_read(old(s)@, Seq::empty(), 0).0 {
                Ok(l) => r matches Ok(x) && layer_view(x) == l,
                Err(e) => r == Err::<Layer, DxfError>(e),
            },
    {
        let ghost start = s@;
        let mut layer = Layer { name: String::new(), handle: 0 };
        proof {
            lemma_suffix_refl(start);
            assert(layer.name@ =~= Seq::<char>::empty());
        }
        loop
            invariant
                start == old(s)@,
                suffix_of(start, s@),
                layer_read(start, Seq::empty(), 0) == layer_read(s@, layer.name@, layer.handle),
            decreases s@.len(),
        {
            let ghost before = s@;
            proof {
                if before.len() > 0 {
                    lemma_suffix_next(start, before);
                }
            }
            let q = match s.next() {
                Some(q) => q,
                None => return Ok(layer),
            };
            if q.code == 0 {
                s.put_back(q);
                assert(s@ =~= before);
                return Ok(layer);
            }
            if q.code == 2 {
                match q.assert_string() {
                    Ok(n) => layer.name = n,
                    Err(e) => {
                        assert(error_in_place(start, s@, e));
                        return Err(e);
                    },
                }
            } else if q.code == 5 {
                match q.as_handle() {
                    Ok(h) => layer.handle = h,
                    Err(e) => {
                        assert(error_in_place(start, s@, e));
                        return Err(e);
                    },
                }
            }
        }
    }

    /// Reads the entries of a layer table, after its `2/LAYER`, through the
    /// `0/ENDTAB` that closes it.
    fn read_layer_table(&mut self, s: &mut CodePairStream) -> (r: Result<(), DxfError>)
        ensures
            read_step(old(s)@, final(s)@, r),
            final(self).header == old(self).header,
            final(self).entities == old(self).entities,
            final(s)@ == layer_table_read(old(s)@, layers_view(old(self).layers@)).1,
            tables_agree(r, final(self).layers@, layer_table_read(old(s)@, layers_view(old(self).layers@)).0),
    {
        let ghost start = s@;
        proof {
            lemma_suffix_refl(start);
        }
        loop
            invariant
                start == old(s)@,
                suffix_of(start, s@),
                self.header == old(self).header,
                self.entities == old(self).entities,
                layer_table_read(start, layers_view(old(self).layers@)) == layer_table_read(
                    s@,
                    layers_view(self.layers@),
                ),
            decreases s@.len(),
        {
            let ghost before = s@;
            proof {
                if before.len() > 0 {
                    lemma_suffix_next(start, before);
                }
            }
            let q = match s.next() {
                Some(q) => q,
                None => return Err(DxfError::UnexpectedEndOfInput),
            };
            if q.is_marker("ENDTAB") {
                return Ok(());
            } else if q.is_marker("LAYER") {
                let ghost mid = s@;
                let r = Drawing::read_layer(s);
                proof {
                    lemma_read_step_chain(start, mid, s@, r);
                }
                match r {
                    Ok(layer) => {
                        let ghost lv = layers_view(self.layers@);
                        self.layers.push(layer);
                        assert(layers_view(self.layers@) =~= lv.push(layer_view(layer)));
                    },
                    Err(e) => return Err(e),
                }
            } else if q.code == 0 {
                return Err(DxfError::UnexpectedCodePair(q, String::from_str("expected 0/LAYER or 0/ENDTAB")));
            } else {
                assert(before.skip(1) == s@);
            }
        }
    }

    /// Reads one table, after its `0/TABLE`: a layer table is read, any other
    /// is passed over through its `0/ENDTAB`.
    #[verifier::rlimit(60)]
    fn read_specific_table(&mut self, s: &mut CodePairStream) -> (r: Result<(), DxfError>)
        ensures
            read_step(old(s)@, final(s)@, r),
            final(self).header == old(self).header,
            final(self).entities == old(self).entities,
            final(s)@ == table_read(old(s)@, layers_view(old(self).layers@)).1,
            tables_agree(r, final(self).layers@, table_read(old(s)@, layers_view(old(self).layers@)).0),
    {
        let ghost start = s@;
        proof {
            lemma_suffix_refl(start);
            if start.len() > 0 {
                lemma_suffix_next(start, start);
            }
        }
        let name = match s.next() {
            Some(q) => q,
            None => return Err(DxfError::UnexpectedEndOfInput),
        };
        if name.code != 2 {
            return Err(DxfError::UnexpectedCodePair(name, String::from_str("expected 2/<table-name>")));
        }
        let ghost mid = s@;
        if name.value.is_text("LAYER") {
            let r = self.read_layer_table(s);
            proof {
                lemma_read_step_chain(start, mid, s@, r);
            }
            r
        } else {
            let r = Drawing::swallow_table(s);
            if r.is_err() {
                proof {
                    lemma_suffix_refl(s@);
                    assert(s@ =~= start.skip(start.len() as int));
                    assert(s@ =~= Seq::<CodePair>::empty());
                }
                return Err(DxfError::UnexpectedEndOfInput);
            }
            let ghost after = s@;
            proof {
                lemma_boundary_index_len(mid);
                assert(layers_view(self.layers@) == layers_view(old(self).layers@));
            }
            assert(suffix_of(start, after)) by {
                assert(after =~= start.skip(start.len() - after.len()));
            }
            match s.next() {
                Some(q) => {
                    if !q.is_marker("ENDTAB") {
                        s.put_back(q);
                        assert(s@ =~= after);
                    } else {
                        assert(mid.skip(boundary_index(mid) as int + 1) =~= after.skip(1));
                    }
                    proof {
                        lemma_suffix_next(start, after);
                    }
                    Ok(())
                },
                None => Ok(()),
            }
        }
    }

    /// Reads the body of a tables section: each `0/TABLE` block in turn, up to
    /// the `0/ENDSEC` that closes the section, which is left in the stream.
    /// The layers of layer tables are appended in order.
    pub fn read_tables(&mut self, s: &mut CodePairStream) -> (r: Result<(), DxfError>)
        ensures
            read_step(old(s)@, final(s)@, r),
            r is Ok ==> final(s)@.len() > 0 && is_marker(final(s)@[0], "ENDSEC"@),
            final(self).header == old(self).header,
            final(self).entities == old(self).entities,
            final(s)@ == tables_read(old(s)@, layers_view(old(self).layers@)).1,
            tables_agree(r, final(self).layers@, tables_read(old(s)@, layers_view(old(self).layers@)).0),
    {
        let ghost start = s@;
        proof {
            lemma_suffix_refl(start);
        }
        loop
            invariant
                start == old(s)@,
                suffix_of(start, s@),
                self.header == old(self).header,
                self.entities == old(self).entities,
                tables_read(start, layers_view(old(self).layers@)) == tables_read(
                    s@,
                    layers_view(self.layers@),
                ),
            decreases s@.len(),
        {
            let ghost before = s@;
            proof {
                if before.len() > 0 {
                    lemma_suffix_next(start, before);
                }
            }
            let pair = match s.next() {
                Some(p) => p,
                None => return Err(DxfError::UnexpectedEndOfInput),
            };
            if pair.is_marker("ENDSEC") {
                s.put_back(pair);
                assert(s@ =~= before);
                return Ok(());
            } else if pair.is_marker("TABLE") {
                let ghost mid = s@;
                let r = self.read_specific_table(s);
                proof {
                    lemma_read_step_chain(start, mid, s@, r);
                }
                match r {
                    Ok(()) => {},
                    Err(e) => return Err(e),
                }
            } else {
                return Err(DxfError::UnexpectedCodePair(pair, String::new()));
            }
        }
    }


    /// Reads the body of an entities section up to the `0/ENDSEC` that closes
    /// it, which is left in the stream, and appends the entities, folded, to
    /// the drawing.
    pub fn read_entities(&mut self, s: &mut CodePairStream) -> (r: Result<(), DxfError>)
        ensures
            read_step(old(s)@, final(s)@, r),
            r is Ok ==> final(s)@.len() > 0 && is_marker(final(s)@[0], "ENDSEC"@),
            final(s)@ == raw_read(old(s)@, Seq::empty()).1,
            match raw_read(old(s)@, Seq::empty()).0 {
                Ok(list) => r is Ok && entities_appended(old(self).entities@, final(self).entities@, list),
                Err(e) => r matches Err(e2) && same_error(e2, e) && final(self).entities == old(
                    self,
                ).entities,
            },
            final(self).header == old(self).header,
            final(self).layers == old(self).layers,
    {
        let raw = match read_raw_entities(s) {
            Ok(raw) => raw,
            Err(e) => return Err(e),
        };
        let ghost raw_seq = raw@;
        let ghost before = self.entities@;
        let mut folded = fold_entities(raw);
        let ghost folded_seq = folded@;
        self.entities.append(&mut folded);
        assert(self.entities@.take(before.len() as int) =~= before);
        assert(self.entities@.skip(before.len() as int) =~= folded_seq);
        assert(folds_to(raw_seq, self.entities@.skip(before.len() as int)));
        Ok(())
    }

}

/// What the sections read so far have set: the header's version and handle
/// setting, the layers, and the entities of each entities section as read.
pub struct SectionsState {
    pub version: AcadVersion,
    pub handles: bool,
    pub layers: Seq<(Seq<char>, u32)>,
    pub lists: Seq<Seq<(CodePairValue, EntityFields)>>,
}

/// The state of a drawing before reading: its header and layers, no entity
/// sections yet.
pub open spec fn state_of(d: Drawing) -> SectionsState {
    SectionsState {
        version: d.header.version,
        handles: d.header.handles_enabled,
        layers: layers_view(d.layers@),
        lists: Seq::empty(),
    }
}

/// `after` is `before` with the folded entities of each list appended in turn.
pub open spec fn entities_after(
    before: Seq<Entity>,
    after: Seq<Entity>,
    lists: Seq<Seq<(CodePairValue, EntityFields)>>,
) -> bool
    decreases lists.len(),
{
    if lists.len() == 0 {
        after == before
    } else {
        exists|mid: Seq<Entity>|
            entities_after(before, mid, lists.drop_last()) && entities_appended(mid, after, lists.last())
    }
}

/// The drawing `d1`, whose entities were `before` when reading began, is what
/// the state `st` describes.
pub open spec fn drawing_agrees(d1: Drawing, before: Seq<Entity>, st: SectionsState) -> bool {
    &&& d1.header.version == st.version
    &&& d1.header.handles_enabled == st.handles
    &&& layers_view(d1.layers@) == st.layers
    &&& entities_after(before, d1.entities@, st.lists)
}

proof fn lemma_header_read_len(ps: Seq<CodePair>, v: AcadVersion, h: bool)
    ensures
        header_read(ps, v, h).1.len() <= ps.len(),
    decreases ps.len(),
{
    if ps.len() > 1 && !is_marker(ps[0], "ENDSEC"@) {
        if ps[0].code == 9 && is_text(ps[0].value, "$ACADVER"@) {
            if ps[1].code == 1 && ps[1].value is Str {
                let nv = match crate::header::version_named(ps[1].value) {
                    Some(named) => named,
                    None => v,
                };
                lemma_header_read_len(ps.skip(2), nv, h);
            }
        } else if ps[0].code == 9 && is_text(ps[0].value, "$HANDLING"@) {
            if ps[1].code == 70 && ps[1].value is Short {
                lemma_header_read_len(ps.skip(2), v, ps[1].value->Short_0 != 0);
            }
        } else {
            lemma_header_read_len(ps.skip(1), v, h);
        }
    } else if ps.len() == 1 && !is_marker(ps[0], "ENDSEC"@) && !(ps[0].code == 9 && (is_text(
        ps[0].value,
        "$ACADVER"@,
    ) || is_text(ps[0].value, "$HANDLING"@))) {
        lemma_header_read_len(ps.skip(1), v, h);
    }
}

proof fn lemma_raw_read_len(ps: Seq<CodePair>, acc: Seq<(CodePairValue, EntityFields)>)
    ensures
        raw_read(ps, acc).1.len() <= ps.len(),
    decreases ps.len(),
{
    if ps.len() > 0 && !is_marker(ps[0], "ENDSEC"@) && ps[0].code == 0 {
        crate::entity_io::lemma_fields_read_len(ps.skip(1), crate::entity_io::default_fields());
        if let (Ok(f), rest) = crate::entity_io::fields_read(ps.skip(1), crate::entity_io::default_fields()) {
            let acc2 = if crate::entity_io::known_kind(ps[0].value) {
                acc.push((ps[0].value, f))
            } else {
                acc
            };
            lemma_raw_read_len(rest, acc2);
        }
    }
}

proof fn lemma_tables_read_len(ps: Seq<CodePair>, acc: Seq<(Seq<char>, u32)>)
    ensures
        tables_read(ps, acc).1.len() <= ps.len(),
    decreases ps.len(),
{
    if ps.len() > 0 && !is_marker(ps[0], "ENDSEC"@) && is_marker(ps[0], "TABLE"@) {
        lemma_table_read_len(ps.skip(1), acc);
        if let (Ok(a), rest) = table_read(ps.skip(1), acc) {
            lemma_tables_read_len(rest, a);
        }
    }
}

/// What reading the body of a section named by `name` gives from state `st`:
/// the header, tables and entities sections by their readers, any other
/// passed over to its `0/ENDSEC`.
pub open spec fn section_body_read(name: CodePairValue, body: Seq<CodePair>, st: SectionsState) -> (Result<SectionsState, DxfError>, Seq<CodePair>) {
    if is_text(name, "HEADER"@) {
        match header_read(body, AcadVersion::R2018, true) {
            (Ok((v, h)), rest) => (Ok(SectionsState { version: v, handles: h, ..st }), rest),
            (Err(e), rest) => (Err(e), rest),
        }
    } else if is_text(name, "ENTITIES"@) {
        match raw_read(body, Seq::empty()) {
            (Ok(list), rest) => (Ok(SectionsState { lists: st.lists.push(list), ..st }), rest),
            (Err(e), rest) => (Err(e), rest),
        }
    } else if is_text(name, "TABLES"@) {
        match tables_read(body, st.layers) {
            (Ok(l), rest) => (Ok(SectionsState { layers: l, ..st }), rest),
            (Err(e), rest) => (Err(e), rest),
        }
    } else {
        (Ok(st), body.skip(marker_index(body, "ENDSEC"@) as int))
    }
}

proof fn lemma_section_body_read_len(name: CodePairValue, body: Seq<CodePair>, st: SectionsState)
    ensures
        section_body_read(name, body, st).1.len() <= body.len(),
{
    lemma_header_read_len(body, AcadVersion::R2018, true);
    lemma_raw_read_len(body, Seq::empty());
    lemma_tables_read_len(body, st.layers);
    lemma_marker_index_len(body, "ENDSEC"@);
}

/// What reading sections from `ps` gives from state `st`: each section is
/// `0/SECTION`, a `2` string pair naming it, a body and `0/ENDSEC`; reading
/// ends, with success, at `0/EOF` (left in place) or at the end of the input.
/// Any other pair where a section should open, a missing name or a missing
/// `0/ENDSEC` is an error on that pair; an end inside a section is an error.
pub open spec fn sections_read(ps: Seq<CodePair>, st: SectionsState) -> (Result<SectionsState, DxfError>, Seq<CodePair>)
    decreases ps.len(),
    via sections_read_decreases
{
    if ps.len() == 0 || is_marker(ps[0], "EOF"@) {
        (Ok(st), ps)
    } else if !is_marker(ps[0], "SECTION"@) {
        (Err(bad_pair(ps[0])), ps.skip(1))
    } else if ps.len() == 1 {
        (Err(DxfError::UnexpectedEndOfInput), ps.skip(1))
    } else if !(ps[1].code == 2 && ps[1].value is Str) {
        (Err(bad_pair(ps[1])), ps.skip(2))
    } else {
        match section_body_read(ps[1].value, ps.skip(2), st) {
            (Ok(st2), rest) => if rest.len() == 0 {
                (Err(DxfError::UnexpectedEndOfInput), rest)
            } else if !is_marker(rest[0], "ENDSEC"@) {
                (Err(bad_pair(rest[0])), rest.skip(1))
            } else {
                sections_read(rest.skip(1), st2)
            },
            (Err(e), rest) => (Err(e), rest),
        }
    }
}

#[via_fn]
proof fn sections_read_decreases(ps: Seq<CodePair>, st: SectionsState) {
    if ps.len() > 1 {
        lemma_section_body_read_len(ps[1].value, ps.skip(2), st);
    }
}

impl Drawing {
    /// Reads sections until `0/EOF`, which is left in the stream, or the end
    /// of the input. Each section is `0/SECTION`, `2/<name>`, a body and
    /// `0/ENDSEC`; the header, tables and entities sections are read, and any
    /// other is passed over.
    pub fn read_sections(drawing: &mut Drawing, s: &mut CodePairStream) -> (r: Result<(), DxfError>)
        ensures
            read_step(old(s)@, final(s)@, r),
            final(s)@ == sections_read(old(s)@, state_of(*old(drawing))).1,
            r is Ok ==> final(s)@.len() == 0 || is_marker(final(s)@[0], "EOF"@),
            match sections_read(old(s)@, state_of(*old(drawing))).0 {
                Ok(st) => r is Ok && drawing_agrees(*final(drawing), old(drawing).entities@, st),
                Err(e) => r matches Err(e2) && same_error(e2, e),
            },
    {
        let ghost start = s@;
        let ghost mut st = state_of(*drawing);
        proof {
            lemma_suffix_refl(start);
            assert(layers_view(drawing.layers@) == st.layers);
        }
        loop
            invariant
                start == old(s)@,
                suffix_of(start, s@),
                sections_read(start, state_of(*old(drawing))) == sections_read(s@, st),
                drawing_agrees(*drawing, old(drawing).entities@, st),
            decreases s@.len(),
        {
            let ghost before = s@;
            proof {
                if before.len() > 0 {
                    lemma_suffix_next(start, before);
                }
            }
            let pair = match s.next() {
                Some(p) => p,
                None => return Ok(()),
            };
            if pair.is_marker("EOF") {
                s.put_back(pair);
                assert(s@ =~= before);
                return Ok(());
            }
            if !pair.is_marker("SECTION") {
                if pair.code == 0 {
                    return Err(DxfError::UnexpectedCodePair(pair, String::from_str("expected 0/SECTION")));
                }
                return Err(DxfError::UnexpectedCodePair(pair, String::from_str("expected 0/SECTION or 0/EOF")));
            }
            let ghost at_name = s@;
            proof {
                if at_name.len() > 0 {
                    lemma_suffix_next(start, at_name);
                }
            }
            let name = match s.next() {
                Some(p) => p,
                None => return Err(DxfError::UnexpectedEndOfInput),
            };
            if name.code != 2 || !matches!(name.value, crate::value::CodePairValue::Str(_)) {
                return Err(DxfError::UnexpectedCodePair(name, String::from_str("expected 2/<section-name>")));
            }
            let ghost mid = s@;
            assert(mid == before.skip(2));
            let ghost d_before = *drawing;
            let body = if name.value.is_text("HEADER") {
                let hr = Header::read(s);
                match hr {
                    Ok(h) => {
                        drawing.header = h;
                        assert(suffix_of(mid, s@));
                        Ok(())
                    },
                    Err(e) => {
                        assert(error_in_place(mid, s@, e));
                        Err(e)
                    },
                }
            } else if name.value.is_text("ENTITIES") {
                drawing.read_entities(s)
            } else if name.value.is_text("TABLES") {
                drawing.read_tables(s)
            } else {
                let r = Drawing::swallow_section(s);
                proof {
                    lemma_marker_index_len(mid, "ENDSEC"@);
                }
                assert(s@ =~= mid.skip(mid.len() - s@.len()));
                r
            };
            proof {
                lemma_read_step_chain(start, mid, s@, body);
            }
            let ghost sb = section_body_read(name.value, mid, st);
            proof {
                reveal_strlit("HEADER");
                reveal_strlit("ENTITIES");
                reveal_strlit("TABLES");
                assert("HEADER"@ != "ENTITIES"@ && "TABLES"@ != "ENTITIES"@) by {
                    assert("HEADER"@.len() != "ENTITIES"@.len());
                    assert("TABLES"@.len() != "ENTITIES"@.len());
                }
                assert("HEADER"@ != "TABLES"@) by {
                    assert("HEADER"@[0] != "TABLES"@[0]);
                }
                if body is Ok {
                    let st2 = sb.0->Ok_0;
                    assert(drawing_agrees(*drawing, old(drawing).entities@, st2)) by {
                        if is_text(name.value, "ENTITIES"@) {
                            let list = raw_read(mid, Seq::empty()).0->Ok_0;
                            assert(st2.lists.drop_last() =~= st.lists);
                            assert(st2.lists.last() == list);
                            assert(entities_after(old(drawing).entities@, d_before.entities@, st.lists));
                            assert(entities_appended(d_before.entities@, drawing.entities@, list));
                        }
                    }
                }
            }
            match body {
                Ok(()) => {},
                Err(e) => return Err(e),
            }
            proof {
                st = sb.0->Ok_0;
            }
            let ghost at_end = s@;
            proof {
                if at_end.len() > 0 {
                    lemma_suffix_next(start, at_end);
                }
            }
            match s.next() {
                Some(p) => {
                    if !p.is_marker("ENDSEC") {
                        return Err(DxfError::UnexpectedCodePair(p, String::from_str("expected 0/ENDSEC")));
                    }
                },
                None => return Err(DxfError::UnexpectedEndOfInput),
            }
        }
    }

    /// Loads a drawing from its code pairs, in file order, by reading
    /// sections into a new drawing. An empty input, or `0/EOF` alone, is the
    /// new drawing itself.
    pub fn load(pairs: Vec<CodePair>) -> (r: Result<Drawing, DxfError>)
        ensures
            r matches Err(e) ==> exists|after: Seq<CodePair>| error_in_place(pairs@, after, e),
            match sections_read(pairs@, default_state()).0 {
                Ok(st) => r matches Ok(d) && drawing_agrees(d, Seq::empty(), st),
                Err(e) => r matches Err(e2) && same_error(e2, e),
            },
            pairs@.len() == 0 || is_marker(pairs@[0], "EOF"@) ==> (r matches Ok(d) && d.entities@.len()
                == 0 && d.layers@.len() == 0 && d.header.version == AcadVersion::R2018
                && d.header.handles_enabled),
    {
        let mut s = CodePairStream::new(pairs);
        let mut drawing = Drawing::new();
        let ghost start = s@;
        proof {
            assert(state_of(drawing) == default_state()) by {
                assert(layers_view(drawing.layers@) =~= Seq::<(Seq<char>, u32)>::empty());
            }
        }
        let ghost d0 = drawing;
        let r = Drawing::read_sections(&mut drawing, &mut s);
        match r {
            Ok(()) => {
                proof {
                    assert(d0.entities@ =~= Seq::<Entity>::empty());
                    if pairs@.len() == 0 || is_marker(pairs@[0], "EOF"@) {
                        assert(drawing.entities@ == d0.entities@);
                        assert(drawing.layers@.len() == layers_view(drawing.layers@).len());
                    }
                }
                Ok(drawing)
            },
            Err(e) => {
                assert(error_in_place(start, s@, e));
                Err(e)
            },
        }
    }

    /// Appends one layer entry.
    fn write_layer(layer: &Layer, write_handles: bool, out: &mut Vec<CodePair>)
        ensures
            extends(old(out)@, final(out)@),
            layer_written(*layer, write_handles, final(out)@.skip(old(out)@.len() as int)),
    {
        let ghost start = out@;
        out.push(CodePair::new_str(0, "LAYER"));
        if write_handles {
            out.push(CodePair::new_string(5, handle_text(layer.handle)));
        }
        out.push(CodePair::new_string(2, layer.name.clone()));
        let ghost ps = out@.skip(start.len() as int);
        assert(ps[0] == out@[start.len() as int]);
        if write_handles {
            assert(ps[1] == out@[start.len() as int + 1]);
        }
    }

    /// Appends a tables section that holds the layer table.
    fn write_tables(&self, write_handles: bool, out: &mut Vec<CodePair>)
        ensures
            extends(old(out)@, final(out)@),
            tables_written(self.layers@, write_handles, final(out)@.skip(old(out)@.len() as int)),
    {
        let ghost start = out@;
        out.push(CodePair::new_str(0, "SECTION"));
        out.push(CodePair::new_str(2, "TABLES"));
        out.push(CodePair::new_str(0, "TABLE"));
        out.push(CodePair::new_str(2, "LAYER"));
        let ghost open = out@;
        let mut i: usize = 0;
        proof {
            crate::reading::lemma_extends_refl(open);
            assert(self.layers@.take(0) =~= Seq::<Layer>::empty());
            assert(out@.skip(open.len() as int) =~= Seq::<CodePair>::empty());
        }
        while i < self.layers.len()
            invariant
                extends(start, out@),
                extends(open, out@),
                i <= self.layers.len(),
                layers_written(self.layers@.take(i as int), write_handles, out@.skip(open.len() as int)),
            decreases self.layers.len() - i,
        {
            let ghost pre = out@;
            Drawing::write_layer(&self.layers[i], write_handles, out);
            proof {
                let whole = out@.skip(open.len() as int);
                let k = pre.len() - open.len();
                assert(whole.take(k) =~= pre.skip(open.len() as int));
                assert(whole.skip(k) =~= out@.skip(pre.len() as int));
                assert(self.layers@.take(i + 1).drop_last() =~= self.layers@.take(i as int));
                assert(self.layers@.take(i + 1).last() == self.layers@[i as int]);
                assert(layers_written(self.layers@.take(i + 1), write_handles, whole));
            }
            i = i + 1;
        }
        let ghost mid = out@;
        out.push(CodePair::new_str(0, "ENDTAB"));
        out.push(CodePair::new_str(0, "ENDSEC"));
        proof {
            let ps = out@.skip(start.len() as int);
            assert(self.layers@.take(self.layers@.len() as int) =~= self.layers@);
            assert(ps.subrange(4, ps.len() - 2) =~= mid.skip(open.len() as int));
            assert(ps[0] == open[start.len() as int]);
            assert(ps[1] == open[start.len() as int + 1]);
            assert(ps[2] == open[start.len() as int + 2]);
            assert(ps[3] == open[start.len() as int + 3]);
        }
    }

    /// Appends an entities section that holds every entity of the drawing.
    fn write_entities(&self, write_handles: bool, out: &mut Vec<CodePair>)
        ensures
            extends(old(out)@, final(out)@),
            entities_section_written(self.entities@, write_handles, final(out)@.skip(old(out)@.len() as int)),
    {
        let ghost start = out@;
        out.push(CodePair::new_str(0, "SECTION"));
        out.push(CodePair::new_str(2, "ENTITIES"));
        let ghost open = out@;
        let mut i: usize = 0;
        proof {
            crate::reading::lemma_extends_refl(open);
            assert(self.entities@.take(0) =~= Seq::<Entity>::empty());
            assert(out@.skip(open.len() as int) =~= Seq::<CodePair>::empty());
        }
        while i < self.entities.len()
            invariant
                extends(start, out@),
                extends(open, out@),
                i <= self.entities.len(),
                entities_written(self.entities@.take(i as int), write_handles, out@.skip(open.len() as int)),
            decreases self.entities.len() - i,
        {
            let ghost pre = out@;
            write_entity(out, &self.entities[i], write_handles);
            proof {
                let whole = out@.skip(open.len() as int);
                let k = pre.len() - open.len();
                assert(whole.take(k) =~= pre.skip(open.len() as int));
                assert(whole.skip(k) =~= out@.skip(pre.len() as int));
                assert(self.entities@.take(i + 1).drop_last() =~= self.entities@.take(i as int));
                assert(self.entities@.take(i + 1).last() == self.entities@[i as int]);
                assert(entities_written(self.entities@.take(i + 1), write_handles, whole));
            }
            i = i + 1;
        }
        let ghost mid = out@;
        out.push(CodePair::new_str(0, "ENDSEC"));
        proof {
            let ps = out@.skip(start.len() as int);
            assert(self.entities@.take(self.entities@.len() as int) =~= self.entities@);
            assert(ps.subrange(2, ps.len() - 1) =~= mid.skip(open.len() as int));
            assert(ps[0] == open[start.len() as int]);
            assert(ps[1] == open[start.len() as int + 1]);
        }
    }

    /// Whether handles are written: from R13 on, or where the header asks
    /// for them.
    pub fn writes_handles(&self) -> (r: bool)
        ensures
            r == (version_rank(self.header.version) >= version_rank(AcadVersion::R13)
                || self.header.handles_enabled),
    {
        self.header.version.at_least(AcadVersion::R13) || self.header.handles_enabled
    }

    /// The code pairs of the drawing, in file order: the header section, the
    /// tables section, the entities section and `0/EOF`.
    pub fn save(&self) -> (r: Vec<CodePair>)
        ensures
            r@.len() > 7,
            header_written(self.header, r@.take(7)),
            exists|k: int|
                7 <= k < r@.len() && tables_written(self.layers@, handles_written(*self), r@.subrange(7, k))
                    && entities_section_written(
                    self.entities@,
                    handles_written(*self),
                    #[trigger] r@.subrange(k, r@.len() - 1),
                ),
            is_marker(r@.last(), "EOF"@),
    {
        let mut out: Vec<CodePair> = Vec::new();
        self.header.write(&mut out);
        let ghost after_header = out@;
        assert(out@.skip(0) =~= out@);
        let write_handles = self.writes_handles();
        self.write_tables(write_handles, &mut out);
        let ghost after_tables = out@;
        self.write_entities(write_handles, &mut out);
        let ghost after_entities = out@;
        out.push(CodePair::new_str(0, "EOF"));
        assert(out@.take(7) =~= after_header);
        proof {
            let k = after_tables.len() as int;
            assert(out@.subrange(7, k) =~= after_tables.skip(7));
            assert(out@.subrange(k, out@.len() - 1) =~= after_entities.skip(k));
        }
        out
    }
}

} // verus!
