//! The entities of a drawing, and the folder that gathers the attributes of an
//! insert and the vertices of a polyline into their parent.
use vstd::prelude::*;

verus! {

/// A point in space, each coordinate held as the bit pattern of a double.
#[derive(Clone, Copy, Debug, PartialEq, Eq, Structural)]
pub struct Point {
    pub x: u64,
    pub y: u64,
    pub z: u64,
}

/// The fields that every entity has.
#[derive(Clone, Debug, PartialEq)]
pub struct EntityCommon {
    pub handle: u32,
    pub layer: String,
}

/// A straight segment.
#[derive(Clone, Debug, PartialEq)]
pub struct Line {
    pub p1: Point,
    pub p2: Point,
}

/// A reference to a block, with the attributes that follow it.
#[derive(Clone, Debug, PartialEq)]
pub struct Insert {
    pub name: String,
    pub location: Point,
    pub has_attributes: bool,
    pub attributes: Vec<Attribute>,
}

/// A tagged text value attached to an insert.
#[derive(Clone, Debug, PartialEq)]
pub struct Attribute {
    pub tag: String,
    pub value: String,
}

/// A polyline, with the vertices that follow it.
#[derive(Clone, Debug, PartialEq)]
pub struct Polyline {
    pub flags: i16,
    pub vertices: Vec<Vertex>,
}

/// One vertex of a polyline.
#[derive(Clone, Debug, PartialEq)]
pub struct Vertex {
    pub location: Point,
}

/// The kind of an entity, with its own fields.
#[derive(Clone, Debug, PartialEq)]
pub enum EntityType {
    Line(Line),
    Insert(Insert),
    Attribute(Attribute),
    Polyline(Polyline),
    Vertex(Vertex),
    Seqend,
}

/// An entity of a drawing.
#[derive(Clone, Debug, PartialEq)]
pub struct Entity {
    pub common: EntityCommon,
    pub specific: EntityType,
}

/// The entities still to come from a stack whose next entity is its last.
pub open spec fn pending(stack: Seq<Entity>) -> Seq<Entity> {
    Seq::new(stack.len(), |i: int| stack[stack.len() - 1 - i])
}

/// The number of attribute entities at the front of `es`.
pub open spec fn attribute_run(es: Seq<Entity>) -> nat
    decreases es.len(),
{
    if es.len() > 0 && es[0].specific is Attribute {
        1 + attribute_run(es.skip(1))
    } else {
        0
    }
}

/// The number of vertex entities at the front of `es`.
pub open spec fn vertex_run(es: Seq<Entity>) -> nat
    decreases es.len(),
{
    if es.len() > 0 && es[0].specific is Vertex {
        1 + vertex_run(es.skip(1))
    } else {
        0
    }
}

/// The attributes that the first `k` entities hold.
pub open spec fn attributes_of(es: Seq<Entity>, k: int) -> Seq<Attribute> {
    Seq::new(k as nat, |i: int| es[i].specific->Attribute_0)
}

/// The vertices that the first `k` entities hold.
pub open spec fn vertices_of(es: Seq<Entity>, k: int) -> Seq<Vertex> {
    Seq::new(k as nat, |i: int| es[i].specific->Vertex_0)
}

/// `es` without one sequence end at its front.
pub open spec fn skip_seqend(es: Seq<Entity>) -> Seq<Entity> {
    if es.len() > 0 && es[0].specific is Seqend {
        es.skip(1)
    } else {
        es
    }
}

/// `r` is the insert `e` with `atts` appended to its attributes.
pub open spec fn insert_gathered(r: Entity, e: Entity, atts: Seq<Attribute>) -> bool {
    &&& r.common == e.common
    &&& r.specific matches EntityType::Insert(ri)
    &&& e.specific matches EntityType::Insert(ei)
    &&& ri.name == ei.name
    &&& ri.location == ei.location
    &&& ri.has_attributes == ei.has_attributes
    &&& ri.attributes@ == ei.attributes@ + atts
}

/// `r` is the polyline `e` with `verts` appended to its vertices.
pub open spec fn polyline_gathered(r: Entity, e: Entity, verts: Seq<Vertex>) -> bool {
    &&& r.common == e.common
    &&& r.specific matches EntityType::Polyline(rp)
    &&& e.specific matches EntityType::Polyline(ep)
    &&& rp.flags == ep.flags
    &&& rp.vertices@ == ep.vertices@ + verts
}

/// Whether an entity is an insert that announces attributes.
pub open spec fn gathers_attributes(e: Entity) -> bool {
    e.specific matches EntityType::Insert(ins) && ins.has_attributes
}

proof fn lemma_attribute_run_len(es: Seq<Entity>)
    ensures
        attribute_run(es) <= es.len(),
    decreases es.len(),
{
    if es.len() > 0 && es[0].specific is Attribute {
        lemma_attribute_run_len(es.skip(1));
    }
}

proof fn lemma_vertex_run_len(es: Seq<Entity>)
    ensures
        vertex_run(es) <= es.len(),
    decreases es.len(),
{
    if es.len() > 0 && es[0].specific is Vertex {
        lemma_vertex_run_len(es.skip(1));
    }
}

#[via_fn]
proof fn folds_to_decreases(es: Seq<Entity>, out: Seq<Entity>) {
    if es.len() > 0 {
        lemma_attribute_run_len(es.skip(1));
        lemma_vertex_run_len(es.skip(1));
    }
}

/// `out` is what folding `es` gives: an insert that announces attributes takes
/// the attribute entities that follow it, a polyline the vertex entities that
/// follow it, and each then absorbs one sequence end; a sequence end anywhere
/// else is dropped; every other entity stays as it is.
pub open spec fn folds_to(es: Seq<Entity>, out: Seq<Entity>) -> bool
    decreases es.len(),
    via folds_to_decreases
{
    if es.len() == 0 {
        out.len() == 0
    } else if gathers_attributes(es[0]) {
        let k = attribute_run(es.skip(1)) as int;
        &&& out.len() > 0
        &&& insert_gathered(out[0], es[0], attributes_of(es.skip(1), k))
        &&& folds_to(skip_seqend(es.skip(1 + k)), out.skip(1))
    } else if es[0].specific is Polyline {
        let k = vertex_run(es.skip(1)) as int;
        &&& out.len() > 0
        &&& polyline_gathered(out[0], es[0], vertices_of(es.skip(1), k))
        &&& folds_to(skip_seqend(es.skip(1 + k)), out.skip(1))
    } else if es[0].specific is Seqend {
        folds_to(es.skip(1), out)
    } else {
        &&& out.len() > 0
        &&& out[0] == es[0]
        &&& folds_to(es.skip(1), out.skip(1))
    }
}

/// Moves the entities of `v` onto a stack whose last element is the first of `v`.
pub fn into_stack(v: Vec<Entity>) -> (stack: Vec<Entity>)
    ensures
        pending(stack@) == v@,
{
    let ghost orig = v@;
    let mut v = v;
    let mut stack: Vec<Entity> = Vec::new();
    assert(orig.skip(orig.len() as int) =~= pending(stack@));
    while v.len() > 0
        invariant
            v@ == orig.take(v.len() as int),
            v.len() <= orig.len(),
            pending(stack@) == orig.skip(v.len() as int),
        decreases v.len(),
    {
        let ghost old_pending = pending(stack@);
        let e = v.pop().unwrap();
        let ghost n = v.len();
        assert(e == orig[n as int]);
        stack.push(e);
        assert(pending(stack@) =~= seq![e] + old_pending);
        assert(v@ =~= orig.take(n as int));
        assert(pending(stack@) =~= orig.skip(n as int));
    }
    assert(orig.skip(0) == orig);
    stack
}

/// Takes the attribute entities at the top of the stack, in order.
fn gather_attributes(stack: &mut Vec<Entity>) -> (atts: Vec<Attribute>)
    ensures
        atts@ == attributes_of(pending(old(stack)@), attribute_run(pending(old(stack)@)) as int),
        pending(final(stack)@) == pending(old(stack)@).skip(
            attribute_run(pending(old(stack)@)) as int,
        ),
{
    let ghost es = pending(stack@);
    let mut atts: Vec<Attribute> = Vec::new();
    assert(es.skip(0) == es);
    assert(atts@ =~= attributes_of(es, 0));
    while stack.len() > 0 && matches!(stack[stack.len() - 1].specific, EntityType::Attribute(_))
        invariant
            atts.len() <= es.len(),
            pending(stack@) == es.skip(atts.len() as int),
            atts@ == attributes_of(es, atts.len() as int),
            attribute_run(es) == atts.len() + attribute_run(es.skip(atts.len() as int)),
        decreases stack.len(),
    {
        let ghost j = atts.len() as int;
        let e = stack.pop().unwrap();
        assert(es.skip(j)[0] == e);
        assert(es.skip(j).skip(1) =~= es.skip(j + 1));
        assert(pending(stack@) =~= es.skip(j + 1));
        match e.specific {
            EntityType::Attribute(a) => {
                atts.push(a);
            },
            _ => {},
        }
        assert(atts@ =~= attributes_of(es, j + 1));
    }
    atts
}

/// Takes the vertex entities at the top of the stack, in order.
fn gather_vertices(stack: &mut Vec<Entity>) -> (verts: Vec<Vertex>)
    ensures
        verts@ == vertices_of(pending(old(stack)@), vertex_run(pending(old(stack)@)) as int),
        pending(final(stack)@) == pending(old(stack)@).skip(
            vertex_run(pending(old(stack)@)) as int,
        ),
{
    let ghost es = pending(stack@);
    let mut verts: Vec<Vertex> = Vec::new();
    assert(es.skip(0) == es);
    assert(verts@ =~= vertices_of(es, 0));
    while stack.len() > 0 && matches!(stack[stack.len() - 1].specific, EntityType::Vertex(_))
        invariant
            verts.len() <= es.len(),
            pending(stack@) == es.skip(verts.len() as int),
            verts@ == vertices_of(es, verts.len() as int),
            vertex_run(es) == verts.len() + vertex_run(es.skip(verts.len() as int)),
        decreases stack.len(),
    {
        let ghost j = verts.len() as int;
        let e = stack.pop().unwrap();
        assert(es.skip(j)[0] == e);
        assert(es.skip(j).skip(1) =~= es.skip(j + 1));
        assert(pending(stack@) =~= es.skip(j + 1));
        match e.specific {
            EntityType::Vertex(v) => {
                verts.push(v);
            },
            _ => {},
        }
        assert(verts@ =~= vertices_of(es, j + 1));
    }
    verts
}

/// Drops one sequence end from the top of the stack, if one is there.
fn swallow_seqend(stack: &mut Vec<Entity>)
    ensures
        pending(final(stack)@) == skip_seqend(pending(old(stack)@)),
{
    if stack.len() > 0 && matches!(stack[stack.len() - 1].specific, EntityType::Seqend) {
        let ghost es = pending(stack@);
        stack.pop();
        assert(pending(stack@) =~= es.skip(1));
    }
}

/// Folds a sequence of entities as read: each insert that announces
/// attributes takes the attribute entities that follow it, each polyline the
/// vertex entities that follow it, and both absorb one sequence end after
/// them; other sequence ends are dropped.
pub fn fold_entities(raw: Vec<Entity>) -> (out: Vec<Entity>)
    ensures
        folds_to(raw@, out@),
{
    let ghost es = raw@;
    let mut stack = into_stack(raw);
    let mut out: Vec<Entity> = Vec::new();
    assert forall|t: Seq<Entity>| #[trigger] folds_to(pending(stack@), t) implies folds_to(es, out@ + t) by {
        assert(out@ + t =~= t);
    }
    while stack.len() > 0
        invariant
            forall|t: Seq<Entity>| #[trigger] folds_to(pending(stack@), t) ==> folds_to(es, out@ + t),
        decreases stack.len(),
    {
        let ghost before = pending(stack@);
        let ghost out0 = out@;
        let e = stack.pop().unwrap();
        let ghost after_pop = pending(stack@);
        assert(before[0] == e);
        assert(before.skip(1) =~= after_pop);
        let ghost ge = e;
        let Entity { common, specific } = e;
        match specific {
            EntityType::Insert(ins) if ins.has_attributes => {
                let mut atts = gather_attributes(&mut stack);
                let ghost k = attribute_run(after_pop) as int;
                proof {
                    lemma_attribute_run_len(after_pop);
                }
                assert(before.skip(1 + k) =~= after_pop.skip(k));
                swallow_seqend(&mut stack);
                let Insert { name, location, has_attributes, attributes } = ins;
                let mut attributes = attributes;
                attributes.append(&mut atts);
                let r = Entity {
                    common,
                    specific: EntityType::Insert(Insert { name, location, has_attributes, attributes }),
                };
                let ghost rest = pending(stack@);
                assert forall|t: Seq<Entity>| #[trigger] folds_to(rest, t) implies folds_to(
                    before,
                    seq![r] + t,
                ) by {
                    assert((seq![r] + t)[0] == r);
                    assert((seq![r] + t).skip(1) =~= t);
                }
                out.push(r);
                assert forall|t: Seq<Entity>| #[trigger] folds_to(rest, t) implies folds_to(es, out@ + t) by {
                    assert(out0 + (seq![r] + t) =~= out@ + t);
                }
            },
            EntityType::Polyline(poly) => {
                let mut verts = gather_vertices(&mut stack);
                let ghost k = vertex_run(after_pop) as int;
                proof {
                    lemma_vertex_run_len(after_pop);
                }
                assert(before.skip(1 + k) =~= after_pop.skip(k));
                swallow_seqend(&mut stack);
                let Polyline { flags, vertices } = poly;
                let mut vertices = vertices;
                vertices.append(&mut verts);
                let r = Entity { common, specific: EntityType::Polyline(Polyline { flags, vertices }) };
                let ghost rest = pending(stack@);
                assert forall|t: Seq<Entity>| #[trigger] folds_to(rest, t) implies folds_to(
                    before,
                    seq![r] + t,
                ) by {
                    assert((seq![r] + t)[0] == r);
                    assert((seq![r] + t).skip(1) =~= t);
                }
                out.push(r);
                assert forall|t: Seq<Entity>| #[trigger] folds_to(rest, t) implies folds_to(es, out@ + t) by {
                    assert(out0 + (seq![r] + t) =~= out@ + t);
                }
            },
            EntityType::Seqend => {
                assert forall|t: Seq<Entity>| #[trigger] folds_to(after_pop, t) implies folds_to(before, t) by {
                }
            },
            specific => {
                let r = Entity { common, specific };
                assert(r == ge);
                assert forall|t: Seq<Entity>| #[trigger] folds_to(after_pop, t) implies folds_to(
                    before,
                    seq![r] + t,
                ) by {
                    assert((seq![r] + t)[0] == r);
                    assert((seq![r] + t).skip(1) =~= t);
                }
                out.push(r);
                assert forall|t: Seq<Entity>| #[trigger] folds_to(after_pop, t) implies folds_to(es, out@ + t) by {
                    assert(out0 + (seq![r] + t) =~= out@ + t);
                }
            },
        }
    }
    assert(folds_to(pending(stack@), Seq::<Entity>::empty()));
    assert(out@ + Seq::<Entity>::empty() =~= out@);
    out
}

/// Whether no entity of `es` is an attribute, a vertex or a sequence end: the
/// entities that the folder takes into a parent or drops.
pub open spec fn no_loose_children(es: Seq<Entity>) -> bool {
    forall|i: int|
        0 <= i < es.len() ==> !(#[trigger] es[i].specific is Attribute) && !(es[i].specific is Vertex)
            && !(es[i].specific is Seqend)
}

proof fn lemma_fold_drops_seqends(es: Seq<Entity>, out: Seq<Entity>)
    requires
        folds_to(es, out),
    ensures
        forall|i: int| 0 <= i < out.len() ==> !(#[trigger] out[i].specific is Seqend),
    decreases es.len(),
{
    if es.len() > 0 {
        lemma_attribute_run_len(es.skip(1));
        lemma_vertex_run_len(es.skip(1));
        if gathers_attributes(es[0]) {
            let k = attribute_run(es.skip(1)) as int;
            lemma_fold_drops_seqends(skip_seqend(es.skip(1 + k)), out.skip(1));
            assert forall|i: int| 0 <= i < out.len() implies !(#[trigger] out[i].specific is Seqend) by {
                if i > 0 {
                    assert(out[i] == out.skip(1)[i - 1]);
                }
            }
        } else if es[0].specific is Polyline {
            let k = vertex_run(es.skip(1)) as int;
            lemma_fold_drops_seqends(skip_seqend(es.skip(1 + k)), out.skip(1));
            assert forall|i: int| 0 <= i < out.len() implies !(#[trigger] out[i].specific is Seqend) by {
                if i > 0 {
                    assert(out[i] == out.skip(1)[i - 1]);
                }
            }
        } else if es[0].specific is Seqend {
            lemma_fold_drops_seqends(es.skip(1), out);
        } else {
            lemma_fold_drops_seqends(es.skip(1), out.skip(1));
            assert forall|i: int| 0 <= i < out.len() implies !(#[trigger] out[i].specific is Seqend) by {
                if i > 0 {
                    assert(out[i] == out.skip(1)[i - 1]);
                }
            }
        }
    }
}

proof fn lemma_fold_keeps_settled(x: Seq<Entity>)
    requires
        no_loose_children(x),
    ensures
        folds_to(x, x),
    decreases x.len(),
{
    if x.len() > 0 {
        let rest = x.skip(1);
        assert(no_loose_children(rest)) by {
            assert forall|i: int| 0 <= i < rest.len() implies !(#[trigger] rest[i].specific is Attribute)
                && !(rest[i].specific is Vertex) && !(rest[i].specific is Seqend) by {
                assert(rest[i] == x[i + 1]);
            }
        }
        lemma_fold_keeps_settled(rest);
        if rest.len() > 0 {
            assert(rest[0] == x[1]);
        }
        assert(attribute_run(rest) == 0);
        assert(vertex_run(rest) == 0);
        assert(x.skip(1int + 0int) == rest);
        assert(skip_seqend(rest) == rest);
        if gathers_attributes(x[0]) {
            let atts = attributes_of(rest, 0);
            assert(x[0].specific->Insert_0.attributes@ + atts =~= x[0].specific->Insert_0.attributes@);
        } else if x[0].specific is Polyline {
            let verts = vertices_of(rest, 0);
            assert(x[0].specific->Polyline_0.vertices@ + verts =~= x[0].specific->Polyline_0.vertices@);
        }
    }
}

/// Folding is idempotent where it leaves no attribute or vertex at the top
/// level: folding its result again gives that result.
pub proof fn lemma_fold_idempotent(es: Seq<Entity>, out: Seq<Entity>)
    requires
        folds_to(es, out),
        forall|i: int|
            0 <= i < out.len() ==> !(#[trigger] out[i].specific is Attribute) && !(
            out[i].specific is Vertex),
    ensures
        folds_to(out, out),
{
    lemma_fold_drops_seqends(es, out);
    lemma_fold_keeps_settled(out);
}

} // verus!
