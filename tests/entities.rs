use dxf::entities::fold_entities;
use dxf::entities::Attribute;
use dxf::entities::Entity;
use dxf::entities::EntityCommon;
use dxf::entities::EntityType;
use dxf::entities::Insert;
use dxf::entities::Point;
use dxf::entities::Polyline;
use dxf::entities::Vertex;

fn entity(specific: EntityType) -> Entity {
    Entity { common: EntityCommon { handle: 0, layer: String::from("0") }, specific }
}

fn insert(has_attributes: bool) -> Entity {
    entity(EntityType::Insert(Insert {
        name: String::from("B"),
        location: Point { x: 0, y: 0, z: 0 },
        has_attributes,
        attributes: Vec::new(),
    }))
}

fn attribute(tag: &str) -> Entity {
    entity(EntityType::Attribute(Attribute { tag: String::from(tag), value: String::new() }))
}

fn vertex(x: u64) -> Entity {
    entity(EntityType::Vertex(Vertex { location: Point { x, y: 0, z: 0 } }))
}

#[test]
fn insert_gathers_attributes_and_one_seqend() {
    let out = fold_entities(vec![insert(true), attribute("A"), attribute("B"), entity(EntityType::Seqend), vertex(1)]);
    assert_eq!(2, out.len());
    match &out[0].specific {
        EntityType::Insert(i) => {
            assert_eq!(2, i.attributes.len());
            assert_eq!("A", i.attributes[0].tag);
        }
        other => panic!("unexpected {:?}", other),
    }
    assert!(matches!(out[1].specific, EntityType::Vertex(_)));
}

#[test]
fn insert_without_the_flag_gathers_nothing() {
    let out = fold_entities(vec![insert(false), attribute("A")]);
    assert_eq!(2, out.len());
    assert!(matches!(out[1].specific, EntityType::Attribute(_)));
}

#[test]
fn polyline_gathers_vertices() {
    let out = fold_entities(vec![
        entity(EntityType::Polyline(Polyline { flags: 0, vertices: Vec::new() })),
        vertex(1),
        vertex(2),
        entity(EntityType::Seqend),
    ]);
    assert_eq!(1, out.len());
    match &out[0].specific {
        EntityType::Polyline(p) => assert_eq!(vec![Vertex { location: Point { x: 1, y: 0, z: 0 } }, Vertex { location: Point { x: 2, y: 0, z: 0 } }], p.vertices),
        other => panic!("unexpected {:?}", other),
    }
}

#[test]
fn stray_seqends_are_dropped() {
    let out = fold_entities(vec![entity(EntityType::Seqend), insert(false), entity(EntityType::Seqend)]);
    assert_eq!(1, out.len());
}

#[test]
fn folding_twice_changes_nothing() {
    let once = fold_entities(vec![insert(true), attribute("A"), entity(EntityType::Seqend), insert(false)]);
    let twice = fold_entities(once.clone());
    assert_eq!(once, twice);
}
