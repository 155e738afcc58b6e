use dxf::drawing::Drawing;
use dxf::drawing::Layer;
use dxf::entities::Attribute;
use dxf::entities::Entity;
use dxf::entities::EntityCommon;
use dxf::entities::EntityType;
use dxf::entities::Insert;
use dxf::entities::Line;
use dxf::entities::Point;
use dxf::entities::Polyline;
use dxf::entities::Vertex;
use dxf::header::AcadVersion;
use dxf::stream::CodePairStream;
use dxf::value::CodePair;
use dxf::value::CodePairValue;
use dxf::value::DxfError;

fn pairs(items: &[(i32, &str)]) -> Vec<CodePair> {
    let mut v = Vec::new();
    for (i, (code, text)) in items.iter().enumerate() {
        let mut p = CodePair::new_str(*code, text);
        p.offset = 2 * i + 1;
        v.push(p);
    }
    v
}

#[test]
fn loading_only_eof_gives_an_empty_drawing() {
    let d = Drawing::load(pairs(&[(0, "EOF")])).unwrap();
    assert!(d.entities.is_empty());
    assert!(d.layers.is_empty());
}

#[test]
fn loading_nothing_gives_an_empty_drawing() {
    let d = Drawing::load(Vec::new()).unwrap();
    assert!(d.entities.is_empty());
    assert_eq!(AcadVersion::R2018, d.header.version);
}

#[test]
fn unknown_sections_are_swallowed() {
    let d = Drawing::load(pairs(&[(0, "SECTION"), (2, "FOO"), (9, "x"), (0, "ENDSEC"), (0, "EOF")])).unwrap();
    assert!(d.entities.is_empty());
}

#[test]
fn a_stream_that_does_not_open_a_section_fails() {
    match Drawing::load(pairs(&[(9, "xyz")])) {
        Err(DxfError::UnexpectedCodePair(p, _)) => {
            assert_eq!(9, p.code);
            assert_eq!(1, p.offset);
        }
        other => panic!("unexpected {:?}", other),
    }
}

#[test]
fn a_section_without_endsec_fails() {
    match Drawing::load(pairs(&[(0, "SECTION"), (2, "ENTITIES")])) {
        Err(DxfError::UnexpectedEndOfInput) => {}
        other => panic!("unexpected {:?}", other),
    }
    match Drawing::load(pairs(&[(0, "SECTION"), (8, "ENTITIES")])) {
        Err(DxfError::UnexpectedCodePair(p, _)) => assert_eq!(8, p.code),
        other => panic!("unexpected {:?}", other),
    }
}

#[test]
fn header_sets_version_and_handles() {
    let mut v = pairs(&[(0, "SECTION"), (2, "HEADER"), (9, "$ACADVER"), (1, "AC1015"), (9, "$HANDLING")]);
    v.push(CodePair::new_i16(70, 0));
    v.extend(pairs(&[(0, "ENDSEC"), (0, "EOF")]));
    let d = Drawing::load(v).unwrap();
    assert_eq!(AcadVersion::R2000, d.header.version);
    assert!(!d.header.handles_enabled);
    assert!(d.writes_handles());
}

#[test]
fn entities_are_folded_while_loading() {
    let mut v = pairs(&[(0, "SECTION"), (2, "ENTITIES"), (0, "INSERT"), (2, "BLOCK")]);
    v.push(CodePair::new_i16(66, 1));
    v.extend(pairs(&[
        (0, "ATTRIB"), (2, "T1"), (1, "V1"),
        (0, "ATTRIB"), (2, "T2"), (1, "V2"),
        (0, "SEQEND"),
        (0, "POLYLINE"),
        (0, "VERTEX"),
        (0, "VERTEX"),
        (0, "SEQEND"),
        (0, "SEQEND"),
        (0, "LINE"), (8, "walls"),
        (0, "ENDSEC"),
        (0, "EOF"),
    ]));
    let d = Drawing::load(v).unwrap();
    assert_eq!(3, d.entities.len());
    match &d.entities[0].specific {
        EntityType::Insert(ins) => {
            assert_eq!("BLOCK", ins.name);
            assert!(ins.has_attributes);
            assert_eq!(2, ins.attributes.len());
            assert_eq!("T2", ins.attributes[1].tag);
            assert_eq!("V2", ins.attributes[1].value);
        }
        other => panic!("unexpected {:?}", other),
    }
    match &d.entities[1].specific {
        EntityType::Polyline(p) => assert_eq!(2, p.vertices.len()),
        other => panic!("unexpected {:?}", other),
    }
    assert_eq!("walls", d.entities[2].common.layer);
}

#[test]
fn a_malformed_handle_is_reported() {
    let v = pairs(&[(0, "SECTION"), (2, "ENTITIES"), (0, "LINE"), (5, "XYZ"), (0, "ENDSEC")]);
    match Drawing::load(v) {
        Err(DxfError::MalformedHandle(offset)) => assert_eq!(7, offset),
        other => panic!("unexpected {:?}", other),
    }
}

#[test]
fn tables_section_reads_layers_and_skips_others() {
    let v = pairs(&[
        (0, "SECTION"), (2, "TABLES"),
        (0, "TABLE"), (2, "LTYPE"), (0, "LTYPE"), (2, "DASHED"), (0, "ENDTAB"),
        (0, "TABLE"), (2, "LAYER"), (0, "LAYER"), (2, "walls"), (5, "1F"), (0, "LAYER"), (2, "doors"), (0, "ENDTAB"),
        (0, "ENDSEC"), (0, "EOF"),
    ]);
    let d = Drawing::load(v).unwrap();
    assert_eq!(2, d.layers.len());
    assert_eq!("walls", d.layers[0].name);
    assert_eq!(0x1F, d.layers[0].handle);
    assert_eq!("doors", d.layers[1].name);
}

#[test]
fn swallow_table_stops_at_a_boundary() {
    let mut s = CodePairStream::new(pairs(&[(0, "LTYPE"), (2, "x"), (0, "ENDTAB"), (0, "EOF")]));
    assert!(Drawing::swallow_table(&mut s).is_ok());
    let next = s.next().unwrap();
    assert!(next.is_marker("ENDTAB"));
    let mut empty = CodePairStream::new(pairs(&[(0, "LTYPE")]));
    assert!(matches!(Drawing::swallow_table(&mut empty), Err(DxfError::UnexpectedEndOfInput)));
}

fn sample_drawing() -> Drawing {
    let mut d = Drawing::new();
    d.header.version = AcadVersion::R2000;
    d.layers.push(Layer { name: String::from("walls"), handle: 0x2A });
    d.entities.push(Entity {
        common: EntityCommon { handle: 0x10, layer: String::from("walls") },
        specific: EntityType::Line(Line {
            p1: Point { x: 1.0f64.to_bits(), y: 2.0f64.to_bits(), z: 0 },
            p2: Point { x: 3.5f64.to_bits(), y: 0, z: 0 },
        }),
    });
    d.entities.push(Entity {
        common: EntityCommon { handle: 0x11, layer: String::from("0") },
        specific: EntityType::Insert(Insert {
            name: String::from("DOOR"),
            location: Point { x: 0, y: 0, z: 0 },
            has_attributes: true,
            attributes: vec![Attribute { tag: String::from("W"), value: String::from("90") }],
        }),
    });
    d.entities.push(Entity {
        common: EntityCommon { handle: 0x12, layer: String::from("0") },
        specific: EntityType::Polyline(Polyline {
            flags: 1,
            vertices: vec![Vertex { location: Point { x: 0, y: 0, z: 0 } }, Vertex { location: Point { x: 7, y: 8, z: 9 } }],
        }),
    });
    d
}

#[test]
fn save_then_load_gives_the_drawing_back() {
    let d = sample_drawing();
    let saved = d.save();
    assert!(saved[0].is_marker("SECTION"));
    assert!(saved[saved.len() - 1].is_marker("EOF"));
    let loaded = Drawing::load(saved).unwrap();
    assert_eq!(d, loaded);
}

#[test]
fn save_writes_handles_as_upper_case_hex() {
    let d = sample_drawing();
    let saved = d.save();
    assert!(saved.iter().any(|p| p.code == 5 && p.value == CodePairValue::Str(String::from("2A"))));
}
