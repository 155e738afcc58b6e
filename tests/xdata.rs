use dxf::entities::Point;
use dxf::header::AcadVersion;
use dxf::stream::CodePairStream;
use dxf::value::CodePair;
use dxf::value::DxfError;
use dxf::xdata::parse_hex_bytes;
use dxf::xdata::XData;
use dxf::xdata::XDataItem;

fn sample() -> XData {
    XData {
        application_name: String::from("APP"),
        items: vec![
            XDataItem::Str(String::from("hello")),
            XDataItem::ControlGroup(vec![
                XDataItem::Integer(7),
                XDataItem::ControlGroup(vec![XDataItem::Long(-3)]),
            ]),
            XDataItem::LayerName(String::from("walls")),
            XDataItem::BinaryData(vec![0x01, 0xAB, 0xFF]),
            XDataItem::Handle(0x3F),
            XDataItem::ThreeReals(1, 2, 3),
            XDataItem::WorldSpacePosition(Point { x: 4, y: 5, z: 6 }),
            XDataItem::Real(1.5f64.to_bits()),
            XDataItem::Distance(2),
            XDataItem::ScaleFactor(3),
        ],
    }
}

#[test]
fn xdata_write_then_read_round_trips() {
    let x = sample();
    let mut out = Vec::new();
    x.write(AcadVersion::R2000, &mut out);
    out.push(CodePair::new_str(0, "LINE"));
    let mut s = CodePairStream::new(out);
    let first = s.next().unwrap();
    assert_eq!(1001, first.code);
    let read = XData::read_item(first.assert_string().unwrap(), &mut s).unwrap();
    assert_eq!(x, read);
    assert!(s.next().unwrap().is_marker("LINE"));
}

#[test]
fn xdata_is_not_written_before_r2000() {
    let mut out = Vec::new();
    sample().write(AcadVersion::R14, &mut out);
    assert!(out.is_empty());
}

#[test]
fn binary_data_is_upper_case_hex() {
    let mut out = Vec::new();
    XDataItem::BinaryData(vec![0x0A, 0xBC]).write(&mut out);
    assert_eq!(vec![CodePair::new_str(1004, "0ABC")], out);
    assert_eq!(Some(vec![0x0A, 0xBC]), parse_hex_bytes(&String::from("0abc")));
    assert_eq!(None, parse_hex_bytes(&String::from("0AB")));
}

#[test]
fn xdata_stops_at_another_application() {
    let mut s = CodePairStream::new(vec![
        CodePair::new_str(1000, "a"),
        CodePair::new_str(1001, "OTHER"),
    ]);
    let x = XData::read_item(String::from("APP"), &mut s).unwrap();
    assert_eq!(1, x.items.len());
    assert_eq!(1001, s.next().unwrap().code);
}

#[test]
fn xdata_errors() {
    let mut s = CodePairStream::new(vec![CodePair::new_i16(1099, 1)]);
    assert!(matches!(XData::read_item(String::from("APP"), &mut s), Err(DxfError::UnexpectedCode(1099, 0))));

    let mut s = CodePairStream::new(vec![CodePair::new_str(1002, "{"), CodePair::new_str(8, "x")]);
    assert!(matches!(XData::read_item(String::from("APP"), &mut s), Err(DxfError::UnexpectedCodePair(_, _))));

    let mut s = CodePairStream::new(vec![CodePair::new_double(1010, 0), CodePair::new_double(1020, 0)]);
    assert!(matches!(XData::read_item(String::from("APP"), &mut s), Err(DxfError::UnexpectedCode(1020, 0))));

    let mut s = CodePairStream::new(vec![CodePair::new_str(1004, "XY")]);
    assert!(matches!(XData::read_item(String::from("APP"), &mut s), Err(DxfError::MalformedHexData(0))));

    let mut s = CodePairStream::new(vec![CodePair::new_str(1002, "{")]);
    assert!(matches!(XData::read_item(String::from("APP"), &mut s), Err(DxfError::UnexpectedEndOfInput)));
}
