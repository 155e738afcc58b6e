use dxf::drawing::Drawing;
use dxf::stream::CodePairStream;
use dxf::value::handle_text;
use dxf::value::parse_handle;
use dxf::value::value_kind;
use dxf::value::CodePair;
use dxf::value::CodePairValue;
use dxf::value::DxfError;
use dxf::value::ValueKind;

#[test]
fn group_codes_select_value_kinds() {
    assert_eq!(ValueKind::Str, value_kind(0));
    assert_eq!(ValueKind::Double, value_kind(10));
    assert_eq!(ValueKind::Short, value_kind(70));
    assert_eq!(ValueKind::Integer, value_kind(90));
    assert_eq!(ValueKind::Long, value_kind(160));
    assert_eq!(ValueKind::Boolean, value_kind(290));
    assert_eq!(ValueKind::Str, value_kind(1000));
    assert_eq!(ValueKind::Double, value_kind(1040));
    assert_eq!(ValueKind::Short, value_kind(1070));
    assert_eq!(ValueKind::Integer, value_kind(1071));
}

#[test]
fn handles_are_hexadecimal() {
    assert_eq!("0", handle_text(0));
    assert_eq!("1F", handle_text(0x1F));
    assert_eq!("FFFFFFFF", handle_text(u32::MAX));
    assert_eq!(Some(0xABCD), parse_handle(&String::from("abCD")));
    assert_eq!(Some(u32::MAX), parse_handle(&String::from("0FFFFFFFF")));
    assert_eq!(None, parse_handle(&String::from("100000000")));
    assert_eq!(None, parse_handle(&String::from("")));
    assert_eq!(None, parse_handle(&String::from("12G")));
}

#[test]
fn asserters_report_the_wrong_kind() {
    let mut p = CodePair::new_i16(1000, 3);
    p.offset = 12;
    match p.assert_string() {
        Err(DxfError::WrongValueType(code, offset)) => {
            assert_eq!(1000, code);
            assert_eq!(12, offset);
        }
        other => panic!("unexpected {:?}", other),
    }
    assert_eq!(3, p.assert_i16().unwrap());
    assert!(p.assert_f64().is_err());
    assert!(p.assert_i32().is_err());
    let h = CodePair::new_str(5, "zz");
    assert!(matches!(h.as_handle(), Err(DxfError::MalformedHandle(0))));
    assert_eq!(Ok(0x2A), CodePair::new_str(5, "2a").as_handle().map_err(|_| ()));
}

#[test]
fn pair_stream_puts_back_one_pair() {
    let mut s = CodePairStream::new(vec![CodePair::new_str(0, "A"), CodePair::new_str(0, "B")]);
    let a = s.next().unwrap();
    assert!(a.is_marker("A"));
    s.put_back(a);
    assert!(s.next().unwrap().is_marker("A"));
    assert!(s.next().unwrap().is_marker("B"));
    assert!(s.next().is_none());
    assert!(s.is_empty());
}

#[test]
fn section_reader_leaves_eof_in_the_stream() {
    let mut s = CodePairStream::new(vec![
        CodePair::new_str(0, "SECTION"),
        CodePair::new_str(2, "OBJECTS"),
        CodePair::new_str(0, "ENDSEC"),
        CodePair::new_str(0, "EOF"),
    ]);
    let mut d = Drawing::new();
    assert!(Drawing::read_sections(&mut d, &mut s).is_ok());
    assert!(s.next().unwrap().is_marker("EOF"));
    assert_eq!(CodePairValue::Short(1), CodePair::new_i16(70, 1).value);
}
