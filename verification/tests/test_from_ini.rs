use rustini::{decode, FieldKind, FieldSpec, FromIni, IniError, IniValue};

#[test]
fn test_derive_from_ini_struct() {
    let ini_str = r#"
        a = Hello, world!
        c = 42
    "#;
    let schema = vec![
        FieldSpec { name: String::from("a"), required: true, kind: FieldKind::Str },
        FieldSpec { name: String::from("b"), required: false, kind: FieldKind::Float },
        FieldSpec { name: String::from("c"), required: false, kind: FieldKind::PosInt },
    ];
    let data = decode(ini_str, &schema).expect("decode failed");
    let expected = vec![
        Some(IniValue::Str("Hello, world!".to_string())),
        None,
        Some(IniValue::PosInt(42)),
    ];
    assert_eq!(data, expected);
}

#[derive(Debug, PartialEq, Eq)]
enum ConvertMeEnum {
    A,
    B,
    C,
}

impl FromIni for ConvertMeEnum {
    fn from_ini(ini: &str) -> Result<ConvertMeEnum, IniError> {
        match ini {
            "A" => Ok(ConvertMeEnum::A),
            "B" => Ok(ConvertMeEnum::B),
            "C" => Ok(ConvertMeEnum::C),
            _ => Err(IniError::InvalidFieldValue(
                String::from("ConvertMeEnum"),
                String::from(ini),
            )),
        }
    }
}

#[test]
fn test_impl_from_ini_enum() {
    let ini_str = "A";
    let data = ConvertMeEnum::from_ini(ini_str).expect("from_ini failed");
    let expected = ConvertMeEnum::A;
    assert_eq!(data, expected);
}

#[derive(Debug, PartialEq, Eq)]
struct ConvertMeStructWithEnum {
    a: ConvertMeEnum,
}

#[test]
fn test_derive_nested_impl_from_ini() {
    let ini_str = r#"
        a = A
    "#;
    // A field whose type decodes itself is bound raw, then handed to
    // that type's own converter.
    let schema = vec![FieldSpec { name: String::from("a"), required: true, kind: FieldKind::Raw }];
    let rec = decode(ini_str, &schema).unwrap();
    let raw = match &rec[0] {
        Some(IniValue::Str(s)) => s.clone(),
        other => panic!("unexpected value for a: {:?}", other),
    };
    let data = ConvertMeStructWithEnum { a: ConvertMeEnum::from_ini(&raw).unwrap() };
    let expected = ConvertMeStructWithEnum { a: ConvertMeEnum::A };
    assert_eq!(data, expected);
}
