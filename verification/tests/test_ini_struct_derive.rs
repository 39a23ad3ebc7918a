use rustini::{decode, encode, FieldKind, FieldSpec, IniValue};

fn convert_me_schema() -> Vec<FieldSpec> {
    vec![
        FieldSpec { name: String::from("a"), required: true, kind: FieldKind::Str },
        FieldSpec { name: String::from("b"), required: true, kind: FieldKind::Bool },
        FieldSpec { name: String::from("c"), required: true, kind: FieldKind::PosInt },
    ]
}

fn optional_convert_me_schema() -> Vec<FieldSpec> {
    vec![
        FieldSpec { name: String::from("a"), required: true, kind: FieldKind::Str },
        FieldSpec { name: String::from("b"), required: false, kind: FieldKind::Bool },
        FieldSpec { name: String::from("c"), required: false, kind: FieldKind::PosInt },
    ]
}

#[test]
fn test_derive_from_ini() {
    let ini_str = r#"
        a = Hello, world!
        b = true
        c = 42
    "#;
    let data = decode(ini_str, &convert_me_schema()).expect("decode failed");
    let expected = vec![
        Some(IniValue::Str("Hello, world!".to_string())),
        Some(IniValue::Bool(true)),
        Some(IniValue::PosInt(42)),
    ];
    assert_eq!(data, expected);
}

#[test]
fn test_derive_optional_from_ini() {
    let ini_str = r#"
        a = Hello, world!
        c = 42
    "#;
    let data = decode(ini_str, &optional_convert_me_schema()).expect("decode failed");
    let expected = vec![
        Some(IniValue::Str("Hello, world!".to_string())),
        None,
        Some(IniValue::PosInt(42)),
    ];
    assert_eq!(data, expected);
}

#[test]
fn test_ini_struct_derive_test_derive_to_ini() {
    let record = vec![
        Some(IniValue::Str("Hello, world!".to_string())),
        Some(IniValue::Bool(true)),
        Some(IniValue::PosInt(42)),
    ];
    let ini_str = encode(&record, &convert_me_schema());
    let expected = ["a = Hello, world!", "b = true", "c = 42"].join("\n");
    assert_eq!(ini_str, expected);
}

#[test]
fn test_derive_optional_to_ini() {
    let record = vec![
        Some(IniValue::Str("Hello, world!".to_string())),
        None,
        Some(IniValue::PosInt(42)),
    ];
    let ini_str = encode(&record, &optional_convert_me_schema());
    let mut ini_lines = ini_str.lines().collect::<Vec<_>>();
    // since field names are at the start of a line, we can sort by them easily
    ini_lines.sort();
    let expected = ["a = Hello, world!", "c = 42"];
    assert_eq!(ini_lines, expected);
}
