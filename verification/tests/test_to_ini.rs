use rustini::{encode, FieldKind, FieldSpec, IniValue, ToIni};

#[test]
fn test_to_ini_test_derive_to_ini() {
    let schema = vec![
        FieldSpec { name: String::from("a"), required: true, kind: FieldKind::Str },
        FieldSpec { name: String::from("b"), required: false, kind: FieldKind::Float },
        FieldSpec { name: String::from("c"), required: false, kind: FieldKind::PosInt },
    ];
    let record = vec![
        Some(IniValue::Str("Hello, world!".to_string())),
        Some(IniValue::Float(String::from("1.23"))),
        None,
    ];
    let ini_str = encode(&record, &schema);
    let mut ini_lines = ini_str.lines().collect::<Vec<_>>();
    // since field names are at the start of a line, we can sort by them easily
    ini_lines.sort();
    let expected = ["a = Hello, world!", "b = 1.23"];
    assert_eq!(ini_lines, expected);
}

#[derive(PartialEq, Eq, Debug)]
enum ConvertMeEnum {
    A,
}

impl ToIni for ConvertMeEnum {
    fn to_ini(&self) -> String {
        match self {
            ConvertMeEnum::A => "A",
        }
        .to_string()
    }
}

#[test]
fn test_impl_to_ini_enum() {
    let data = ConvertMeEnum::A;
    let ini_str = data.to_ini();
    let expected = "A";
    assert_eq!(ini_str, expected);
}
