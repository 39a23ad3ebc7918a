use rustini::{decode, FieldKind, FieldSpec, FromIni, IniError, IniValue, ToIni};

struct ConvertMe {
    a: String,
    b: bool,
    c: u32,
}

fn convert_me_schema() -> Vec<FieldSpec> {
    vec![
        FieldSpec { name: String::from("a"), required: true, kind: FieldKind::Str },
        FieldSpec { name: String::from("b"), required: true, kind: FieldKind::Bool },
        FieldSpec { name: String::from("c"), required: true, kind: FieldKind::PosInt },
    ]
}

impl FromIni for ConvertMe {
    fn from_ini(ini: &str) -> Result<ConvertMe, IniError> {
        let rec = decode(ini, &convert_me_schema())?;
        let a = match &rec[0] {
            Some(IniValue::Str(s)) => s.clone(),
            other => panic!("unexpected value for a: {:?}", other),
        };
        let b = match &rec[1] {
            Some(IniValue::Bool(b)) => *b,
            other => panic!("unexpected value for b: {:?}", other),
        };
        let c = match &rec[2] {
            Some(IniValue::PosInt(n)) => *n as u32,
            other => panic!("unexpected value for c: {:?}", other),
        };
        Ok(ConvertMe { a, b, c })
    }
}

impl ToIni for ConvertMe {
    fn to_ini(&self) -> String {
        let Self { a, b, c } = self;
        format!(
            r#"a = {a}
        b = {b}
        c = {c}"#
        )
        .trim()
        .to_string()
    }
}

#[test]
fn test_from_ini() {
    let ini_str = r#"
        a = Hello, world!
        b = true
        c = 42
    "#;
    let data = ConvertMe::from_ini(ini_str).expect("from_ini failed");
    assert_eq!(data.a, "Hello, world!");
    assert!(data.b);
    assert_eq!(data.c, 42);
}

#[test]
fn test_to_ini() {
    let data = ConvertMe {
        a: "Hello, world!".to_string(),
        b: true,
        c: 42,
    };
    let ini_str = data.to_ini();
    assert_eq!(
        ini_str,
        r#"a = Hello, world!
        b = true
        c = 42"#
            .trim()
    );
}
