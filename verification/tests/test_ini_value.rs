use rustini::IniValue;

#[test]
fn test_ini_value_bool() {
    let t_string = "true";
    let t = IniValue::from_str(t_string)
        .unwrap_or_else(|_| panic!("failed to parse {t_string} into IniValue"));
    assert_eq!(t, IniValue::Bool(true));
    let f_string = "false";
    let f = IniValue::from_str(f_string)
        .unwrap_or_else(|_| panic!("failed to parse {f_string} into IniValue"));
    assert_eq!(f, IniValue::Bool(false));
}

#[test]
fn test_ini_value_case_sensitive() {
    let t_string = "TrUe";
    let r = IniValue::from_str(t_string);
    // Boolean literals are byte-identical: any other casing is a plain
    // string, never a boolean.
    assert_eq!(
        r,
        Ok(IniValue::Str(String::from("TrUe"))),
        "expected case-sensitive parse to yield a string, got {:?}",
        r
    );
}

#[test]
fn test_ini_value_float() {
    let f_string = "1.2345";
    let f = IniValue::from_str(f_string)
        .unwrap_or_else(|_| panic!("failed to parse {f_string} into IniValue"));
    assert_eq!(f, IniValue::Float(String::from("1.2345")));
}

#[test]
fn test_ini_value_pos_int() {
    let i_string = "12345";
    let i = IniValue::from_str(i_string)
        .unwrap_or_else(|_| panic!("failed to parse {i_string} into IniValue"));
    assert_eq!(i, IniValue::PosInt(12345));
}

#[test]
fn test_ini_value_neg_int() {
    let i_string = "-12345";
    let i = IniValue::from_str(i_string)
        .unwrap_or_else(|_| panic!("failed to parse {i_string} into IniValue"));
    assert_eq!(i, IniValue::NegInt(-12345));
}

#[test]
fn test_ini_value_unquoted_string() {
    let s_string = "Hello, world!";
    let s = IniValue::from_str(s_string)
        .unwrap_or_else(|_| panic!("failed to parse {s_string} into IniValue"));
    assert_eq!(s, IniValue::Str("Hello, world!".to_string()));
}

#[test]
fn test_ini_value_quoted_string() {
    let s_string = r#""Hello, world!""#;
    let s = IniValue::from_str(s_string)
        .unwrap_or_else(|_| panic!("failed to parse {s_string} into IniValue"));
    assert_eq!(s, IniValue::Str("Hello, world!".to_string()));
}

#[test]
fn test_ini_value_bad_quotes() {
    let right_quote = "Hello, world!\"";
    let right_res = IniValue::from_str(right_quote);
    assert!(
        right_res.is_err(),
        "expected right-quoted string to fail, got {:?}",
        right_res
    );

    let left_quote = "\"Hello, world!";
    let left_res = IniValue::from_str(left_quote);
    assert!(
        left_res.is_err(),
        "expected left-quoted string to fail, got {:?}",
        left_res
    );
}

#[test]
fn test_ini_value_bad_float() {
    let nan = "NaN";
    let nan_res = IniValue::from_str(nan);
    assert!(nan_res.is_err(), "expected NaN to fail, got {:?}", nan_res);

    let inf = "inf";
    let inf_res = IniValue::from_str(inf);
    assert!(
        inf_res.is_err(),
        "expected Infinity to fail, got {:?}",
        inf_res
    );
}
