use rustini::{
    decode, encode, Document, DuplicateKeys, EmptyValues, FieldKind, FieldSpec, IniError,
    IniKind, IniValue, ParseOptions, ToIni,
};

fn one_field(name: &str, required: bool, kind: FieldKind) -> Vec<FieldSpec> {
    vec![FieldSpec { name: String::from(name), required, kind }]
}

#[test]
fn test_missing_required_field() {
    let schema = one_field("a", true, FieldKind::Str);
    let r = decode("b = 1\n", &schema);
    assert_eq!(r, Err(IniError::MissingRequiredField(String::from("a"))));
}

#[test]
fn test_missing_required_field_empty_value() {
    // A separator with nothing after it: the key is present but carries
    // no value, which does not satisfy a required field.
    let schema = one_field("a", true, FieldKind::Str);
    let r = decode("a =\n", &schema);
    assert_eq!(r, Err(IniError::MissingRequiredField(String::from("a"))));
}

#[test]
fn test_duplicate_key_last_wins_required() {
    let schema = one_field("a", true, FieldKind::PosInt);
    let r = decode("a = 1\na = 2\n", &schema).expect("decode failed");
    assert_eq!(r, vec![Some(IniValue::PosInt(2))]);
}

#[test]
fn test_duplicate_key_last_wins_optional() {
    let schema = one_field("a", false, FieldKind::PosInt);
    let r = decode("a = 1\na = 2\n", &schema).expect("decode failed");
    assert_eq!(r, vec![Some(IniValue::PosInt(2))]);
}

#[test]
fn test_first_wins_option() {
    let opts = ParseOptions {
        duplicate_keys: DuplicateKeys::FirstWins,
        empty_values: EmptyValues::Keep,
    };
    let doc = Document::parse_with("a = 1\na = 2\n", opts);
    let pair = doc.get("a").expect("key a missing");
    assert_eq!(pair.value, "1");
}

#[test]
fn test_drop_empty_values_option() {
    let opts = ParseOptions {
        duplicate_keys: DuplicateKeys::LastWins,
        empty_values: EmptyValues::Drop,
    };
    let doc = Document::parse_with("a =\n", opts);
    assert!(doc.get("a").is_none());
    // Under the canonical configuration the key is kept, present-less.
    let doc = Document::parse("a =\n");
    let pair = doc.get("a").expect("key a missing");
    assert!(!pair.present);
    assert_eq!(pair.value, "");
}

#[test]
fn test_invalid_field_value() {
    let schema = one_field("c", true, FieldKind::PosInt);
    let r = decode("c = hello\n", &schema);
    assert_eq!(
        r,
        Err(IniError::InvalidFieldValue(
            String::from("c"),
            String::from("hello")
        ))
    );
}

#[test]
fn test_wrong_variant_accessor() {
    let v = IniValue::PosInt(1);
    assert_eq!(
        v.as_bool(),
        Err(IniError::WrongVariant(IniKind::Bool, IniKind::PosInt))
    );
    assert_eq!(v.as_pos_int(), Ok(1));
    let b = IniValue::Bool(true);
    assert_eq!(b.as_bool(), Ok(true));
    assert_eq!(
        b.as_str(),
        Err(IniError::WrongVariant(IniKind::Str, IniKind::Bool))
    );
}

#[test]
fn test_misquoted_error_carries_token() {
    let r = IniValue::from_str("  'oops  ");
    assert_eq!(r, Err(IniError::MisquotedString(String::from("'oops"))));
}

#[test]
fn test_bad_numeric_error_carries_token() {
    let r = IniValue::from_str("-inf");
    assert_eq!(r, Err(IniError::BadNumericFormat(String::from("-inf"))));
    let r = IniValue::from_str("Infinity");
    assert_eq!(r, Err(IniError::BadNumericFormat(String::from("Infinity"))));
    let r = IniValue::from_str("nAn");
    assert_eq!(r, Err(IniError::BadNumericFormat(String::from("nAn"))));
}

#[test]
fn test_numeric_forms() {
    assert_eq!(IniValue::from_str("+5"), Ok(IniValue::PosInt(5)));
    assert_eq!(IniValue::from_str("5."), Ok(IniValue::PosInt(5)));
    assert_eq!(IniValue::from_str("1.0"), Ok(IniValue::PosInt(1)));
    assert_eq!(IniValue::from_str("-0"), Ok(IniValue::PosInt(0)));
    assert_eq!(IniValue::from_str(".5"), Ok(IniValue::Float(String::from(".5"))));
    assert_eq!(
        IniValue::from_str("-7.25"),
        Ok(IniValue::Float(String::from("-7.25")))
    );
    // A lone sign or dot is no number.
    assert_eq!(IniValue::from_str("-"), Ok(IniValue::Str(String::from("-"))));
    assert_eq!(IniValue::from_str("."), Ok(IniValue::Str(String::from("."))));
    // Exponent notation is outside the accepted numeric grammar.
    assert_eq!(IniValue::from_str("1e3"), Ok(IniValue::Str(String::from("1e3"))));
}

#[test]
fn test_integer_boundaries() {
    assert_eq!(
        IniValue::from_str("18446744073709551615"),
        Ok(IniValue::PosInt(u64::MAX))
    );
    assert_eq!(
        IniValue::from_str("18446744073709551616"),
        Ok(IniValue::Float(String::from("18446744073709551616")))
    );
    assert_eq!(
        IniValue::from_str("-9223372036854775808"),
        Ok(IniValue::NegInt(i64::MIN))
    );
    assert_eq!(
        IniValue::from_str("-9223372036854775809"),
        Ok(IniValue::Float(String::from("-9223372036854775809")))
    );
}

#[test]
fn test_quoted_forms() {
    assert_eq!(
        IniValue::from_str("'abc'"),
        Ok(IniValue::Str(String::from("abc")))
    );
    assert_eq!(IniValue::from_str("\"\""), Ok(IniValue::Str(String::new())));
    // A single quote character alone is misquoted, not an empty string.
    assert!(IniValue::from_str("\"").is_err());
    // The interior is kept verbatim, whitespace included.
    assert_eq!(
        IniValue::from_str("\" a b \""),
        Ok(IniValue::Str(String::from(" a b ")))
    );
}

#[test]
fn test_render_values() {
    assert_eq!(IniValue::Bool(true).to_ini(), "true");
    assert_eq!(IniValue::Bool(false).to_ini(), "false");
    assert_eq!(IniValue::PosInt(0).to_ini(), "0");
    assert_eq!(IniValue::PosInt(42).to_ini(), "42");
    assert_eq!(IniValue::NegInt(-7).to_ini(), "-7");
    assert_eq!(IniValue::NegInt(i64::MIN).to_ini(), "-9223372036854775808");
    assert_eq!(IniValue::Float(String::from("1.25")).to_ini(), "1.25");
    // Quoting is not re-applied on output.
    assert_eq!(IniValue::Str(String::from("a b")).to_ini(), "a b");
}

#[test]
fn test_extra_keys_ignored() {
    let schema = one_field("a", true, FieldKind::PosInt);
    let r = decode("a = 1\nz = 9\n", &schema).expect("decode failed");
    assert_eq!(r, vec![Some(IniValue::PosInt(1))]);
}

#[test]
fn test_line_without_separator_dropped() {
    let schema = one_field("a", true, FieldKind::PosInt);
    let r = decode("just some text\na = 1\n", &schema).expect("decode failed");
    assert_eq!(r, vec![Some(IniValue::PosInt(1))]);
}

#[test]
fn test_value_keeps_later_equals_signs() {
    // Only the first separator splits the line.
    let doc = Document::parse("a = x = y\n");
    let pair = doc.get("a").expect("key a missing");
    assert_eq!(pair.value, "x = y");
}

#[test]
fn test_document_render_round_trip() {
    let text = "b = 2\na = 1";
    let doc = Document::parse(text);
    assert_eq!(doc.to_ini(), text);
    // A present-less key renders as a bare separator and survives the
    // round trip.
    let doc = Document::parse("k =\n");
    assert_eq!(doc.to_ini(), "k =");
    let again = Document::parse(&doc.to_ini());
    let pair = again.get("k").expect("key k missing");
    assert!(!pair.present);
}

#[test]
fn test_encode_empty_schema() {
    let record: Vec<Option<IniValue>> = Vec::new();
    let schema: Vec<FieldSpec> = Vec::new();
    assert_eq!(encode(&record, &schema), "");
}

#[test]
fn test_optional_failure_reported_before_missing_required() {
    // Optional fields are resolved before required ones, so an invalid
    // optional value is reported even when a required field is missing.
    let schema = vec![
        FieldSpec { name: String::from("r"), required: true, kind: FieldKind::PosInt },
        FieldSpec { name: String::from("o"), required: false, kind: FieldKind::Bool },
    ];
    let r = decode("o = 3\n", &schema);
    assert_eq!(
        r,
        Err(IniError::InvalidFieldValue(
            String::from("o"),
            String::from("3")
        ))
    );
}
