use dcsv::{Reader, Value, ValueLimiter, ValueType};

fn t(s: &str) -> Value {
    Value::Text(s.to_string())
}

fn variant_limiter() -> ValueLimiter {
    ValueLimiter::from_line(&[
        "text".to_string(),
        "x".to_string(),
        "x y".to_string(),
        String::new(),
    ])
    .expect("variant limiter should build")
}

#[test]
fn value_types_parse_case_insensitively() {
    assert_eq!(ValueType::from_str("Number").expect("parse"), ValueType::Number);
    assert_eq!(ValueType::from_str("TEXT").expect("parse"), ValueType::Text);
    assert!(matches!(
        ValueType::from_str("decimal"),
        Err(dcsv::DcsvError::InvalidValueType(_))
    ));
    assert_eq!(ValueType::Number.to_string(), "Number");
    assert_eq!(ValueType::Text.to_string(), "Text");
}

#[test]
fn values_parse_and_render() {
    assert_eq!(
        Value::from_str("42", ValueType::Number).expect("parse"),
        Value::Number(42)
    );
    assert_eq!(
        Value::from_str("-7", ValueType::Number).expect("parse"),
        Value::Number(-7)
    );
    assert_eq!(
        Value::from_str("", ValueType::Number).expect("empty is zero"),
        Value::Number(0)
    );
    assert!(matches!(
        Value::from_str("4x", ValueType::Number),
        Err(dcsv::DcsvError::InvalidValueType(_))
    ));
    assert_eq!(
        Value::from_str("9223372036854775807", ValueType::Number).expect("max fits"),
        Value::Number(i64::MAX)
    );
    assert_eq!(
        Value::from_str("-9223372036854775808", ValueType::Number).expect("min fits"),
        Value::Number(i64::MIN)
    );
    assert!(Value::from_str("9223372036854775808", ValueType::Number).is_err());
    assert_eq!(Value::Number(-15).to_string(), "-15");
    assert_eq!(Value::Number(0).to_string(), "0");
    assert_eq!(t("plain").to_string(), "plain");
    assert_eq!(Value::empty(ValueType::Number), Value::Number(0));
    assert_eq!(Value::empty(ValueType::Text), t(""));
    assert_eq!(Value::Number(3).get_type(), ValueType::Number);
    assert_eq!(t("s").get_type(), ValueType::Text);
}

#[test]
fn variant_limiter_accepts_exactly_its_values() {
    let limiter = variant_limiter();
    assert!(limiter.qualify(&t("x")));
    assert!(limiter.qualify(&t("y")));
    assert!(!limiter.qualify(&t("z")));
    assert!(!limiter.qualify(&Value::Number(1)));
}

#[test]
fn pattern_limiter_uses_regex() {
    let limiter = ValueLimiter::from_line(&[
        "text".to_string(),
        "ab".to_string(),
        String::new(),
        "^a+b$".to_string(),
    ])
    .expect("pattern limiter should build");
    assert!(limiter.qualify(&t("aaab")));
    assert!(!limiter.qualify(&t("ba")));
    assert_eq!(limiter.get_pattern().expect("pattern").as_str(), "^a+b$");
}

#[test]
fn limiter_schema_rules_are_enforced() {
    assert!(matches!(
        ValueLimiter::from_line(&["text".to_string()]),
        Err(dcsv::DcsvError::InvalidRowData(_))
    ));
    assert!(matches!(
        ValueLimiter::from_line(&[
            "text".to_string(),
            String::new(),
            "x y".to_string(),
            String::new(),
        ]),
        Err(dcsv::DcsvError::InvalidLimiter(_))
    ));
    assert!(matches!(
        ValueLimiter::from_line(&[
            "text".to_string(),
            "z".to_string(),
            "x y".to_string(),
            String::new(),
        ]),
        Err(dcsv::DcsvError::InvalidLimiter(_))
    ));
    assert!(matches!(
        ValueLimiter::from_line(&[
            "number".to_string(),
            "one".to_string(),
            String::new(),
            String::new(),
        ]),
        Err(dcsv::DcsvError::InvalidValueType(_))
    ));
    assert!(matches!(
        ValueLimiter::from_line(&[
            "number".to_string(),
            "1".to_string(),
            "1 x".to_string(),
            String::new(),
        ]),
        Err(dcsv::DcsvError::InvalidValueType(_))
    ));
}

#[test]
fn number_schema_round_trips() {
    let limiter = ValueLimiter::from_line(&[
        "number".to_string(),
        "2".to_string(),
        "1 2 3".to_string(),
        String::new(),
    ])
    .expect("number variant limiter builds");
    assert!(limiter.qualify(&Value::Number(3)));
    assert!(!limiter.qualify(&Value::Number(4)));
    let mut reader = Reader::new();
    let mut data = reader.data_from_bytes(b"n\n1").expect("read");
    data.set_limiter(0, &limiter, true).expect("convertible");
    let schema = data.export_schema();
    assert_eq!(schema, "column,type,default,variant,pattern\nn,Number,2,1 2 3,\n");
    let line: Vec<String> = schema
        .lines()
        .nth(1)
        .expect("one schema line")
        .split(',')
        .skip(1)
        .map(|s| s.to_string())
        .collect();
    let rebuilt = ValueLimiter::from_line(&line).expect("schema reimports");
    assert!(rebuilt.qualify(&Value::Number(1)));
    assert!(!rebuilt.qualify(&Value::Number(9)));
    assert_eq!(rebuilt.get_default(), Some(&Value::Number(2)));
}

#[test]
fn is_convertible_checks_reinterpretation() {
    let number_limiter = ValueLimiter::from_line(&[
        "number".to_string(),
        String::new(),
        String::new(),
        String::new(),
    ])
    .expect("build");
    assert_eq!(number_limiter.is_convertible(&t("12")), Some(ValueType::Number));
    assert_eq!(number_limiter.is_convertible(&t("")), Some(ValueType::Number));
    assert_eq!(number_limiter.is_convertible(&t("abc")), None);
    assert_eq!(
        number_limiter.is_convertible(&Value::Number(3)),
        Some(ValueType::Number)
    );
}

#[test]
fn limited_column_rejects_outside_values() {
    let mut reader = Reader::new();
    let mut data = reader.data_from_bytes(b"k\nx").expect("read");
    let limiter = variant_limiter();
    data.set_limiter(0, &limiter, true).expect("existing cell qualifies");
    assert!(matches!(
        data.set_cell(0, 0, t("z")),
        Err(dcsv::DcsvError::InvalidCellData(_))
    ));
    data.set_cell(0, 0, t("y")).expect("listed value accepted");
    assert!(matches!(
        data.insert_row(1, Some(&[t("q")])),
        Err(dcsv::DcsvError::InvalidRowData(_))
    ));
    data.insert_row(1, Some(&[t("x")])).expect("listed value accepted");
    data.insert_row(2, None).expect("default row uses limiter default");
    assert_eq!(data.get_cell(2, 0).expect("cell").to_string(), "x");
}

#[test]
fn strict_set_limiter_aborts_without_writing() {
    let mut reader = Reader::new();
    let mut data = reader.data_from_bytes(b"k\nz").expect("read");
    let limiter = variant_limiter();
    assert!(matches!(
        data.set_limiter(0, &limiter, true),
        Err(dcsv::DcsvError::InvalidCellData(_))
    ));
    assert_eq!(data.get_cell(0, 0).expect("cell").to_string(), "z");
}

#[test]
fn lenient_set_limiter_replaces_with_default() {
    let mut reader = Reader::new();
    let mut data = reader.data_from_bytes(b"k\nz\ny").expect("read");
    let limiter = variant_limiter();
    data.set_limiter(0, &limiter, false).expect("lenient never aborts");
    assert_eq!(data.get_cell(0, 0).expect("cell").to_string(), "x");
    assert_eq!(data.get_cell(1, 0).expect("cell").to_string(), "y");
}

#[test]
fn set_limiter_converts_numbers() {
    let mut reader = Reader::new();
    let mut data = reader.data_from_bytes(b"k\n007").expect("read");
    let limiter = ValueLimiter::from_line(&[
        "number".to_string(),
        String::new(),
        String::new(),
        String::new(),
    ])
    .expect("build");
    data.set_limiter(0, &limiter, true).expect("convertible");
    assert_eq!(data.get_cell(0, 0).expect("cell"), &Value::Number(7));
}

#[test]
fn qualify_filters_rows() {
    let mut reader = Reader::new();
    let data = reader.data_from_bytes(b"k,v\nx,1\nz,2\ny,3").expect("read");
    let limiter = variant_limiter();
    let rows = data.qualify(0, &limiter).expect("qualify");
    assert_eq!(rows.len(), 2);
    let multi = data.qualify_multiple(vec![(0, &limiter)]).expect("qualify");
    assert_eq!(multi.len(), 2);
}

#[test]
fn schema_exports_losslessly() {
    let mut reader = Reader::new();
    let mut data = reader.data_from_bytes(b"k\nx").expect("read");
    let limiter = variant_limiter();
    data.set_limiter(0, &limiter, true).expect("set limiter");
    let schema = data.export_schema();
    assert_eq!(schema, "column,type,default,variant,pattern\nk,Text,x,x y,\n");
    let line: Vec<String> = schema
        .lines()
        .nth(1)
        .expect("one schema line")
        .split(',')
        .skip(1)
        .map(|s| s.to_string())
        .collect();
    let rebuilt = ValueLimiter::from_line(&line).expect("schema reimports");
    assert!(rebuilt.qualify(&t("y")));
    assert!(!rebuilt.qualify(&t("z")));
}

#[test]
fn limiter_setters_validate_defaults() {
    let mut limiter = ValueLimiter::default();
    assert!(matches!(
        limiter.set_variant(t("c"), &[t("a"), t("b")]),
        Err(dcsv::DcsvError::InvalidLimiter(_))
    ));
    limiter.set_variant(t("a"), &[t("a"), t("b")]).expect("member default");
    assert_eq!(limiter.get_default(), Some(&t("a")));
    assert_eq!(limiter.get_variant().expect("variant").len(), 2);
    let mut patterned = ValueLimiter::default();
    assert!(matches!(
        patterned.set_pattern(t("xyz"), "^a$"),
        Err(dcsv::DcsvError::InvalidLimiter(_))
    ));
    patterned.set_pattern(t("a"), "^a$").expect("matching default");
    assert!(patterned.qualify(&t("a")));
    assert_eq!(patterned.get_type(), ValueType::Text);
}
