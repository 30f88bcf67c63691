use magebuild::json::Json;

#[test]
fn escapes_and_nests() {
    let v = Json::Obj(vec![
        ("name".into(), Json::s("a\"b\\c\nd")),
        ("n".into(), Json::Num(3)),
        ("ok".into(), Json::Bool(true)),
        ("list".into(), Json::Arr(vec![Json::s("x"), Json::Null])),
        ("empty".into(), Json::Arr(vec![])),
    ]);
    let out = v.to_pretty();
    assert!(out.contains("\"name\": \"a\\\"b\\\\c\\nd\""));
    assert!(out.contains("\"n\": 3"));
    assert!(out.contains("\"ok\": true"));
    assert!(out.contains("\"empty\": []"));
    assert!(out.ends_with("\n"));
}

#[test]
fn nesting_is_two_spaces_per_level() {
    let v = Json::Obj(vec![
        ("a".into(), Json::Arr(vec![Json::Num(0), Json::Obj(vec![("b".into(), Json::Bool(false))])])),
        ("e".into(), Json::Obj(vec![])),
    ]);
    assert_eq!(
        v.to_pretty(),
        "{\n  \"a\": [\n    0,\n    {\n      \"b\": false\n    }\n  ],\n  \"e\": {}\n}\n"
    );
}

#[test]
fn numbers_are_decimal() {
    assert_eq!(Json::Num(0).to_pretty(), "0\n");
    assert_eq!(Json::Num(1_200_034).to_pretty(), "1200034\n");
    assert_eq!(Json::Num(u128::MAX).to_pretty(), format!("{}\n", u128::MAX));
}

#[test]
fn control_characters_are_escaped() {
    assert_eq!(
        Json::s("\t\r\n\u{1}\u{1f}\u{b} é\u{7f}").to_pretty(),
        "\"\\t\\r\\n\\u0001\\u001f\\u000b é\u{7f}\"\n"
    );
    assert_eq!(Json::Null.to_pretty(), "null\n");
}

#[test]
fn depth_only_indents() {
    let value = || Json::Obj(vec![("k".into(), Json::Arr(vec![Json::s("a\nb"), Json::Obj(vec![])]))]);
    let top = value().to_pretty();
    assert_eq!(top, "{\n  \"k\": [\n    \"a\\nb\",\n    {}\n  ]\n}\n");
    let nested = Json::Arr(vec![value()]).to_pretty();
    assert_eq!(nested, format!("[\n  {}\n]\n", top.trim_end().replace('\n', "\n  ")));
}

#[test]
fn writing_deeper_indents_behind_line_breaks() {
    let v = Json::Arr(vec![Json::Num(1), Json::Arr(vec![])]);
    let mut out = String::from("x ");
    v.write(&mut out, 2);
    assert_eq!(out, "x [\n      1,\n      []\n    ]");
    let mut out = String::new();
    v.write(&mut out, 0);
    assert_eq!(out, "[\n  1,\n  []\n]");
    for flat in [Json::Null, Json::s("a\nb"), Json::Arr(vec![]), Json::Obj(vec![])] {
        let (mut top, mut deep) = (String::new(), String::new());
        flat.write(&mut top, 0);
        flat.write(&mut deep, 7);
        assert_eq!(top, deep);
    }
}

#[test]
fn a_copy_prints_the_same() {
    let v = Json::Obj(vec![("k".into(), Json::Arr(vec![Json::s("a"), Json::Bool(true), Json::Null]))]);
    assert_eq!(v.clone().to_pretty(), v.to_pretty());
}
