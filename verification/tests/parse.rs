use tempkeys::parse::{
    check_entries, entries_of_json, parse_env, parse_json, parse_keyset, unquote, valid_name,
};
use tempkeys::secret::Secret;

fn names(input: &str) -> Vec<(String, String)> {
    plain(parse_keyset(input).unwrap())
}

fn plain(list: Vec<(String, Secret)>) -> Vec<(String, String)> {
    list.into_iter()
        .map(|(k, v)| (k, String::from_utf8(v.0.clone()).unwrap()))
        .collect()
}

fn pair(k: &str, v: &str) -> (String, String) {
    (k.to_string(), v.to_string())
}

fn error(input: &str) -> String {
    match parse_keyset(input) {
        Ok(_) => panic!("accepted {input:?}"),
        Err(e) => e,
    }
}

#[test]
fn dotenv() {
    let got = names("# c\nA=1\nexport B=\"two words\"\n\nC='x=y'\n");
    assert_eq!(
        got,
        [("A", "1"), ("B", "two words"), ("C", "x=y")]
            .map(|(k, v)| (k.to_string(), v.to_string()))
    );
}

#[test]
fn json() {
    assert_eq!(
        names(r#"{"A":"1"}"#),
        vec![("A".to_string(), "1".to_string())]
    );
    assert!(parse_keyset(r#"{"A":1}"#).is_err());
}

#[test]
fn rejects() {
    assert!(parse_keyset("A=1\nA=2").is_err());
    assert!(parse_keyset("1A=x").is_err());
    assert!(parse_keyset("A=").is_err());
    assert!(parse_keyset("# only a comment").is_err());
}

#[test]
fn keyset_errors_are_exact() {
    assert_eq!(error("A=1\nB=2\nA=3"), "duplicate key A");
    assert_eq!(
        error("1A=x"),
        "invalid key name \"1A\" (use letters, digits, underscore)"
    );
    assert_eq!(
        error("a\"b=x"),
        "invalid key name \"a\\\"b\" (use letters, digits, underscore)"
    );
    assert_eq!(
        error("A=''"),
        "A: empty values are not supported by kernel user keys"
    );
    assert_eq!(error(""), "keyset is empty");
    assert_eq!(error("{}"), "keyset is empty");
    assert_eq!(error("A=1\n\nnot an entry"), "line 3: expected KEY=VALUE");
    // The name is looked at before the value, and the value before the duplicate.
    assert_eq!(error("A=1\nA="), "A: empty values are not supported by kernel user keys");
}

#[test]
fn json_errors_are_exact() {
    assert_eq!(error("{\"A\":\"x\",\"B\":[1]}"), "B: JSON values must be strings");
    assert!(error("{\"A\":").starts_with("bad JSON: EOF while parsing"));
    // White space that JSON does not know still opens an object.
    assert_eq!(error("\u{a0}{}"), "bad JSON: expected value at line 1 column 1");
    assert!(error(" {oops}").starts_with("bad JSON: key must be a string"));
    match parse_json("[1]") {
        Ok(_) => panic!("a list was accepted"),
        Err(e) => assert_eq!(e, "JSON keyset must be an object"),
    }
}

#[test]
fn json_comes_sorted_and_the_last_of_two_counts() {
    assert_eq!(
        names("\t\n {\"B\":\"2\",\"A\":\"1\",\"B\":\"3\\n\"}"),
        vec![pair("A", "1"), pair("B", "3\n")]
    );
    assert_eq!(
        names("{\"A\":\"\\u00e9\u{1f511}\"}"),
        vec![pair("A", "\u{e9}\u{1f511}")]
    );
}

#[test]
fn json_report_becomes_entries() {
    let fields = vec![
        ("A".to_string(), Some("é".to_string())),
        ("B".to_string(), Some(String::new())),
    ];
    let got = entries_of_json(Ok(Some(fields))).unwrap();
    assert_eq!(plain(got), vec![pair("A", "é"), pair("B", "")]);
    assert!(entries_of_json(Ok(None)).is_err());
    match entries_of_json(Err("why".to_string())) {
        Ok(_) => panic!("an error was accepted"),
        Err(e) => assert_eq!(e, "bad JSON: why"),
    }
    match entries_of_json(Ok(Some(vec![("N".to_string(), None)]))) {
        Ok(_) => panic!("a field without text was accepted"),
        Err(e) => assert_eq!(e, "N: JSON values must be strings"),
    }
}

#[test]
fn dotenv_details() {
    assert_eq!(
        plain(parse_env("\r\n  export  A = ' x ' \r\nB=\"\nC==\nexportD=1\n#E=1").unwrap()),
        vec![
            pair("A", " x "),
            pair("B", "\""),
            pair("C", "="),
            pair("exportD", "1"),
        ]
    );
    // Only the last line may lack its line feed; a lone carriage return ends none.
    assert_eq!(plain(parse_env("A=1\rB=2").unwrap()), vec![pair("A", "1\rB=2")]);
}

#[test]
fn quoted_values_are_literal() {
    for value in ["$HOME \\n #x", "\"", "'", "a=b", " spaces ", "é\r", "\\"] {
        let line = format!("K=\"{value}\"\n");
        assert_eq!(names(&line), vec![pair("K", value)], "{value:?}");
    }
}

#[test]
fn one_pair_of_quotes_is_stripped() {
    assert_eq!(unquote("\"\""), "");
    assert_eq!(unquote("''x''"), "'x'");
    assert_eq!(unquote("\"x'"), "\"x'");
    assert_eq!(unquote("\""), "\"");
    assert_eq!(unquote(""), "");
}

#[test]
fn names_are_those_of_variables() {
    assert!(valid_name("_a9"));
    assert!(valid_name("A"));
    assert!(!valid_name(""));
    assert!(!valid_name("9a"));
    assert!(!valid_name("a-b"));
    assert!(!valid_name("é"));
}

#[test]
fn entries_that_make_a_keyset_stay() {
    let list = vec![
        ("A".to_string(), Secret(vec![0, 255])),
        ("B".to_string(), Secret(vec![1])),
    ];
    let got = check_entries(list).unwrap();
    assert_eq!(got.len(), 2);
    assert_eq!(got[0].0, "A");
    assert_eq!(got[0].1 .0, vec![0, 255]);
    assert!(check_entries(Vec::new()).is_err());
}
