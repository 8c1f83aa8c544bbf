use tuonelang::toml::{escape_string, parse, table_get};

#[test]
fn parses_a_manifest_shape() {
    let doc = parse(
        "[package]\nname = \"app\"\nversion = \"0.1.0\"\nedition = \"2024\"\n\n[modules]\nroot = \"src\"\n\n[dependencies]\nutil = { path = \"../util\" }\n",
    )
    .expect("valid manifest");
    let package = doc.table("package").expect("has [package]");
    assert_eq!(table_get(package, "name").and_then(|v| v.as_str()), Some("app"));
    assert_eq!(table_get(package, "edition").and_then(|v| v.as_str()), Some("2024"));
    let deps = doc.table("dependencies").expect("has [dependencies]");
    let util = table_get(deps, "util").and_then(|v| v.as_table()).expect("inline table");
    assert_eq!(table_get(util, "path").and_then(|v| v.as_str()), Some("../util"));
}

#[test]
fn parses_a_lockfile_shape() {
    let doc = parse(
        "version = 1\n\n[[package]]\nname = \"app\"\nversion = \"0.1.0\"\nsource = \"root\"\nchecksum = \"abcd\"\ndependencies = [\"util\"]\n\n[[package]]\nname = \"util\"\nversion = \"0.2.0\"\nsource = \"path+../util\"\nchecksum = \"ef01\"\ndependencies = []\n",
    )
    .expect("valid lockfile");
    assert_eq!(table_get(&doc.root, "version").and_then(|v| v.as_integer()), Some(1));
    let packages = doc.array_table("package");
    assert_eq!(packages.len(), 2);
    assert_eq!(table_get(&packages[0], "name").and_then(|v| v.as_str()), Some("app"));
    let deps = table_get(&packages[0], "dependencies").and_then(|v| v.as_array()).expect("array");
    assert_eq!(deps.len(), 1);
    assert_eq!(deps[0].as_str(), Some("util"));
    let none = table_get(&packages[1], "dependencies").and_then(|v| v.as_array()).expect("array");
    assert!(none.is_empty());
}

#[test]
fn rejects_unterminated_string() {
    let e = parse("name = \"oops").expect_err("unterminated");
    assert!(e.message.contains("unterminated string"), "{:?}", e);
}

#[test]
fn rejects_duplicate_table() {
    let e = parse("[a]\n[a]\n").expect_err("duplicate");
    assert!(e.message.contains("duplicate table"), "{:?}", e);
    assert_eq!(e.line, 2);
}

#[test]
fn rejects_value_outside_subset() {
    let e = parse("x = 1.5").expect_err("float unsupported");
    assert!(e.message.contains("not a supported value"), "{:?}", e);
}

#[test]
fn comments_and_blank_lines_are_ignored() {
    let doc = parse("# header\n\nx = 1 # trailing\n").expect("valid");
    assert_eq!(table_get(&doc.root, "x").and_then(|v| v.as_integer()), Some(1));
}

#[test]
fn a_hash_inside_a_string_is_not_a_comment() {
    let doc = parse("checksum = \"ab#cd\"\n").expect("valid");
    assert_eq!(table_get(&doc.root, "checksum").and_then(|v| v.as_str()), Some("ab#cd"));
}

#[test]
fn escape_string_escapes_quotes_and_backslashes() {
    assert_eq!(escape_string("plain"), "plain");
    assert_eq!(escape_string("a\"b\\c"), "a\\\"b\\\\c");
}

#[test]
fn duplicate_keys_in_a_table_are_rejected() {
    let e = parse("x = 1\nx = 2\n").expect_err("duplicate key");
    assert_eq!(e.line, 2);
}

#[test]
fn a_missing_equals_is_rejected() {
    assert!(parse("just words\n").is_err());
}

#[test]
fn an_empty_document_has_an_empty_root() {
    let doc = parse("").expect("empty is valid");
    assert!(doc.root.is_empty());
    assert!(doc.table("package").is_none());
    assert!(doc.array_table("package").is_empty());
}

#[test]
fn error_render_names_the_line() {
    let e = parse("[a]\n[a]\n").expect_err("duplicate");
    assert!(e.render().contains('2'));
}

#[test]
fn an_escaped_backslash_reads_back_as_one() {
    let s = "a\\b";
    let text = format!("k = \"{}\"\n", escape_string(s));
    assert_eq!(text, "k = \"a\\\\b\"\n");
    let doc = parse(&text).expect("parses");
    assert_eq!(table_get(&doc.root, "k").and_then(|v| v.as_str()), Some(s));
}

#[test]
fn an_escaped_quote_reads_back() {
    let s = "say \"hi\" # not a comment, \\ done";
    let text = format!("k = \"{}\"\nother = [\"{}\", \"x\"]\n", escape_string(s), escape_string(s));
    let doc = parse(&text).expect("parses");
    assert_eq!(table_get(&doc.root, "k").and_then(|v| v.as_str()), Some(s));
    let arr = table_get(&doc.root, "other").and_then(|v| v.as_array()).expect("array");
    assert_eq!(arr.len(), 2);
    assert_eq!(arr[0].as_str(), Some(s));
    assert_eq!(arr[1].as_str(), Some("x"));
}
