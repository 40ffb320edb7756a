use pulse_pyhocon::document::{float_tokens, parse_document, resolve_document};
use pulse_pyhocon::inclusion::{IncludeEntry, IncludeTable};
use pulse_pyhocon::lexer::HoconError;
use pulse_pyhocon::merge::merge_into;
use pulse_pyhocon::parser::Parser;
use pulse_pyhocon::resolve::{int_to_string, join_path, resolve_node, ResolveError};
use pulse_pyhocon::value::Value;

fn resolved(s: &str) -> Value {
    let t = Parser::new(s).parse_root().unwrap();
    let mut st = Vec::new();
    resolve_node(&t, &t, &mut st, &Vec::new(), &Vec::new()).unwrap().unwrap()
}

fn get<'a>(v: &'a Value, k: &str) -> &'a Value {
    match v {
        Value::Obj(m) => &m.iter().find(|(kk, _)| kk == k).unwrap().1,
        _ => panic!(),
    }
}

fn keys(v: &Value) -> Vec<String> {
    match v {
        Value::Obj(m) => m.iter().map(|(k, _)| k.clone()).collect(),
        _ => panic!(),
    }
}

fn parsed(s: &str) -> Result<Value, HoconError> {
    Parser::new(s).parse_root()
}

fn resolve_with(s: &str, env: Vec<(String, String)>, floats: Vec<(String, Option<String>)>) -> Result<Value, ResolveError> {
    let t = parsed(s).unwrap();
    resolve_document(&t, &env, &floats)
}

fn str_of(v: &Value) -> &str {
    match v {
        Value::Str(s) => s.as_str(),
        _ => panic!("not a string"),
    }
}

// ---------- the original's tests ----------

#[test]
fn obj_concat_merge() {
    let v = resolved("o1={x=1}\no2={y=2}\nm=${o1}${o2}");
    assert!(matches!(get(&v, "m"), Value::Obj(m) if m.len() == 2));
}

#[test]
fn obj_literal_merge_override() {
    let v = resolved("m = {x=1} {x=9, y=2}");
    if let Value::Obj(m) = get(&v, "m") {
        assert!(matches!(m.iter().find(|(k, _)| k == "x").unwrap().1, Value::Int(9)));
        assert_eq!(m.len(), 2);
    } else {
        panic!()
    }
}

#[test]
fn array_concat() {
    let v = resolved("a1=[1,2]\na2=[3,4]\nc=${a1}${a2}");
    assert!(matches!(get(&v, "c"), Value::Arr(a) if a.len() == 4));
}

#[test]
fn array_literal_concat() {
    assert!(matches!(get(&resolved("c = [1] [2] [3]"), "c"), Value::Arr(a) if a.len() == 3));
}

#[test]
fn mixed_obj_scalar_wrongtype() {
    let t = Parser::new("o={x=1}\nm=${o} foo").parse_root().unwrap();
    let mut st = Vec::new();
    assert!(matches!(resolve_node(&t, &t, &mut st, &Vec::new(), &Vec::new()), Err(ResolveError::WrongType(_))));
}

#[test]
fn subst_type_preserved_and_string_concat() {
    assert!(matches!(get(&resolved("a=5\nb=${a}"), "b"), Value::Int(5)));
    assert!(matches!(get(&resolved("h=host\nu=\"http://\"${h}"), "u"), Value::Str(s) if s == "http://host"));
}

// ---------- scalars ----------

#[test]
fn scalars_are_typed() {
    let v = resolved("a = TRUE\nb = false\nc = NuLl\nd = -42\ne = +7\nf = 1.5\ng = 1e3\nh = hello world\ni = 99999999999999999999");
    assert!(matches!(get(&v, "a"), Value::Bool(true)));
    assert!(matches!(get(&v, "b"), Value::Bool(false)));
    assert!(matches!(get(&v, "c"), Value::Null));
    assert!(matches!(get(&v, "d"), Value::Int(-42)));
    assert!(matches!(get(&v, "e"), Value::Int(7)));
    assert!(matches!(get(&v, "f"), Value::Float(s) if s == "1.5"));
    assert!(matches!(get(&v, "g"), Value::Float(s) if s == "1e3"));
    assert_eq!(str_of(get(&v, "h")), "hello world");
    assert!(matches!(get(&v, "i"), Value::BigInt(s) if s == "99999999999999999999"));
}

#[test]
fn i64_bounds() {
    let v = resolved("a = 9223372036854775807\nb = -9223372036854775808\nc = 9223372036854775808");
    assert!(matches!(get(&v, "a"), Value::Int(i64::MAX)));
    assert!(matches!(get(&v, "b"), Value::Int(i64::MIN)));
    assert!(matches!(get(&v, "c"), Value::BigInt(s) if s == "9223372036854775808"));
}

#[test]
fn not_floats() {
    let v = resolved("a = 1.\nb = .5\nc = 1e\nd = 1.e5");
    assert_eq!(str_of(get(&v, "a")), "1.");
    assert!(matches!(get(&v, "b"), Value::Float(s) if s == ".5"));
    assert_eq!(str_of(get(&v, "c")), "1e");
    assert!(matches!(get(&v, "d"), Value::Float(s) if s == "1.e5"));
}

#[test]
fn int_rendering() {
    assert_eq!(int_to_string(0), "0");
    assert_eq!(int_to_string(-9223372036854775808), "-9223372036854775808");
    assert_eq!(int_to_string(1234), "1234");
}

// ---------- keys, comments, merges ----------

#[test]
fn dotted_keys_nest() {
    let v = resolved("a.b.c = 1\na.b.d = 2");
    let b = get(get(&v, "a"), "b");
    assert_eq!(keys(b), vec!["c".to_string(), "d".to_string()]);
}

#[test]
fn quoted_key_is_literal() {
    let v = resolved("\"a\" = 1\nb { \"c\" : 2 }");
    assert!(matches!(get(&v, "a"), Value::Int(1)));
    assert!(matches!(get(get(&v, "b"), "c"), Value::Int(2)));
    assert!(matches!(parsed("\"a.b\" = 1"), Err(HoconError::Unsupported(_))));
}

#[test]
fn later_value_overrides() {
    let v = resolved("a = 1\nb = 2\na = 3");
    assert_eq!(keys(&v), vec!["a".to_string(), "b".to_string()]);
    assert!(matches!(get(&v, "a"), Value::Int(3)));
}

#[test]
fn objects_merge_deeply() {
    let v = resolved("a { x = 1, y { p = 1 } }\na { y { q = 2 }, z = 3 }");
    let a = get(&v, "a");
    assert_eq!(keys(a), vec!["x".to_string(), "y".to_string(), "z".to_string()]);
    assert_eq!(keys(get(a, "y")), vec!["p".to_string(), "q".to_string()]);
}

#[test]
fn keys_are_never_repeated() {
    let src = "a = 1\nb.c = 1\nb { c = 2, d = 3 }\na = 4\nb.d.e = 5\nm = {x = 1} {x = 2} {y = 3}";
    let t = parsed(src).unwrap();
    assert_eq!(keys(&t), vec!["a".to_string(), "b".to_string(), "m".to_string()]);
    assert_eq!(keys(get(&t, "b")), vec!["c".to_string(), "d".to_string()]);
    let v = resolve_document(&t, &Vec::new(), &Vec::new()).unwrap();
    assert_eq!(keys(&v), vec!["a".to_string(), "b".to_string(), "m".to_string()]);
    assert_eq!(keys(get(&v, "b")), vec!["c".to_string(), "d".to_string()]);
    assert_eq!(keys(get(&v, "m")), vec!["x".to_string(), "y".to_string()]);
    assert!(matches!(get(get(&v, "m"), "x"), Value::Int(2)));
}

#[test]
fn string_concatenation_is_trimmed() {
    let v = resolved("s = \" a\"  \"b \"  c  \nq = \"  kept  \"");
    assert_eq!(str_of(get(&v, "s")), "a  b   c");
    assert_eq!(str_of(get(&v, "q")), "  kept  ");
}

#[test]
fn merge_into_direct() {
    let mut m: Vec<(String, Value)> = Vec::new();
    merge_into(&mut m, "a".to_string(), Value::Int(1));
    merge_into(&mut m, "a".to_string(), Value::Int(2));
    assert_eq!(m.len(), 1);
    assert!(matches!(m[0].1, Value::Int(2)));
}

#[test]
fn comments_and_separators() {
    let v = resolved("# comment\na = 1 // trailing\n, b = http://x/y#z, c = a//b");
    assert!(matches!(get(&v, "a"), Value::Int(1)));
    assert_eq!(str_of(get(&v, "b")), "http://x/y#z");
    assert_eq!(str_of(get(&v, "c")), "a//b");
}

#[test]
fn braced_root_reads_like_unbraced() {
    let s = "a = 1\nb { c = [x, \"y\"] } # end\nd = ${a} z // note";
    let plain = parsed(s).unwrap();
    let braced = parsed(&format!("{{\n{}\n}}", s)).unwrap();
    assert_eq!(format!("{:?}", plain), format!("{:?}", braced));
}

#[test]
fn braced_root() {
    let v = resolved("{ a = 1 }");
    assert!(matches!(get(&v, "a"), Value::Int(1)));
    assert!(matches!(parsed("{ a = 1 } b = 2"), Err(HoconError::Parse(_))));
}

#[test]
fn quoted_escapes() {
    let v = resolved("a = \"x\\ny\\tz\\q\\\"\"");
    assert_eq!(str_of(get(&v, "a")), "x\ny\tz\\q\"");
}

// ---------- parse errors and unsupported input ----------

#[test]
fn parse_errors() {
    assert!(matches!(parsed("a { b = 1"), Err(HoconError::Parse(_))));
    assert!(matches!(parsed("a = [1, 2"), Err(HoconError::Parse(_))));
    assert!(matches!(parsed("a = \"x"), Err(HoconError::Parse(_))));
    assert!(matches!(parsed("a = ${x"), Err(HoconError::Parse(_))));
    assert!(matches!(parsed("a b"), Err(HoconError::Parse(_))));
    assert!(matches!(parsed("= 1"), Err(HoconError::Parse(_))));
}

fn parse_message(s: &str) -> String {
    match parsed(s) {
        Err(HoconError::Parse(m)) => m,
        other => panic!("not a parse error: {:?}", other),
    }
}

#[test]
fn error_messages() {
    assert_eq!(parse_message("a { b = 1"), "missing '}'");
    assert_eq!(parse_message("a = [1, 2"), "missing ']'");
    assert_eq!(parse_message("a = \"x"), "missing closing quote");
    assert_eq!(parse_message("a = \"x\\"), "incomplete escape");
    assert_eq!(parse_message("a = ${x"), "missing '}' in substitution");
    assert_eq!(parse_message("a b"), "expected '=' or ':' after the key, got Some('b')");
    assert_eq!(parse_message("a"), "expected '=' or ':' after the key, got None");
    assert_eq!(parse_message("= 1"), "empty key");
    assert_eq!(parse_message("{ a = 1 } b"), "content after the root object");
    match resolve_with("a = ${nope}", Vec::new(), Vec::new()) {
        Err(ResolveError::Subst(m)) => assert_eq!(m, "Cannot resolve variable ${nope}"),
        other => panic!("{:?}", other),
    }
    match resolve_with("a = ${b}\nb = ${a}", Vec::new(), Vec::new()) {
        Err(ResolveError::Subst(m)) => assert_eq!(m, "circular substitution ${b}"),
        other => panic!("{:?}", other),
    }
    match resolve_with("o = {x = 1}\ns = ${o} z", Vec::new(), Vec::new()) {
        Err(ResolveError::WrongType(m)) => assert_eq!(m, "object/array not allowed in a string concatenation"),
        other => panic!("{:?}", other),
    }
}

#[test]
fn unsupported_inputs() {
    assert!(matches!(parsed("a += 1"), Err(HoconError::Unsupported(_))));
    assert!(matches!(parsed("a+=1"), Err(HoconError::Unsupported(_))));
    assert!(matches!(parsed("a = \n"), Err(HoconError::Unsupported(_))));
    assert!(matches!(parsed("a = # c\nb=1"), Err(HoconError::Unsupported(m)) if m == "empty value"));
    assert!(matches!(parsed("a = // c\nb=1"), Err(HoconError::Unsupported(m)) if m == "empty value"));
    assert!(matches!(parsed("a : #c"), Err(HoconError::Unsupported(m)) if m == "empty value"));
    assert!(matches!(parsed("a = x true"), Err(HoconError::Unsupported(_))));
    assert!(matches!(parsed("a = \"x\" true"), Err(HoconError::Unsupported(_))));
}

// ---------- substitutions ----------

#[test]
fn substitution_chains_and_forward_refs() {
    let v = resolved("a = ${b}\nb = ${c}\nc = 3\nd { e = ${a} }");
    assert!(matches!(get(&v, "a"), Value::Int(3)));
    assert!(matches!(get(get(&v, "d"), "e"), Value::Int(3)));
}

#[test]
fn dotted_substitution_path() {
    let v = resolved("x { y { z = deep } }\na = ${ x . y . z }");
    assert_eq!(str_of(get(&v, "a")), "deep");
}

#[test]
fn optional_substitution_omitted() {
    let v = resolved("a = ${?missing}\nb = 1\nc = ${?m1}${?m2}");
    assert_eq!(keys(&v), vec!["b".to_string()]);
}

#[test]
fn substitution_to_null_drops_key() {
    let v = resolved("n = null\na = ${n}\nb = [${n}]");
    assert_eq!(keys(&v), vec!["n".to_string(), "b".to_string()]);
    assert!(matches!(get(&v, "b"), Value::Arr(a) if a.len() == 1 && matches!(a[0], Value::Null)));
}

#[test]
fn env_fallback() {
    let env = vec![("HOME_DIR".to_string(), "/home/x".to_string())];
    let v = resolve_with("p = ${HOME_DIR}\"/bin\"", env, Vec::new()).unwrap();
    assert_eq!(str_of(get(&v, "p")), "/home/x/bin");
}

#[test]
fn undefined_and_circular_substitutions() {
    assert!(matches!(resolve_with("a = ${nope}", Vec::new(), Vec::new()), Err(ResolveError::Subst(_))));
    assert!(matches!(resolve_with("a = ${b}\nb = ${a}", Vec::new(), Vec::new()), Err(ResolveError::Subst(_))));
}

#[test]
fn string_concat_renders_scalars() {
    let v = resolved("t = true\nf = FALSE\ni = -3\nn = null\ns = x ${t} ${f} ${i} ${n}!");
    assert_eq!(str_of(get(&v, "s")), "x True False -3 !");
}

#[test]
fn float_rendering_comes_from_the_table() {
    let src = "f = 2.5\ng = 1e300\ns = ${f} ok\nt = ${g} ko";
    let t = parsed(src).unwrap();
    let toks = float_tokens(&t);
    assert_eq!(toks, vec!["2.5".to_string(), "1e300".to_string()]);
    let floats = vec![("2.5".to_string(), Some("2.5".to_string())), ("1e300".to_string(), None)];
    assert!(matches!(resolve_document(&t, &Vec::new(), &floats), Err(ResolveError::Fallback(_))));
    let ok = resolve_with("f = 2.5\ns = ${f} ok", Vec::new(), vec![("2.5".to_string(), Some("2.5".to_string()))]).unwrap();
    assert_eq!(str_of(get(&ok, "s")), "2.5 ok");
}

#[test]
fn self_reference_uses_previous_value() {
    let v = resolved("path = /usr\npath = ${path}\":/usr/bin\"");
    assert_eq!(str_of(get(&v, "path")), "/usr:/usr/bin");
    let a = resolved("a = [1]\na = ${a} [2]");
    assert!(matches!(get(&a, "a"), Value::Arr(x) if x.len() == 2));
    let o = resolved("o { x = 1 }\no = ${o} { y = 2 }");
    assert_eq!(keys(get(&o, "o")), vec!["x".to_string(), "y".to_string()]);
}

#[test]
fn join_of_path() {
    let p = vec!["a".to_string(), "b".to_string(), "c".to_string()];
    assert_eq!(join_path(&p), "a.b.c");
}

#[test]
fn resolved_tree_resolves_to_itself() {
    let t = parsed("a = 1\nb { c = [x, y], d = \"q\" }").unwrap();
    let r = resolve_document(&t, &Vec::new(), &Vec::new()).unwrap();
    let r2 = resolve_document(&r, &Vec::new(), &Vec::new()).unwrap();
    assert_eq!(format!("{:?}", r), format!("{:?}", r2));
}

// ---------- inclusions ----------

fn entry(base: &str, path: &str, content: Option<&str>, dir: &str) -> IncludeEntry {
    IncludeEntry {
        base: base.to_string(),
        path: path.to_string(),
        content: content.map(|c| c.to_string()),
        dir: dir.to_string(),
    }
}

#[test]
fn inclusion_needs_then_merges_file() {
    let src = "a = 1\ninclude \"other.conf\"\nc = 3";
    let mut table = IncludeTable::new();
    match parse_document(src, &"conf".to_string(), &table) {
        Err(HoconError::NeedFile { base, path }) => {
            assert_eq!(base, "conf");
            assert_eq!(path, "other.conf");
        },
        _ => panic!(),
    }
    table.add(entry("conf", "other.conf", Some("a = 9\nb = 2"), "conf"));
    let v = parse_document(src, &"conf".to_string(), &table).unwrap();
    assert_eq!(keys(&v), vec!["a".to_string(), "b".to_string(), "c".to_string()]);
    assert!(matches!(get(&v, "a"), Value::Int(9)));
}

#[test]
fn more_files_change_nothing_that_was_read() {
    let src = "a = 1\ninclude \"x.conf\"";
    let mut table = IncludeTable::new();
    table.add(entry("", "x.conf", Some("b = 2"), ""));
    let before = parse_document(src, &String::new(), &table).unwrap();
    table.add(entry("", "y.conf", Some("c = 3"), ""));
    table.add(entry("", "x.conf", Some("d = 4"), ""));
    let after = parse_document(src, &String::new(), &table).unwrap();
    assert_eq!(format!("{:?}", before), format!("{:?}", after));
    assert_eq!(keys(&after), vec!["a".to_string(), "b".to_string()]);
    match parse_document("include \"y.conf\"\ninclude \"z.conf\"", &String::new(), &table) {
        Err(HoconError::NeedFile { base, path }) => {
            assert_eq!(base, "");
            assert_eq!(path, "z.conf");
            assert_eq!(table.find(&base, &path), None);
        },
        _ => panic!(),
    }
}

#[test]
fn missing_inclusions() {
    let mut table = IncludeTable::new();
    table.add(entry("", "gone.conf", None, ""));
    let v = parse_document("include \"gone.conf\"\na = 1", &String::new(), &table).unwrap();
    assert_eq!(keys(&v), vec!["a".to_string()]);
    match parse_document("include required(\"gone.conf\")", &String::new(), &table) {
        Err(HoconError::FileNotFound(p)) => assert_eq!(p, "gone.conf"),
        _ => panic!(),
    }
}

#[test]
fn inclusion_forms() {
    let table = IncludeTable::new();
    assert!(matches!(parse_document("include url(\"http://x\")", &String::new(), &table), Err(HoconError::Unsupported(_))));
    assert!(matches!(parse_document("include classpath(\"x\")", &String::new(), &table), Err(HoconError::Unsupported(_))));
    assert!(matches!(parse_document("include x.conf", &String::new(), &table), Err(HoconError::Unsupported(_))));
    assert!(matches!(parse_document("include url(\"x\")", &String::new(), &table),
        Err(HoconError::Unsupported(m)) if m == "include url(...) out of scope"));
    assert!(matches!(parse_document("include classpath(\"x\")", &String::new(), &table),
        Err(HoconError::Unsupported(m)) if m == "include classpath(...) out of scope"));
    assert!(matches!(parse_document("include x \"y\"  ", &String::new(), &table),
        Err(HoconError::Unsupported(m)) if m == "unquoted include: \"x \\\"y\\\"\""));
    assert!(matches!(parse_document("include file(\"x.conf\")", &String::new(), &table), Err(HoconError::NeedFile { .. })));
    let v = parse_document("\"include\" = 5", &String::new(), &table).unwrap();
    assert!(matches!(get(&v, "include"), Value::Int(5)));
}

#[test]
fn cyclic_inclusion_is_reported() {
    let mut table = IncludeTable::new();
    table.add(entry("", "a.conf", Some("include \"a.conf\""), ""));
    assert!(matches!(parse_document("include \"a.conf\"", &String::new(), &table), Err(HoconError::IncludeCycle(_))));
}

