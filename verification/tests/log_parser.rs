use torchrust::log_parser::{convert_from_log_structure, lines_well_bracketed, LogParseError};
use torchrust::text::chars_of;
use torchrust::value::{parse_value, LogEntry};

fn path(keys: &[&str]) -> Vec<Vec<char>> {
    keys.iter().map(|k| chars_of(k)).collect()
}

#[test]
fn test_simple_parse() {
    let input = "|+DropItems+1+[1]\n|+item+BaseId [12345]";
    let result = convert_from_log_structure(input).unwrap();
    assert!(result.get("DropItems").is_some());
}

#[test]
fn simple_parse_builds_expected_paths() {
    let input = "|+DropItems+1+[1]\n|+item+BaseId [12345]";
    let t = convert_from_log_structure(input).unwrap();
    assert!(matches!(t.get_path(&path(&["DropItems"])), Some(LogEntry::Object)));
    assert!(matches!(t.get_path(&path(&["DropItems", "1"])), Some(LogEntry::Int(1))));
    assert!(matches!(t.get_path(&path(&["item"])), Some(LogEntry::Object)));
    assert!(matches!(t.get_path(&path(&["item", "BaseId"])), Some(LogEntry::Int(12345))));
    assert_eq!(t.len(), 4);
}

#[test]
fn pipes_do_not_nest_lines() {
    let t = convert_from_log_structure("+a\n||+b [x]").unwrap();
    assert!(matches!(t.get_path(&path(&["a"])), Some(LogEntry::Object)));
    assert!(t.get_path(&path(&["a", "b"])).is_none());
    match t.get_path(&path(&["b"])) {
        Some(LogEntry::Text(s)) => assert_eq!(s, "x"),
        _ => panic!("b should hold text"),
    }
}

#[test]
fn value_replaces_subtree() {
    let t = convert_from_log_structure("+a+b+c\n+a+b [true]").unwrap();
    assert!(matches!(t.get_path(&path(&["a", "b"])), Some(LogEntry::Bool(true))));
    assert!(t.get_path(&path(&["a", "b", "c"])).is_none());
    assert_eq!(t.len(), 2);
}

#[test]
fn walk_stops_at_scalar() {
    let t = convert_from_log_structure("+a [5]\n+a+b [6]\n+a+c").unwrap();
    assert!(matches!(t.get_path(&path(&["a"])), Some(LogEntry::Int(5))));
    assert!(t.get_path(&path(&["a", "b"])).is_none());
    assert!(t.get_path(&path(&["a", "c"])).is_none());
    assert_eq!(t.len(), 1);
}

#[test]
fn keys_are_trimmed_and_empty_keys_dropped() {
    let t = convert_from_log_structure("  + x ++ y  [ 7 ]  \n\n   \n").unwrap();
    assert!(matches!(t.get_path(&path(&["x", "y"])), Some(LogEntry::Int(7))));
    assert_eq!(t.len(), 2);
}

#[test]
fn bracket_without_keys_sets_nothing() {
    let t = convert_from_log_structure("[1]\n|+ [2]").unwrap();
    assert_eq!(t.len(), 0);
}

#[test]
fn value_uses_first_open_and_last_close_bracket() {
    let t = convert_from_log_structure("+k [a[b]c]").unwrap();
    match t.get_path(&path(&["k"])) {
        Some(LogEntry::Text(s)) => assert_eq!(s, "a[b]c"),
        _ => panic!("k should hold text"),
    }
}

#[test]
fn nodes_come_in_key_order() {
    let t = convert_from_log_structure("+b\n+a+z\n+a+y [1]").unwrap();
    let order: Vec<Vec<String>> = (0..t.len())
        .map(|i| t.node(i).path.iter().map(|k| k.iter().collect::<String>()).collect())
        .collect();
    assert_eq!(
        order,
        vec![
            vec!["a".to_string()],
            vec!["a".to_string(), "y".to_string()],
            vec!["a".to_string(), "z".to_string()],
            vec!["b".to_string()],
        ]
    );
}

#[test]
fn reversed_brackets_are_detected() {
    assert!(!lines_well_bracketed("+ok [1]\n+bad ]x["));
    assert!(lines_well_bracketed("+ok [1]\n+also fine ]"));
    assert!(lines_well_bracketed(""));
}

#[test]
fn parse_error_message() {
    let e = LogParseError::InvalidStructure("Parent is not an object".to_string());
    assert_eq!(e.message(), "Invalid log structure: Parent is not an object");
}

fn pv(s: &str) -> LogEntry {
    parse_value(&chars_of(s))
}

#[test]
fn parse_value_booleans_any_case() {
    assert!(matches!(pv("true"), LogEntry::Bool(true)));
    assert!(matches!(pv(" TrUe "), LogEntry::Bool(true)));
    assert!(matches!(pv("FALSE"), LogEntry::Bool(false)));
    assert!(matches!(pv("truee"), LogEntry::Text(_)));
}

#[test]
fn parse_value_integers() {
    assert!(matches!(pv("42"), LogEntry::Int(42)));
    assert!(matches!(pv("+5"), LogEntry::Int(5)));
    assert!(matches!(pv("-7"), LogEntry::Int(-7)));
    assert!(matches!(pv("007"), LogEntry::Int(7)));
    assert!(matches!(pv("9223372036854775807"), LogEntry::Int(i64::MAX)));
    assert!(matches!(pv("-9223372036854775808"), LogEntry::Int(i64::MIN)));
}

#[test]
fn parse_value_reals() {
    match pv("1.5") {
        LogEntry::Real(s) => assert_eq!(s, "1.5"),
        _ => panic!(),
    }
    assert!(matches!(pv("9223372036854775808"), LogEntry::Real(_)));
    assert!(matches!(pv("1e3"), LogEntry::Real(_)));
    assert!(matches!(pv(".5"), LogEntry::Real(_)));
    assert!(matches!(pv("5."), LogEntry::Real(_)));
    assert!(matches!(pv("-2.5E-3"), LogEntry::Real(_)));
    assert!(matches!(pv("."), LogEntry::Text(_)));
    assert!(matches!(pv("1e"), LogEntry::Text(_)));
    assert!(matches!(pv("e5"), LogEntry::Text(_)));
}

#[test]
fn parse_value_nonfinite_reads_as_zero() {
    assert!(matches!(pv("inf"), LogEntry::Int(0)));
    assert!(matches!(pv("-Infinity"), LogEntry::Int(0)));
    assert!(matches!(pv("NaN"), LogEntry::Int(0)));
}

#[test]
fn parse_value_too_large_for_f64_reads_as_zero() {
    assert!(matches!(pv("1e400"), LogEntry::Int(0)));
    assert!(matches!(pv("-1e400"), LogEntry::Int(0)));
    assert!(matches!(pv("1.7976931348623159e308"), LogEntry::Int(0)));
    assert!(matches!(pv("0.18e310"), LogEntry::Int(0)));
    assert!(matches!(pv("179769313486231580793728971405303415079934132710037826936173778980444968292764750946649017977587207096330286416692887910946555547851940402630657488671505820681908902000708383676273854845817711531764475730270069855571366959622842914819860834936475292719074168444365510704342711559699508093042880177904174497792"), LogEntry::Int(0)));
    assert!(matches!(pv("1e99999999999999999999999999999999999"), LogEntry::Int(0)));
    assert!(matches!(pv("1.7976931348623157e308"), LogEntry::Real(_)));
    assert!(matches!(pv("1.7976931348623158e308"), LogEntry::Real(_)));
    assert!(matches!(pv("179769313486231580793728971405303415079934132710037826936173778980444968292764750946649017977587207096330286416692887910946555547851940402630657488671505820681908902000708383676273854845817711531764475730270069855571366959622842914819860834936475292719074168444365510704342711559699508093042880177904174497791"), LogEntry::Real(_)));
    assert!(matches!(pv("0.0000001e315"), LogEntry::Real(_)));
    assert!(matches!(pv("000e99999"), LogEntry::Real(_)));
    assert!(matches!(pv("1e-400"), LogEntry::Real(_)));
    assert!(matches!(pv("1e-99999999999999999999999999999999999"), LogEntry::Real(_)));
}

#[test]
fn parse_value_text() {
    match pv("  hello world ") {
        LogEntry::Text(s) => assert_eq!(s, "hello world"),
        _ => panic!(),
    }
    match pv("") {
        LogEntry::Text(s) => assert_eq!(s, ""),
        _ => panic!(),
    }
    assert!(matches!(pv("+"), LogEntry::Text(_)));
    assert!(matches!(pv("-"), LogEntry::Text(_)));
}

fn render(t: &torchrust::log_tree::LogTree) -> Vec<String> {
    (0..t.len())
        .map(|i| {
            let n = t.node(i);
            let path: Vec<String> = n.path.iter().map(|k| k.iter().collect()).collect();
            let v = match &n.entry {
                LogEntry::Object => "{}".to_string(),
                LogEntry::Bool(b) => format!("bool {}", b),
                LogEntry::Int(i) => format!("int {}", i),
                LogEntry::Real(s) => format!("real {}", s),
                LogEntry::Text(s) => format!("text {}", s),
            };
            format!("{} = {}", path.join("."), v)
        })
        .collect()
}

#[test]
fn pipe_markers_do_not_change_the_record() {
    let text = "|+DropItems+1+[1]\n||+item+Base|Id [12|345]\n|  | \n+a |+ b\n| |+c [ |true| ]";
    let with = convert_from_log_structure(text).unwrap();
    let without = convert_from_log_structure(&text.replace('|', "")).unwrap();
    assert_eq!(render(&with), render(&without));
    assert!(render(&with).contains(&"item.BaseId = int 12345".to_string()));
    assert!(render(&with).contains(&"c = bool true".to_string()));
}
