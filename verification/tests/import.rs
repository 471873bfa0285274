//! Importing tables.
use stromadb::import::{compile, detect_type, node_id, parse_csv, parse_date, ColType, Mapping, Role};
use stromadb::ordmap::OrdMap;

#[test]
fn node_ids_are_deterministic_and_type_scoped() {
    assert_eq!(node_id("Person", "42"), node_id("Person", "42"));
    assert_ne!(node_id("Person", "42"), node_id("Department", "42"));
    assert!(node_id("Person", "42") < (1 << 48));
}

// Pinned against the console importer's BigInt implementation — the two surfaces must keep
// producing identical ids or a CLI import and a console import stop lining up in one graph.
#[test]
fn node_ids_match_the_console_implementation() {
    assert_eq!(node_id("Person", "42"), 94607205715242);
    assert_eq!(node_id("Department", "eng"), 238290147953783);
    assert_eq!(node_id("人", "α"), 2421719834668);
}

#[test]
fn dates_parse_and_reject() {
    assert_eq!(parse_date("2024-01-01"), Some(1704067200));
    assert_eq!(parse_date("2024/07/01"), Some(1719792000));
    assert_eq!(
        parse_date("2024-09-01 12:30"),
        Some(1725148800 + 12 * 3600 + 1800)
    );
    assert_eq!(parse_date("not-a-date"), None);
    assert_eq!(parse_date("2024-13-01"), None);
}

#[test]
fn csv_parses_quotes_and_bom() {
    let (h, rows) = parse_csv("\u{feff}a,b\n1,\"x, \"\"y\"\"\nz\"\n").unwrap();
    assert_eq!(h, vec!["a", "b"]);
    assert_eq!(rows, vec![vec!["1".to_string(), "x, \"y\"\nz".to_string()]]);
}

#[test]
fn compile_emits_schema_nodes_facts_with_valid_time() {
    let mapping = Mapping {
        node_type: "Person".into(),
        roles: vec![
            ("id".into(), Role::Id),
            ("name".into(), Role::Literal),
            (
                "dept".into(),
                Role::Edge {
                    target_type: "Department".into(),
                    predicate: "member-of".into(),
                },
            ),
            ("hired".into(), Role::ValidFrom),
            ("left".into(), Role::ValidTo),
        ],
        source: Some("hr".into()),
    };
    let headers: Vec<String> = ["id", "name", "dept", "hired", "left"]
        .map(String::from)
        .into();
    let rows = vec![
        vec![
            "1".into(),
            "Alice".into(),
            "eng".into(),
            "2024-01-01".into(),
            "".into(),
        ],
        vec![
            "2".into(),
            "Bob".into(),
            "eng".into(),
            "2024-01-01".into(),
            "2025-01-01".into(),
        ],
    ];
    let jsonl = compile(&mapping, &headers, &rows, &OrdMap::new()).unwrap();
    assert!(jsonl.contains("\"type_def\":{\"name\":\"Person\"}"));
    assert!(jsonl.contains("\"type_def\":{\"name\":\"Department\"}"));
    assert!(jsonl.contains("\"display\":true")); // name column
    let alice = node_id("Person", "1");
    let eng = node_id("Department", "eng");
    assert!(jsonl.contains(&format!("\"subject\":{alice},\"predicate\":\"member-of\",\"object\":{{\"node\":{eng}}},\"valid_from\":1704067200,\"source\":\"hr\"")));
    assert!(jsonl.contains("\"valid_to\":1735689600"));
    // open end: Alice's row has no valid_to on its facts
    assert!(!jsonl.contains(&format!("\"subject\":{alice},\"predicate\":\"member-of\",\"object\":{{\"node\":{eng}}},\"valid_from\":1704067200,\"valid_to\"")));
}

#[test]
fn compile_errors_are_readable() {
    let mapping = Mapping {
        node_type: "P".into(),
        roles: vec![("id".into(), Role::Id), ("d".into(), Role::ValidFrom)],
        source: None,
    };
    let headers: Vec<String> = ["id", "d"].map(String::from).into();
    let rows = vec![vec!["1".into(), "banana".into()]];
    let e = compile(&mapping, &headers, &rows, &OrdMap::new()).unwrap_err();
    assert!(e.contains("row 2") && e.contains("valid_from"), "{e}");
}

fn one_row(role: Role, name: &str, cell: &str) -> (Mapping, Vec<String>, Vec<Vec<String>>) {
    (
        Mapping {
            node_type: "T".into(),
            roles: vec![("id".into(), Role::Id), (name.into(), role)],
            source: None,
        },
        vec!["id".into(), name.into()],
        vec![vec!["1".into(), cell.into()]],
    )
}

#[test]
fn literals_are_typed_by_their_column() {
    let none: OrdMap<String, String> = OrdMap::new();
    assert_eq!(detect_type(&["1", "-2"], &none), ColType::Int);
    assert_eq!(detect_type(&["2024-01-01"], &none), ColType::Date);
    assert_eq!(detect_type(&["1", "x"], &none), ColType::Text);
    let mut floats = OrdMap::new();
    floats.insert("1.50".to_string(), "1.5".to_string());
    assert_eq!(detect_type(&["1.50"], &floats), ColType::Float);
    let (m, h, r) = one_row(Role::Literal, "w", "1.50");
    let out = compile(&m, &h, &r, &floats).unwrap();
    assert!(out.contains("\"range_value\":\"float\""), "{out}");
    assert!(out.contains("\"object\":{\"float\":1.5}"), "{out}");
    let (m, h, r) = one_row(Role::Literal, "w", "7");
    let out = compile(&m, &h, &r, &none).unwrap();
    assert!(out.contains("\"object\":{\"int\":7}"), "{out}");
}

#[test]
fn names_and_text_are_escaped() {
    let none: OrdMap<String, String> = OrdMap::new();
    let (mut m, h, r) = one_row(Role::Literal, "no\"te", "a\\b\n\u{1}é/");
    m.node_type = "Ty\tpe".into();
    let out = compile(&m, &h, &r, &none).unwrap();
    assert!(out.contains("{\"type_def\":{\"name\":\"Ty\\tpe\"}}\n"), "{out}");
    assert!(out.contains("\"predicate\":\"no\\\"te\""), "{out}");
    assert!(out.contains("\"object\":{\"text\":\"a\\\\b\\n\\u0001é/\"}"), "{out}");
}

#[test]
fn every_refusal_says_where() {
    let none: OrdMap<String, String> = OrdMap::new();
    let (m, h, r) = one_row(Role::ValidFrom, "d", "ba\"na");
    assert_eq!(
        compile(&m, &h, &r, &none),
        Err("row 2: bad valid_from date \"ba\\\"na\"".to_string())
    );
    let (m, h, r) = one_row(Role::ValidTo, "d", "x");
    assert_eq!(compile(&m, &h, &r, &none), Err("row 2: bad valid_to date \"x\"".to_string()));
    let (m, h, mut r) = one_row(Role::Skip, "d", "x");
    r[0][0] = " ".into();
    assert_eq!(compile(&m, &h, &r, &none), Err("row 2: empty id cell".to_string()));
    let (mut m, h, r) = one_row(Role::Skip, "d", "x");
    m.roles[0].1 = Role::Skip;
    assert_eq!(
        compile(&m, &h, &r, &none),
        Err("exactly one column must have the id role".to_string())
    );
    let (m, h, r) = one_row(Role::Skip, "d", "x");
    assert!(compile(&m, &h[..1], &r, &none).is_err());
    assert_eq!(parse_csv("a\n\"b"), Err("unterminated quoted field".to_string()));
}

#[test]
fn instants_are_dates_or_numbers() {
    let none: OrdMap<String, String> = OrdMap::new();
    let (m, h, mut r) = one_row(Role::ValidFrom, "d", "-5");
    let out = compile(&m, &h, &r, &none).unwrap();
    assert!(!out.contains("fact"));
    r[0][1] = "1970-01-02".into();
    assert!(compile(&m, &h, &r, &none).is_ok());
    assert_eq!(parse_date("1970-01-01"), Some(0));
    assert_eq!(parse_date("1969-12-31 23:59"), Some(-60));
    assert_eq!(parse_date("2024-02-30"), parse_date("2024-03-01"));
}

#[test]
fn rows_end_at_line_ends() {
    let (h, rows) = parse_csv("a,b\r\n1,2\r\n\r\n3,\n").unwrap();
    assert_eq!(h, vec!["a", "b"]);
    assert_eq!(rows.len(), 2);
    assert_eq!(rows[1], vec!["3".to_string(), "".to_string()]);
}

#[test]
fn a_table_in_quotes_is_read_back() {
    let rows = [["na\"me", "a,b"], ["x\ny", ""], ["", "\r"]];
    let mut text = String::from("\u{feff}");
    for r in &rows {
        let fields: Vec<String> = r.iter().map(|f| format!("\"{}\"", f.replace('"', "\"\""))).collect();
        text.push_str(&fields.join(","));
        text.push('\n');
    }
    let (h, back) = parse_csv(&text).unwrap();
    assert_eq!(h, vec!["na\"me", "a,b"]);
    assert_eq!(back, vec![vec!["x\ny".to_string(), "".into()], vec!["".into(), "\r".into()]]);
}

#[test]
fn dates_that_are_written_out_are_parsed_back() {
    for (n, y, m, d) in [(0i64, 1970, 1, 1), (-719528, 0, 1, 1), (2932896, 9999, 12, 31), (19782, 2024, 2, 29)] {
        let date = format!("{y:04}-{m:02}-{d:02}");
        assert_eq!(parse_date(&date), Some(n * 86400));
        assert_eq!(parse_date(&date.replace('-', "/")), Some(n * 86400));
        assert_eq!(parse_date(&format!("{date} 23:59")), Some(n * 86400 + 86340));
        assert_eq!(parse_date(&format!("{date} 23:59:58")), Some(n * 86400 + 86398));
    }
}
