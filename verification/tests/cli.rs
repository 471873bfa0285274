//! Command lines.
use stromadb::cli::{
    all_flags, import_mapping, missing_message, parse_flag, plan, query_request, Command,
    QueryRequest,
};
use stromadb::import::Role;

fn args(s: &str) -> Vec<String> {
    s.split_whitespace().map(String::from).collect()
}

#[test]
fn a_flag_has_the_value_behind_its_first_occurrence() {
    let a = args("x --k 5 --k 6 --last");
    assert_eq!(parse_flag(&a, "--k"), Some("5".to_string()));
    assert_eq!(parse_flag(&a, "--last"), None);
    assert_eq!(parse_flag(&a, "--none"), None);
    assert_eq!(all_flags(&a, "--k"), vec!["5", "6"]);
    assert!(all_flags(&a, "--last").is_empty());
}

#[test]
fn commands_are_told_apart() {
    let run = |s: &str| plan(&args(s), false).map(|i| (i.db, i.command));
    assert_eq!(run("init --db d"), Ok(("d".into(), Command::Init)));
    assert_eq!(run("stats"), Ok((".".into(), Command::Stats)));
    assert_eq!(run("ingest --db d f.jsonl"), Ok(("d".into(), Command::Ingest("f.jsonl".into()))));
    assert_eq!(run("embed f"), Ok((".".into(), Command::Embed("f".into()))));
    assert_eq!(run("import t.csv --type P"), Ok((".".into(), Command::Import("t.csv".into()))));
    assert_eq!(
        run("query point 1 age --db d"),
        Ok(("d".into(), Command::Query(args("point 1 age"))))
    );
}

#[test]
fn a_server_brought_up_without_a_database_gets_one() {
    let flags = |s: &str, env: bool| match plan(&args(s), env).unwrap().command {
        Command::Serve(f) => f,
        _ => unreachable!(),
    };
    assert_eq!(flags("up --addr x", false), args("--addr x --db ./stroma-db"));
    assert_eq!(flags("up --addr x", true), args("--addr x"));
    assert_eq!(flags("up --demo", false), args("--demo"));
    assert_eq!(flags("up --db d", false), args("--db d"));
    assert_eq!(flags("serve", false), args(""));
}

#[test]
fn wrong_commands_are_answered_with_the_usage() {
    let err = |s: &str| plan(&args(s), false).unwrap_err();
    assert!(err("").starts_with("usage: stroma <init|"));
    assert!(err("dance").starts_with("usage: stroma <init|"));
    assert_eq!(err("ingest --db d"), "usage: stroma ingest <file.jsonl> --db <dir>");
    assert_eq!(err("embed"), "usage: stroma embed <file.jsonl> --db <dir>");
    assert!(err("import --type P").starts_with("usage: stroma import <file.csv>"));
}

#[test]
fn queries_are_read() {
    assert_eq!(
        query_request(&args("point 7 age")),
        Ok(QueryRequest::Point { subject: 7, predicate: "age".into() })
    );
    assert_eq!(
        query_request(&args("expand +7 knows")),
        Ok(QueryRequest::Expand { subject: 7, predicate: "knows".into() })
    );
    assert_eq!(
        query_request(&args("search --type P --vector-file q.json --k x --allowed-labels 3 --mode strict")),
        Ok(QueryRequest::Search {
            entity_type: "P".into(),
            vector_file: "q.json".into(),
            k: None,
            allowed_labels: Some(3),
            mode: Some("strict".into()),
            expand: None,
        })
    );
}

#[test]
fn wrong_queries_are_answered_with_the_usage() {
    let err = |s: &str| query_request(&args(s)).unwrap_err();
    assert_eq!(err("point x age"), "usage: query point <subject> <predicate>");
    assert_eq!(err("expand 7"), "usage: query expand <subject> <predicate>");
    assert_eq!(err("point 18446744073709551616 age"), "usage: query point <subject> <predicate>");
    assert_eq!(err("search"), "search requires --type <TypeName>");
    assert_eq!(err("search --type P"), "search requires --vector-file <json array>");
    assert_eq!(err(""), "usage: stroma query <point|expand|search> ...");
    assert_eq!(err("fly"), "usage: stroma query <point|expand|search> ...");
}

#[test]
fn an_import_maps_its_columns() {
    let headers = args("id name dept hired left junk");
    let a = args(
        "import t.csv --type Person --id id --valid-from hired --valid-to left \
         --edge dept:Department:member-of --edge dept:Other:other --skip junk --source hr",
    );
    let m = import_mapping(&a, &headers).unwrap();
    assert_eq!(m.node_type, "Person");
    assert_eq!(m.source, Some("hr".to_string()));
    assert_eq!(
        m.roles.iter().map(|r| r.1.clone()).collect::<Vec<_>>(),
        vec![
            Role::Id,
            Role::Literal,
            Role::Edge { target_type: "Department".into(), predicate: "member-of".into() },
            Role::ValidFrom,
            Role::ValidTo,
            Role::Skip,
        ]
    );
    assert_eq!(m.roles[2].0, "dept");
}

#[test]
fn an_import_says_what_is_wrong() {
    let headers = args("id name");
    let err = |s: &str| import_mapping(&args(s), &headers).err().unwrap();
    assert_eq!(err("import t"), "import requires --type <Type>");
    assert_eq!(err("import t --type P"), "import requires --id <column>");
    assert_eq!(
        err("import t --type P --id id --edge a:b"),
        "--edge must be <column>:<TargetType>:<predicate>, got \"a:b\""
    );
    assert_eq!(
        err("import t --type P --id key"),
        "column \"key\" is not in the header: [\"id\", \"name\"]"
    );
    assert_eq!(
        err("import t --type P --id id --valid-to end"),
        "column \"end\" is not in the header: [\"id\", \"name\"]"
    );
    assert_eq!(missing_message("x", &vec![]), "column x is not in the header: []");
}
