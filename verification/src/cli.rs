//! What a command line asks for: the command and its database, the mapping of an import, the request
//! of a query.
pub mod laws;

use crate::import::{Mapping, Role, RoleModel};
use crate::order::Dup;
use crate::text::{debug_form, debug_text, parse_u64, push_str, split, split_on, to_chars, uint64};
use vstd::prelude::*;

verus! {

/// Arguments.
pub type Args = Seq<Seq<char>>;

/// The first position at which an argument is `name`; the number of arguments where none is.
pub open spec fn first_at(args: Args, name: Seq<char>) -> int
    decreases args.len(),
{
    if args.len() == 0 || args[0] == name {
        0
    } else {
        1 + first_at(args.skip(1), name)
    }
}

/// The value of a flag: what follows its first occurrence.
pub open spec fn flag_of(args: Args, name: Seq<char>) -> Option<Seq<char>> {
    let i = first_at(args, name);
    if i + 1 < args.len() {
        Some(args[i + 1])
    } else {
        None
    }
}

/// The values of a flag that may be repeated, among the first `n` arguments.
pub open spec fn flags_upto(args: Args, name: Seq<char>, n: int) -> Args
    decreases n,
{
    if n <= 0 {
        Seq::empty()
    } else {
        let init = flags_upto(args, name, n - 1);
        if args[n - 1] == name && n < args.len() {
            init.push(args[n])
        } else {
            init
        }
    }
}

/// The values of a flag that may be repeated.
pub open spec fn flags_of(args: Args, name: Seq<char>) -> Args {
    flags_upto(args, name, args.len() as int)
}

/// The arguments behind the command, without the flag of the database and without its directory.
pub open spec fn rest_upto(args: Args, db: Seq<char>, n: int) -> Args
    decreases n,
{
    if n <= 1 {
        Seq::empty()
    } else {
        let init = rest_upto(args, db, n - 1);
        if args[n - 1] != "--db"@ && args[n - 1] != db {
            init.push(args[n - 1])
        } else {
            init
        }
    }
}

/// What a command does.
#[derive(Clone, Debug, PartialEq)]
pub enum Command {
    /// Serve with these flags.
    Serve(Vec<String>),
    Init,
    /// Ingest a file of lines.
    Ingest(String),
    /// Embed the vectors of a file.
    Embed(String),
    /// Import a table.
    Import(String),
    /// Query with these arguments.
    Query(Vec<String>),
    Stats,
}

/// The model of a [`Command`].
pub enum CommandModel {
    Serve(Args),
    Init,
    Ingest(Seq<char>),
    Embed(Seq<char>),
    Import(Seq<char>),
    Query(Args),
    Stats,
}

impl DeepView for Command {
    type V = CommandModel;

    open spec fn deep_view(&self) -> CommandModel {
        match self {
            Command::Serve(a) => CommandModel::Serve(a.deep_view()),
            Command::Init => CommandModel::Init,
            Command::Ingest(f) => CommandModel::Ingest(f@),
            Command::Embed(f) => CommandModel::Embed(f@),
            Command::Import(f) => CommandModel::Import(f@),
            Command::Query(a) => CommandModel::Query(a.deep_view()),
            Command::Stats => CommandModel::Stats,
        }
    }
}

/// A command and the directory of its database.
#[derive(Clone, Debug, PartialEq)]
pub struct Invocation {
    pub db: String,
    pub command: Command,
}

/// How the program is used.
pub open spec fn usage_text() -> Seq<char> {
    "usage: stroma <init|ingest|import|embed|query|stats|serve|up> --db <dir> [...]"@
}

/// The directory of the database: that of the flag, else the current one.
pub open spec fn db_of(args: Args) -> Seq<char> {
    match flag_of(args, "--db"@) {
        Some(d) => d,
        None => "."@,
    }
}

/// The flags of a server. One that is brought up without a database gets a directory of its own,
/// unless it is the demonstration or the environment names one.
pub open spec fn serve_flags(args: Args, up: bool, db_in_env: bool) -> Args {
    let flags = args.skip(1);
    if up && !flags.contains("--db"@) && !flags.contains("--demo"@) && !db_in_env {
        flags.push("--db"@).push("./stroma-db"@)
    } else {
        flags
    }
}

/// Whether an argument is a flag.
pub open spec fn is_flag(a: Seq<char>) -> bool {
    a.len() >= 2 && a[0] == '-' && a[1] == '-'
}

/// What a command line asks for, or what is wrong with it.
pub open spec fn planned(args: Args, db_in_env: bool) -> Result<CommandModel, Seq<char>> {
    if args.len() == 0 {
        Err(usage_text())
    } else {
        let cmd = args[0];
        let rest = rest_upto(args, db_of(args), args.len() as int);
        if cmd == "serve"@ || cmd == "up"@ {
            Ok(CommandModel::Serve(serve_flags(args, cmd == "up"@, db_in_env)))
        } else if cmd == "init"@ {
            Ok(CommandModel::Init)
        } else if cmd == "ingest"@ {
            if rest.len() > 0 {
                Ok(CommandModel::Ingest(rest[0]))
            } else {
                Err("usage: stroma ingest <file.jsonl> --db <dir>"@)
            }
        } else if cmd == "embed"@ {
            if rest.len() > 0 {
                Ok(CommandModel::Embed(rest[0]))
            } else {
                Err("usage: stroma embed <file.jsonl> --db <dir>"@)
            }
        } else if cmd == "import"@ {
            if rest.len() > 0 && !is_flag(rest[0]) {
                Ok(CommandModel::Import(rest[0]))
            } else {
                Err("usage: stroma import <file.csv> --db <dir> --type <Type> --id <col> [...]"@)
            }
        } else if cmd == "query"@ {
            Ok(CommandModel::Query(rest))
        } else if cmd == "stats"@ {
            Ok(CommandModel::Stats)
        } else {
            Err(usage_text())
        }
    }
}

fn is_text(a: &String, s: &str) -> (r: bool)
    ensures
        r == (a@ == s@),
{
    let b = s.to_owned();
    *a == b
}

/// The value of a flag.
pub fn parse_flag(args: &[String], name: &str) -> (r: Option<String>)
    ensures
        r.deep_view() == flag_of(args.deep_view(), name@),
{
    let ghost a = args.deep_view();
    let mut i: usize = 0;
    assert(a.skip(0) =~= a);
    while i < args.len()
        invariant
            i <= args.len(),
            a == args.deep_view(),
            first_at(a, name@) == i + first_at(a.skip(i as int), name@),
        decreases args.len() - i,
    {
        assert(a[i as int] == args@[i as int]@);
        assert(a.skip(i as int)[0] == a[i as int]);
        if is_text(&args[i], name) {
            if i + 1 < args.len() {
                assert(a[i + 1] == args@[i + 1]@);
                return Some(args[i + 1].dup());
            }
            return None;
        }
        assert(a.skip(i as int).skip(1) =~= a.skip(i + 1));
        i += 1;
    }
    None
}

/// The values of a flag that may be repeated.
pub fn all_flags(args: &[String], name: &str) -> (r: Vec<String>)
    ensures
        r.deep_view() == flags_of(args.deep_view(), name@),
{
    let ghost a = args.deep_view();
    let mut out: Vec<String> = Vec::new();
    let mut i: usize = 0;
    assert(out.deep_view() =~= Seq::<Seq<char>>::empty());
    while i < args.len()
        invariant
            i <= args.len(),
            a == args.deep_view(),
            out.deep_view() == flags_upto(a, name@, i as int),
        decreases args.len() - i,
    {
        assert(a[i as int] == args@[i as int]@);
        let ghost before = out.deep_view();
        if is_text(&args[i], name) && i + 1 < args.len() {
            assert(a[i + 1] == args@[i + 1]@);
            let v = args[i + 1].dup();
            out.push(v);
            assert(out.deep_view() =~= before.push(a[i + 1]));
        }
        i += 1;
    }
    out
}

fn rest_args(args: &[String], db: &String) -> (r: Vec<String>)
    ensures
        r.deep_view() == rest_upto(args.deep_view(), db@, args.deep_view().len() as int),
{
    let ghost a = args.deep_view();
    let mut out: Vec<String> = Vec::new();
    assert(out.deep_view() =~= Seq::<Seq<char>>::empty());
    if args.len() == 0 {
        return out;
    }
    let mut i: usize = 1;
    while i < args.len()
        invariant
            1 <= i <= args.len(),
            a == args.deep_view(),
            out.deep_view() == rest_upto(a, db@, i as int),
        decreases args.len() - i,
    {
        assert(a[i as int] == args@[i as int]@);
        let ghost before = out.deep_view();
        if !is_text(&args[i], "--db") && args[i] != *db {
            let v = args[i].dup();
            out.push(v);
            assert(out.deep_view() =~= before.push(a[i as int]));
        }
        i += 1;
    }
    out
}

fn has_text(args: &Vec<String>, s: &str) -> (r: bool)
    ensures
        r == args.deep_view().contains(s@),
{
    let ghost a = args.deep_view();
    let mut i: usize = 0;
    while i < args.len()
        invariant
            i <= args.len(),
            a == args.deep_view(),
            forall|j: int| 0 <= j < i ==> #[trigger] a[j] != s@,
        decreases args.len() - i,
    {
        assert(a[i as int] == args@[i as int]@);
        if is_text(&args[i], s) {
            return true;
        }
        i += 1;
    }
    false
}

fn serve_args(args: &[String], up: bool, db_in_env: bool) -> (r: Vec<String>)
    requires
        args.len() > 0,
    ensures
        r.deep_view() == serve_flags(args.deep_view(), up, db_in_env),
{
    let ghost a = args.deep_view();
    let mut out: Vec<String> = Vec::new();
    let mut i: usize = 1;
    while i < args.len()
        invariant
            1 <= i <= args.len(),
            a == args.deep_view(),
            out.len() == i - 1,
            forall|j: int| 0 <= j < out.len() ==> (#[trigger] out@[j])@ == a[j + 1],
        decreases args.len() - i,
    {
        let v = args[i].dup();
        assert(v@ == a[i as int]);
        out.push(v);
        i += 1;
    }
    assert(out.deep_view() =~= a.skip(1));
    if up && !has_text(&out, "--db") && !has_text(&out, "--demo") && !db_in_env {
        out.push("--db".to_owned());
        out.push("./stroma-db".to_owned());
        assert(out.deep_view() =~= a.skip(1).push("--db"@).push("./stroma-db"@));
    }
    out
}

fn flag_like(a: &String) -> (r: bool)
    ensures
        r == is_flag(a@),
{
    let v = to_chars(a.as_str());
    v.len() >= 2 && v[0] == '-' && v[1] == '-'
}

/// What a command line asks for. `args` starts with the command; `db_in_env` says whether the
/// environment names a database.
pub fn plan(args: &[String], db_in_env: bool) -> (r: Result<Invocation, String>)
    ensures
        match planned(args.deep_view(), db_in_env) {
            Ok(c) => r matches Ok(x) && x.command.deep_view() == c && x.db@ == db_of(
                args.deep_view(),
            ),
            Err(m) => r matches Err(e) && e@ == m,
        },
{
    let ghost a = args.deep_view();
    if args.len() == 0 {
        return Err(
            "usage: stroma <init|ingest|import|embed|query|stats|serve|up> --db <dir> [...]".to_owned(),
        );
    }
    assert(a[0] == args@[0]@);
    let db: String = match parse_flag(args, "--db") {
        Some(d) => d,
        None => ".".to_owned(),
    };
    let cmd = &args[0];
    let up = is_text(cmd, "up");
    if up || is_text(cmd, "serve") {
        let flags = serve_args(args, up, db_in_env);
        return Ok(Invocation { db, command: Command::Serve(flags) });
    }
    let mut rest = rest_args(args, &db);
    let ghost rm = rest.deep_view();
    if is_text(cmd, "init") {
        return Ok(Invocation { db, command: Command::Init });
    }
    if is_text(cmd, "ingest") {
        if rest.len() == 0 {
            return Err("usage: stroma ingest <file.jsonl> --db <dir>".to_owned());
        }
        assert(rm[0] == rest@[0]@);
        return Ok(Invocation { db, command: Command::Ingest(rest[0].dup()) });
    }
    if is_text(cmd, "embed") {
        if rest.len() == 0 {
            return Err("usage: stroma embed <file.jsonl> --db <dir>".to_owned());
        }
        assert(rm[0] == rest@[0]@);
        return Ok(Invocation { db, command: Command::Embed(rest[0].dup()) });
    }
    if is_text(cmd, "import") {
        if rest.len() > 0 {
            assert(rm[0] == rest@[0]@);
            if !flag_like(&rest[0]) {
                return Ok(Invocation { db, command: Command::Import(rest[0].dup()) });
            }
        }
        return Err(
            "usage: stroma import <file.csv> --db <dir> --type <Type> --id <col> [...]".to_owned(),
        );
    }
    if is_text(cmd, "query") {
        return Ok(Invocation { db, command: Command::Query(rest) });
    }
    if is_text(cmd, "stats") {
        return Ok(Invocation { db, command: Command::Stats });
    }
    Err("usage: stroma <init|ingest|import|embed|query|stats|serve|up> --db <dir> [...]".to_owned())
}

// ---------------------------------------------------------------------------------------------
// Query

/// What a query asks of the database.
#[derive(Clone, Debug, PartialEq)]
pub enum QueryRequest {
    /// The value of a predicate.
    Point { subject: u64, predicate: String },
    /// The nodes one hop away.
    Expand { subject: u64, predicate: String },
    /// The nodes of a type nearest to the vector in a file.
    Search {
        entity_type: String,
        vector_file: String,
        k: Option<u64>,
        allowed_labels: Option<u64>,
        mode: Option<String>,
        expand: Option<String>,
    },
}

/// The model of a [`QueryRequest`].
pub enum QueryModel {
    Point { subject: u64, predicate: Seq<char> },
    Expand { subject: u64, predicate: Seq<char> },
    Search {
        entity_type: Seq<char>,
        vector_file: Seq<char>,
        k: Option<u64>,
        allowed_labels: Option<u64>,
        mode: Option<Seq<char>>,
        expand: Option<Seq<char>>,
    },
}

impl DeepView for QueryRequest {
    type V = QueryModel;

    open spec fn deep_view(&self) -> QueryModel {
        match self {
            QueryRequest::Point { subject, predicate } => QueryModel::Point {
                subject: *subject,
                predicate: predicate@,
            },
            QueryRequest::Expand { subject, predicate } => QueryModel::Expand {
                subject: *subject,
                predicate: predicate@,
            },
            QueryRequest::Search { entity_type, vector_file, k, allowed_labels, mode, expand } =>
            QueryModel::Search {
                entity_type: entity_type@,
                vector_file: vector_file@,
                k: *k,
                allowed_labels: *allowed_labels,
                mode: mode.deep_view(),
                expand: expand.deep_view(),
            },
        }
    }
}

/// The number that a flag's value is, where it is one.
pub open spec fn number_flag(args: Args, name: Seq<char>) -> Option<u64> {
    match flag_of(args, name) {
        Some(v) => uint64(v),
        None => None,
    }
}

/// What a query's arguments ask for, or what is wrong with them.
pub open spec fn asked(args: Args) -> Result<QueryModel, Seq<char>> {
    let op = if args.len() > 0 {
        args[0]
    } else {
        Seq::empty()
    };
    if op == "point"@ || op == "expand"@ {
        if args.len() > 2 && uint64(args[1]) is Some {
            if op == "point"@ {
                Ok(QueryModel::Point { subject: uint64(args[1])->0, predicate: args[2] })
            } else {
                Ok(QueryModel::Expand { subject: uint64(args[1])->0, predicate: args[2] })
            }
        } else {
            Err("usage: query "@ + op + " <subject> <predicate>"@)
        }
    } else if op == "search"@ {
        match (flag_of(args, "--type"@), flag_of(args, "--vector-file"@)) {
            (None, _) => Err("search requires --type <TypeName>"@),
            (_, None) => Err("search requires --vector-file <json array>"@),
            (Some(entity_type), Some(vector_file)) => Ok(
                QueryModel::Search {
                    entity_type,
                    vector_file,
                    k: number_flag(args, "--k"@),
                    allowed_labels: number_flag(args, "--allowed-labels"@),
                    mode: flag_of(args, "--mode"@),
                    expand: flag_of(args, "--expand"@),
                },
            ),
        }
    } else {
        Err("usage: stroma query <point|expand|search> ..."@)
    }
}

fn parse_number_flag(args: &[String], name: &str) -> (r: Option<u64>)
    ensures
        r == number_flag(args.deep_view(), name@),
{
    match parse_flag(args, name) {
        Some(v) => parse_u64(v.as_str()),
        None => None,
    }
}

/// What a query asks for. `args` starts with the kind of query.
pub fn query_request(args: &[String]) -> (r: Result<QueryRequest, String>)
    ensures
        match asked(args.deep_view()) {
            Ok(q) => r matches Ok(x) && x.deep_view() == q,
            Err(m) => r matches Err(e) && e@ == m,
        },
{
    let ghost a = args.deep_view();
    if args.len() == 0 {
        proof {
            reveal_strlit("point");
            reveal_strlit("expand");
            reveal_strlit("search");
            let none = Seq::<char>::empty();
            assert(none.len() == 0 && "point"@.len() > 0 && "expand"@.len() > 0 && "search"@.len()
                > 0);
        }
        return Err("usage: stroma query <point|expand|search> ...".to_owned());
    }
    let op = &args[0];
    assert(a[0] == args@[0]@);
    let point = is_text(op, "point");
    if point || is_text(op, "expand") {
        if args.len() > 2 {
            assert(a[1] == args@[1]@ && a[2] == args@[2]@);
            if let Some(subject) = parse_u64(args[1].as_str()) {
                let predicate = args[2].dup();
                return if point {
                    Ok(QueryRequest::Point { subject, predicate })
                } else {
                    Ok(QueryRequest::Expand { subject, predicate })
                };
            }
        }
        let mut e = String::new();
        push_str(&mut e, "usage: query ");
        push_str(&mut e, op.as_str());
        push_str(&mut e, " <subject> <predicate>");
        assert(e@ =~= "usage: query "@ + op@ + " <subject> <predicate>"@);
        return Err(e);
    }
    if is_text(op, "search") {
        let entity_type = match parse_flag(args, "--type") {
            Some(t) => t,
            None => {
                return Err("search requires --type <TypeName>".to_owned());
            },
        };
        let vector_file = match parse_flag(args, "--vector-file") {
            Some(f) => f,
            None => {
                return Err("search requires --vector-file <json array>".to_owned());
            },
        };
        let k = parse_number_flag(args, "--k");
        let allowed_labels = parse_number_flag(args, "--allowed-labels");
        let mode = parse_flag(args, "--mode");
        let expand = parse_flag(args, "--expand");
        return Ok(
            QueryRequest::Search { entity_type, vector_file, k, allowed_labels, mode, expand },
        );
    }
    Err("usage: stroma query <point|expand|search> ...".to_owned())
}

// ---------------------------------------------------------------------------------------------
// Import

/// An edge of an import: the column, the type that it leads to and the predicate.
pub type EdgeModel = (Seq<char>, Seq<char>, Seq<char>);

/// The edge that a flag's value names, as `column:type:predicate`.
pub open spec fn edge_of(v: Seq<char>) -> Option<EdgeModel> {
    let parts = split(v, ':');
    if parts.len() == 3 {
        Some((parts[0], parts[1], parts[2]))
    } else {
        None
    }
}

/// The first of some flag values that names no edge.
pub open spec fn bad_edge(vs: Args) -> Option<Seq<char>>
    decreases vs.len(),
{
    if vs.len() == 0 {
        None
    } else {
        match bad_edge(vs.drop_last()) {
            Some(b) => Some(b),
            None => if edge_of(vs.last()) is None {
                Some(vs.last())
            } else {
                None
            },
        }
    }
}

/// The first edge of a column.
pub open spec fn edge_for(vs: Args, column: Seq<char>) -> Option<EdgeModel>
    decreases vs.len(),
{
    if vs.len() == 0 {
        None
    } else {
        match edge_for(vs.drop_last(), column) {
            Some(e) => Some(e),
            None => match edge_of(vs.last()) {
                Some(e) => if e.0 == column {
                    Some(e)
                } else {
                    None
                },
                None => None,
            },
        }
    }
}

/// The role that the arguments give a column: the key, the validity, an edge, skipped, else a
/// literal, the first that applies.
pub open spec fn role_for(args: Args, id: Seq<char>, column: Seq<char>) -> RoleModel {
    let edge = edge_for(flags_of(args, "--edge"@), column);
    if column == id {
        RoleModel::Id
    } else if flag_of(args, "--valid-from"@) == Some(column) {
        RoleModel::ValidFrom
    } else if flag_of(args, "--valid-to"@) == Some(column) {
        RoleModel::ValidTo
    } else if edge is Some {
        RoleModel::Edge { target_type: (edge->0).1, predicate: (edge->0).2 }
    } else if flags_of(args, "--skip"@).contains(column) {
        RoleModel::Skip
    } else {
        RoleModel::Literal
    }
}

/// The columns with their roles.
pub open spec fn roles_for(args: Args, id: Seq<char>, headers: Args) -> Seq<(Seq<char>, RoleModel)> {
    Seq::new(headers.len(), |i: int| (headers[i], role_for(args, id, headers[i])))
}

/// Texts as a debug list shows them, given how each is shown.
pub open spec fn listed(shown: Args) -> Seq<char>
    decreases shown.len(),
{
    if shown.len() == 0 {
        Seq::empty()
    } else if shown.len() == 1 {
        shown[0]
    } else {
        listed(shown.drop_last()) + ", "@ + shown.last()
    }
}

/// How texts are shown.
pub open spec fn shown_all(texts: Args) -> Args {
    Seq::new(texts.len(), |i: int| debug_text(texts[i]))
}

/// The message about a column that is not there, given how it and the header are shown.
pub open spec fn missing_text(column: Seq<char>, header: Args) -> Seq<char> {
    "column "@ + column + " is not in the header: ["@ + listed(header) + "]"@
}

/// Whether a column was asked for that is not there.
pub open spec fn is_missing(wanted: Option<Seq<char>>, headers: Args) -> bool {
    wanted is Some && !headers.contains(wanted->0)
}

/// The first column that was asked for and is not there.
pub open spec fn missing_column(args: Args, id: Seq<char>, headers: Args) -> Option<Seq<char>> {
    if !headers.contains(id) {
        Some(id)
    } else if is_missing(flag_of(args, "--valid-from"@), headers) {
        flag_of(args, "--valid-from"@)
    } else if is_missing(flag_of(args, "--valid-to"@), headers) {
        flag_of(args, "--valid-to"@)
    } else {
        None
    }
}

/// What is wrong with the arguments of an import, if anything is.
pub open spec fn import_error(args: Args, headers: Args) -> Option<Seq<char>> {
    match (flag_of(args, "--type"@), flag_of(args, "--id"@)) {
        (None, _) => Some("import requires --type <Type>"@),
        (_, None) => Some("import requires --id <column>"@),
        (Some(_), Some(id)) => match bad_edge(flags_of(args, "--edge"@)) {
            Some(e) => Some(
                "--edge must be <column>:<TargetType>:<predicate>, got "@ + debug_text(e),
            ),
            None => match missing_column(args, id, headers) {
                Some(c) => Some(missing_text(debug_text(c), shown_all(headers))),
                None => None,
            },
        },
    }
}

/// An edge of an import.
struct Edge {
    column: String,
    target_type: String,
    predicate: String,
}

impl Edge {
    spec fn model(&self) -> EdgeModel {
        (self.column@, self.target_type@, self.predicate@)
    }
}

fn parse_edge(v: &String) -> (r: Option<Edge>)
    ensures
        r is Some == edge_of(v@) is Some,
        r matches Some(e) ==> edge_of(v@) == Some(e.model()),
{
    let parts = split_on(v.as_str(), ':');
    let ghost p = parts.deep_view();
    if parts.len() != 3 {
        return None;
    }
    assert(p[0] == parts@[0]@ && p[1] == parts@[1]@ && p[2] == parts@[2]@);
    Some(
        Edge {
            column: parts[0].dup(),
            target_type: parts[1].dup(),
            predicate: parts[2].dup(),
        },
    )
}

/// Whether edges are those of flag values.
spec fn edges_of(vs: Args, edges: Seq<Edge>) -> bool {
    edges.len() == vs.len() && forall|i: int|
        0 <= i < vs.len() ==> edge_of(#[trigger] vs[i]) == Some(edges[i].model())
}

/// The edges of flag values, or the first value that names none.
fn parse_edges(vs: &Vec<String>) -> (r: Result<Vec<Edge>, String>)
    ensures
        match bad_edge(vs.deep_view()) {
            Some(b) => r matches Err(e) && e@ == b,
            None => r matches Ok(es) && edges_of(vs.deep_view(), es@),
        },
{
    let ghost a = vs.deep_view();
    let mut out: Vec<Edge> = Vec::new();
    let mut i: usize = 0;
    assert(a.take(0) =~= Seq::<Seq<char>>::empty());
    while i < vs.len()
        invariant
            i <= vs.len(),
            a == vs.deep_view(),
            bad_edge(a.take(i as int)) is None,
            out.len() == i,
            forall|j: int| 0 <= j < i ==> edge_of(#[trigger] a[j]) == Some(out@[j].model()),
        decreases vs.len() - i,
    {
        proof {
            assert(a[i as int] == vs@[i as int]@);
            let t = a.take(i + 1);
            assert(t.drop_last() =~= a.take(i as int));
            assert(t.last() == a[i as int]);
        }
        match parse_edge(&vs[i]) {
            Some(e) => {
                out.push(e);
            },
            None => {
                proof {
                    lemma_bad_edge_stays(a, i + 1);
                }
                return Err(vs[i].dup());
            },
        }
        i += 1;
    }
    assert(a.take(i as int) =~= a);
    Ok(out)
}

proof fn lemma_bad_edge_stays(vs: Args, n: int)
    requires
        0 <= n <= vs.len(),
        bad_edge(vs.take(n)) is Some,
    ensures
        bad_edge(vs) == bad_edge(vs.take(n)),
    decreases vs.len(),
{
    if n == vs.len() {
        assert(vs.take(n) =~= vs);
    } else {
        assert(vs.drop_last().take(n) =~= vs.take(n));
        lemma_bad_edge_stays(vs.drop_last(), n);
    }
}

fn find_edge(edges: &Vec<Edge>, column: &String, Ghost(vs): Ghost<Args>) -> (r: Option<usize>)
    requires
        edges_of(vs, edges@),
    ensures
        r is Some == edge_for(vs, column@) is Some,
        r matches Some(i) ==> i < edges.len() && edge_for(vs, column@) == Some(
            edges@[i as int].model(),
        ),
{
    let mut i: usize = 0;
    assert(vs.take(0) =~= Seq::<Seq<char>>::empty());
    while i < edges.len()
        invariant
            i <= edges.len(),
            edges_of(vs, edges@),
            edge_for(vs.take(i as int), column@) is None,
        decreases edges.len() - i,
    {
        proof {
            let t = vs.take(i + 1);
            assert(t.drop_last() =~= vs.take(i as int));
            assert(t.last() == vs[i as int]);
        }
        if edges[i].column == *column {
            proof {
                lemma_edge_stays(vs, column@, i + 1);
            }
            return Some(i);
        }
        i += 1;
    }
    assert(vs.take(i as int) =~= vs);
    None
}

proof fn lemma_edge_stays(vs: Args, column: Seq<char>, n: int)
    requires
        0 <= n <= vs.len(),
        edge_for(vs.take(n), column) is Some,
    ensures
        edge_for(vs, column) == edge_for(vs.take(n), column),
    decreases vs.len(),
{
    if n == vs.len() {
        assert(vs.take(n) =~= vs);
    } else {
        assert(vs.drop_last().take(n) =~= vs.take(n));
        lemma_edge_stays(vs.drop_last(), column, n);
    }
}

fn is_some_text(a: &Option<String>, b: &String) -> (r: bool)
    ensures
        r == (a.deep_view() == Some(b@)),
{
    match a {
        Some(x) => *x == *b,
        None => false,
    }
}

/// The message about a column that is not in the header, given how both are shown.
pub fn missing_message(column: &str, header: &Vec<String>) -> (r: String)
    ensures
        r@ == missing_text(column@, header.deep_view()),
{
    let ghost h = header.deep_view();
    let mut list = String::new();
    let mut i: usize = 0;
    assert(h.take(0) =~= Seq::<Seq<char>>::empty());
    while i < header.len()
        invariant
            i <= header.len(),
            h == header.deep_view(),
            list@ == listed(h.take(i as int)),
        decreases header.len() - i,
    {
        proof {
            assert(h[i as int] == header@[i as int]@);
            let t = h.take(i + 1);
            assert(t.drop_last() =~= h.take(i as int));
            assert(t.last() == h[i as int]);
        }
        let ghost before = list@;
        if i > 0 {
            push_str(&mut list, ", ");
        }
        push_str(&mut list, header[i].as_str());
        assert(list@ =~= listed(h.take(i + 1)));
        i += 1;
    }
    assert(h.take(i as int) =~= h);
    let mut e = String::new();
    push_str(&mut e, "column ");
    push_str(&mut e, column);
    push_str(&mut e, " is not in the header: [");
    push_str(&mut e, list.as_str());
    push_str(&mut e, "]");
    assert(e@ =~= missing_text(column@, h));
    e
}

fn missing_in(column: &String, headers: &Vec<String>) -> (r: Option<String>)
    ensures
        r.deep_view() == (if headers.deep_view().contains(column@) {
            None
        } else {
            Some(missing_text(debug_text(column@), shown_all(headers.deep_view())))
        }),
{
    if has_text(headers, column.as_str()) {
        return None;
    }
    let ghost h = headers.deep_view();
    let mut shown: Vec<String> = Vec::new();
    let mut i: usize = 0;
    while i < headers.len()
        invariant
            i <= headers.len(),
            h == headers.deep_view(),
            shown.len() == i,
            forall|j: int| 0 <= j < i ==> (#[trigger] shown@[j])@ == debug_text(h[j]),
        decreases headers.len() - i,
    {
        assert(h[i as int] == headers@[i as int]@);
        shown.push(debug_form(headers[i].as_str()));
        i += 1;
    }
    assert(shown.deep_view() =~= shown_all(h));
    Some(missing_message(debug_form(column.as_str()).as_str(), &shown))
}

/// The mapping that the arguments of an import give a table with these headers, or what is wrong
/// with them. Columns without a role of their own are literals.
pub fn import_mapping(args: &[String], headers: &Vec<String>) -> (r: Result<Mapping, String>)
    ensures
        match import_error(args.deep_view(), headers.deep_view()) {
            Some(m) => r matches Err(e) && e@ == m,
            None => {
                &&& r matches Ok(x)
                &&& x.node_type@ == flag_of(args.deep_view(), "--type"@)->0
                &&& x.roles.deep_view() == roles_for(
                    args.deep_view(),
                    flag_of(args.deep_view(), "--id"@)->0,
                    headers.deep_view(),
                )
                &&& x.source.deep_view() == flag_of(args.deep_view(), "--source"@)
            },
        },
{
    let ghost a = args.deep_view();
    let ghost h = headers.deep_view();
    let node_type = match parse_flag(args, "--type") {
        Some(t) => t,
        None => {
            return Err("import requires --type <Type>".to_owned());
        },
    };
    let id = match parse_flag(args, "--id") {
        Some(c) => c,
        None => {
            return Err("import requires --id <column>".to_owned());
        },
    };
    let from = parse_flag(args, "--valid-from");
    let to = parse_flag(args, "--valid-to");
    let skips = all_flags(args, "--skip");
    let values = all_flags(args, "--edge");
    let ghost vs = values.deep_view();
    let edges = match parse_edges(&values) {
        Ok(es) => es,
        Err(v) => {
            let mut e = String::new();
            push_str(&mut e, "--edge must be <column>:<TargetType>:<predicate>, got ");
            push_str(&mut e, debug_form(v.as_str()).as_str());
            assert(e@ =~= "--edge must be <column>:<TargetType>:<predicate>, got "@ + debug_text(v@));
            return Err(e);
        },
    };
    if let Some(e) = missing_in(&id, headers) {
        return Err(e);
    }
    if let Some(c) = &from {
        if let Some(e) = missing_in(c, headers) {
            return Err(e);
        }
    }
    if let Some(c) = &to {
        if let Some(e) = missing_in(c, headers) {
            return Err(e);
        }
    }
    let mut roles: Vec<(String, Role)> = Vec::new();
    let mut i: usize = 0;
    while i < headers.len()
        invariant
            i <= headers.len(),
            h == headers.deep_view(),
            vs == values.deep_view(),
            vs == flags_of(a, "--edge"@),
            edges_of(vs, edges@),
            skips.deep_view() == flags_of(a, "--skip"@),
            from.deep_view() == flag_of(a, "--valid-from"@),
            to.deep_view() == flag_of(a, "--valid-to"@),
            roles.len() == i,
            forall|j: int|
                0 <= j < i ==> (#[trigger] roles@[j]).deep_view() == (
                    h[j],
                    role_for(a, id@, h[j]),
                ),
        decreases headers.len() - i,
    {
        let column = &headers[i];
        assert(h[i as int] == column@);
        let role: Role = if *column == id {
            Role::Id
        } else if is_some_text(&from, column) {
            Role::ValidFrom
        } else if is_some_text(&to, column) {
            Role::ValidTo
        } else {
            match find_edge(&edges, column, Ghost(vs)) {
                Some(k) => Role::Edge {
                    target_type: edges[k].target_type.dup(),
                    predicate: edges[k].predicate.dup(),
                },
                None => if has_text(&skips, column.as_str()) {
                    Role::Skip
                } else {
                    Role::Literal
                },
            }
        };
        roles.push((column.dup(), role));
        i += 1;
    }
    assert(roles.deep_view() =~= roles_for(a, id@, h));
    Ok(Mapping { node_type, roles, source: parse_flag(args, "--source") })
}

} // verus!
