//! What a command line asks for, said of its arguments.
use super::{
    asked, bad_edge, db_of, edge_for, edge_of, first_at, flag_of, flags_of, flags_upto, import_error,
    is_flag, missing_column, planned, rest_upto, role_for, serve_flags, Args, EdgeModel, QueryModel,
};
use crate::import::RoleModel;
use crate::text::{law_split_rejoins, rejoined, split, uint64};
use vstd::prelude::*;

verus! {

/// The value of a flag is what follows its first occurrence; a flag that is not there, or whose first
/// occurrence is the last argument, has none.
pub proof fn law_flag_value(args: Args, name: Seq<char>, v: Seq<char>)
    ensures
        flag_of(args, name) == Some(v) <==> exists|i: int|
            0 <= i < args.len() - 1 && #[trigger] args[i] == name && args[i + 1] == v && forall|j: int|
                0 <= j < i ==> #[trigger] args[j] != name,
{
    lemma_first_at(args, name);
    let i = first_at(args, name);
    if flag_of(args, name) == Some(v) {
        assert(args[i] == name);
    }
    if exists|k: int|
        0 <= k < args.len() - 1 && #[trigger] args[k] == name && args[k + 1] == v && forall|j: int|
            0 <= j < k ==> #[trigger] args[j] != name {
        let k = choose|k: int|
            0 <= k < args.len() - 1 && #[trigger] args[k] == name && args[k + 1] == v && forall|
                j: int,
            |
                0 <= j < k ==> #[trigger] args[j] != name;
        if i < k {
            assert(args[i] == name);
        }
    }
}

proof fn lemma_first_at(args: Args, name: Seq<char>)
    ensures
        0 <= first_at(args, name) <= args.len(),
        first_at(args, name) < args.len() ==> args[first_at(args, name)] == name,
        forall|j: int| 0 <= j < first_at(args, name) ==> #[trigger] args[j] != name,
    decreases args.len(),
{
    if args.len() > 0 {
        let rest = args.skip(1);
        lemma_first_at(rest, name);
        let i = first_at(args, name);
        assert forall|j: int| 0 < j < args.len() implies #[trigger] args[j] == rest[j - 1] by {}
        if 0 < i < args.len() {
            assert(args[i] == rest[i - 1]);
        }
    }
}

/// A flag that may be repeated has a value for every occurrence with something behind it, in order.
pub proof fn law_flag_values(args: Args, name: Seq<char>, n: int, v: Seq<char>)
    requires
        0 <= n < args.len(),
    ensures
        flags_of(args, name).contains(v) <==> exists|i: int|
            0 <= i < args.len() - 1 && #[trigger] args[i] == name && args[i + 1] == v,
        flags_upto(args, name, 0).len() == 0,
        args[n] == name && n + 1 < args.len() ==> flags_upto(args, name, n + 1) == flags_upto(
            args,
            name,
            n,
        ).push(args[n + 1]),
        args[n] != name ==> flags_upto(args, name, n + 1) == flags_upto(args, name, n),
{
    lemma_flags(args, name, args.len() as int, v);
}

proof fn lemma_flags(args: Args, name: Seq<char>, n: int, v: Seq<char>)
    requires
        0 <= n <= args.len(),
    ensures
        flags_upto(args, name, n).contains(v) <==> exists|i: int|
            0 <= i < n && i + 1 < args.len() && #[trigger] args[i] == name && args[i + 1] == v,
    decreases n,
{
    if n > 0 {
        lemma_flags(args, name, n - 1, v);
        let a = flags_upto(args, name, n - 1);
        let r = flags_upto(args, name, n);
        if args[n - 1] == name && n < args.len() {
            assert(r[a.len() as int] == args[n]);
            if a.contains(v) {
                let i = choose|i: int| 0 <= i < a.len() && a[i] == v;
                assert(r[i] == v);
            }
            if r.contains(v) && v != args[n] {
                let i = choose|i: int| 0 <= i < r.len() && r[i] == v;
                assert(a[i] == v);
            }
        }
    }
}

/// The arguments behind the command are all but the flag of the database and its directory.
pub proof fn law_rest_of_arguments(args: Args, db: Seq<char>, n: int, x: Seq<char>)
    requires
        n <= args.len(),
    ensures
        rest_upto(args, db, n).contains(x) <==> x != "--db"@ && x != db && exists|i: int|
            1 <= i < n && #[trigger] args[i] == x,
        1 <= n < args.len() && args[n] != "--db"@ && args[n] != db ==> rest_upto(args, db, n + 1)
            == rest_upto(args, db, n).push(args[n]),
    decreases n,
{
    if n > 1 {
        law_rest_of_arguments(args, db, n - 1, x);
        let a = rest_upto(args, db, n - 1);
        let r = rest_upto(args, db, n);
        if args[n - 1] != "--db"@ && args[n - 1] != db {
            assert(r[a.len() as int] == args[n - 1]);
            if a.contains(x) {
                let i = choose|i: int| 0 <= i < a.len() && a[i] == x;
                assert(r[i] == x);
            }
            if r.contains(x) && x != args[n - 1] {
                let i = choose|i: int| 0 <= i < r.len() && r[i] == x;
                assert(a[i] == x);
            }
        }
    }
}

/// A database is the one that its flag names, else the current directory.
pub proof fn law_database(args: Args)
    ensures
        flag_of(args, "--db"@) is Some ==> db_of(args) == flag_of(args, "--db"@)->0,
        flag_of(args, "--db"@) is None ==> db_of(args) == "."@,
{
}

/// A server gets the arguments behind its command as they are; only one that is brought up, with
/// neither a database nor the demonstration asked for and none in the environment, gets a directory of
/// its own at the end.
pub proof fn law_server_flags(args: Args, up: bool, db_in_env: bool)
    requires
        args.len() > 0,
    ensures
        ({
            let r = serve_flags(args, up, db_in_env);
            let named = exists|i: int| 1 <= i < args.len() && #[trigger] args[i] == "--db"@;
            let demo = exists|i: int| 1 <= i < args.len() && #[trigger] args[i] == "--demo"@;
            let own = up && !named && !demo && !db_in_env;
            &&& r.len() == args.len() - 1 + if own {
                2int
            } else {
                0int
            }
            &&& forall|i: int| 1 <= i < args.len() ==> r[i - 1] == #[trigger] args[i]
            &&& own ==> r[args.len() - 1] == "--db"@ && r[args.len() as int] == "./stroma-db"@
        }),
{
    let flags = args.skip(1);
    assert forall|x: Seq<char>| flags.contains(x) == (exists|i: int|
        1 <= i < args.len() && #[trigger] args[i] == x) by {
        if flags.contains(x) {
            let i = choose|i: int| 0 <= i < flags.len() && flags[i] == x;
            assert(args[i + 1] == x);
        }
        if exists|i: int| 1 <= i < args.len() && #[trigger] args[i] == x {
            let i = choose|i: int| 1 <= i < args.len() && #[trigger] args[i] == x;
            assert(flags[i - 1] == x);
        }
    }
    assert(flags.contains("--db"@) == (exists|i: int|
        1 <= i < args.len() && #[trigger] args[i] == "--db"@));
    assert(flags.contains("--demo"@) == (exists|i: int|
        1 <= i < args.len() && #[trigger] args[i] == "--demo"@));
}

proof fn lemma_commands_differ()
    ensures
        ({
            let a = seq![
                "serve"@,
                "up"@,
                "init"@,
                "ingest"@,
                "embed"@,
                "import"@,
                "query"@,
                "stats"@,
            ];
            forall|i: int, j: int| 0 <= i < j < 8 ==> #[trigger] a[i] != #[trigger] a[j]
        }),
{
    reveal_strlit("serve");
    reveal_strlit("up");
    reveal_strlit("init");
    reveal_strlit("ingest");
    reveal_strlit("embed");
    reveal_strlit("import");
    reveal_strlit("query");
    reveal_strlit("stats");
    assert("serve"@[1] == 'e' && "embed"@[1] == 'm' && "query"@[1] == 'u' && "stats"@[1] == 't');
    assert("ingest"@[1] == 'n' && "import"@[1] == 'm');
    assert("up"@.len() == 2 && "init"@.len() == 4 && "ingest"@.len() == 6 && "import"@.len() == 6);
    assert("serve"@.len() == 5 && "embed"@.len() == 5 && "query"@.len() == 5 && "stats"@.len() == 5);
}

/// Each command is asked for by its name. A file to work on is the first argument behind the command
/// that is not of the database; a command that needs one is refused without it, and an import also
/// where that is a flag. Anything else is refused.
pub proof fn law_commands(args: Args, db_in_env: bool)
    requires
        args.len() > 0,
    ensures
        ({
            let rest = rest_upto(args, db_of(args), args.len() as int);
            let r = planned(args, db_in_env);
            let cmd = args[0];
            let file = rest.len() > 0;
            &&& cmd == "init"@ <==> r is Ok && r->Ok_0 is Init
            &&& cmd == "stats"@ <==> r is Ok && r->Ok_0 is Stats
            &&& cmd == "query"@ <==> r is Ok && r->Ok_0 is Query
            &&& cmd == "serve"@ || cmd == "up"@ <==> r is Ok && r->Ok_0 is Serve
            &&& cmd == "ingest"@ && file <==> r is Ok && r->Ok_0 is Ingest
            &&& cmd == "embed"@ && file <==> r is Ok && r->Ok_0 is Embed
            &&& cmd == "import"@ && file && !is_flag(rest[0]) <==> r is Ok && r->Ok_0 is Import
            &&& r is Ok && r->Ok_0 is Query ==> r->Ok_0->Query_0 == rest
            &&& r is Ok && r->Ok_0 is Ingest ==> r->Ok_0->Ingest_0 == rest[0]
            &&& r is Ok && r->Ok_0 is Embed ==> r->Ok_0->Embed_0 == rest[0]
            &&& r is Ok && r->Ok_0 is Import ==> r->Ok_0->Import_0 == rest[0]
            &&& cmd == "serve"@ ==> r->Ok_0->Serve_0 == serve_flags(args, false, db_in_env)
            &&& cmd == "up"@ ==> r->Ok_0->Serve_0 == serve_flags(args, true, db_in_env)
        }),
{
    lemma_commands_differ();
    let a = seq![
        "serve"@,
        "up"@,
        "init"@,
        "ingest"@,
        "embed"@,
        "import"@,
        "query"@,
        "stats"@,
    ];
    assert(a[0] == "serve"@ && a[1] == "up"@ && a[2] == "init"@ && a[3] == "ingest"@);
    assert(a[4] == "embed"@ && a[5] == "import"@ && a[6] == "query"@ && a[7] == "stats"@);
}

/// An edge is named by its column, its type and its predicate, with a colon between each two; a value
/// with fewer or more colons names none.
pub proof fn law_edge_text(v: Seq<char>)
    ensures
        edge_of(v) matches Some(e) ==> v == e.0 + seq![':'] + e.1 + seq![':'] + e.2
            && !e.0.contains(':') && !e.1.contains(':') && !e.2.contains(':'),
        edge_of(v) is None <==> split(v, ':').len() != 3,
{
    law_split_rejoins(v, ':');
    if let Some(e) = edge_of(v) {
        let p = split(v, ':');
        assert(p.drop_last() =~= seq![e.0, e.1]);
        assert(p.drop_last().drop_last() =~= seq![e.0]);
        assert(rejoined(seq![e.0], ':') == e.0);
        assert(rejoined(seq![e.0, e.1], ':') == e.0 + seq![':'] + e.1) by {
            assert(seq![e.0, e.1].drop_last() =~= seq![e.0]);
        }
        assert(p[0] == e.0 && p[1] == e.1 && p[2] == e.2);
    }
}

/// A column gets the first edge that names it; the first value that names no edge is the one that an
/// import is refused for.
pub proof fn law_first_edges(vs: Args, column: Seq<char>, e: EdgeModel, b: Seq<char>)
    ensures
        edge_for(vs, column) == Some(e) <==> exists|i: int|
            0 <= i < vs.len() && edge_of(#[trigger] vs[i]) == Some(e) && e.0 == column && forall|j: int|
                0 <= j < i && edge_of(#[trigger] vs[j]) is Some ==> (edge_of(vs[j])->0).0 != column,
        bad_edge(vs) == Some(b) <==> exists|i: int|
            0 <= i < vs.len() && #[trigger] vs[i] == b && edge_of(b) is None && forall|j: int|
                0 <= j < i ==> edge_of(#[trigger] vs[j]) is Some,
    decreases vs.len(),
{
    if vs.len() > 0 {
        let init = vs.drop_last();
        let n = vs.len() - 1;
        law_first_edges(init, column, e, b);
        assert(vs[n] == vs.last());
        assert forall|i: int| 0 <= i < n implies #[trigger] vs[i] == init[i] by {}
        if let Some(x) = edge_for(init, column) {
            law_first_edges(init, column, x, b);
            let i = choose|i: int|
                0 <= i < init.len() && edge_of(#[trigger] init[i]) == Some(x) && x.0 == column && forall|
                    j: int,
                |
                    0 <= j < i && edge_of(#[trigger] init[j]) is Some ==> (edge_of(init[j])->0).0
                        != column;
            assert(vs[i] == init[i]);
        } else {
            assert forall|j: int| 0 <= j < n && edge_of(#[trigger] vs[j]) is Some implies (edge_of(
                vs[j],
            )->0).0 != column by {
                lemma_no_edge(init, column, j);
            }
        }
        if let Some(x) = bad_edge(init) {
            law_first_edges(init, column, e, x);
            let i = choose|i: int|
                0 <= i < init.len() && #[trigger] init[i] == x && edge_of(x) is None && forall|j: int|
                    0 <= j < i ==> edge_of(#[trigger] init[j]) is Some;
            assert(vs[i] == init[i]);
        } else {
            assert forall|j: int| 0 <= j < n implies edge_of(#[trigger] vs[j]) is Some by {
                lemma_all_edges(init, j);
            }
        }
    }
}

proof fn lemma_no_edge(vs: Args, column: Seq<char>, j: int)
    requires
        edge_for(vs, column) is None,
        0 <= j < vs.len(),
        edge_of(vs[j]) is Some,
    ensures
        (edge_of(vs[j])->0).0 != column,
    decreases vs.len(),
{
    if j < vs.len() - 1 {
        lemma_no_edge(vs.drop_last(), column, j);
    }
}

proof fn lemma_all_edges(vs: Args, j: int)
    requires
        bad_edge(vs) is None,
        0 <= j < vs.len(),
    ensures
        edge_of(vs[j]) is Some,
    decreases vs.len(),
{
    if j < vs.len() - 1 {
        lemma_all_edges(vs.drop_last(), j);
    }
}

/// A column has the first role that applies to it: it is the key; it starts validity; it ends validity;
/// an edge names it; it is skipped; else it is a literal.
pub proof fn law_column_roles(args: Args, id: Seq<char>, column: Seq<char>)
    ensures
        ({
            let r = role_for(args, id, column);
            let key = column == id;
            let starts = flag_of(args, "--valid-from"@) == Some(column);
            let ends = flag_of(args, "--valid-to"@) == Some(column);
            let edge = edge_for(flags_of(args, "--edge"@), column);
            let skipped = flags_of(args, "--skip"@).contains(column);
            &&& r is Id <==> key
            &&& r is ValidFrom <==> !key && starts
            &&& r is ValidTo <==> !key && !starts && ends
            &&& r is Edge <==> !key && !starts && !ends && edge is Some
            &&& r is Skip <==> !key && !starts && !ends && edge is None && skipped
            &&& r is Literal <==> !key && !starts && !ends && edge is None && !skipped
            &&& r is Edge ==> r == (RoleModel::Edge {
                target_type: (edge->0).1,
                predicate: (edge->0).2,
            })
        }),
{
}

/// An import is in order where a type and a key are named, every edge is one, and the columns of the
/// key and of validity are in the header; else it is refused. A column that is missing is told in that
/// order.
pub proof fn law_import_checks(args: Args, headers: Args, id: Seq<char>)
    requires
        flag_of(args, "--id"@) == Some(id),
    ensures
        ({
            let from = flag_of(args, "--valid-from"@);
            let to = flag_of(args, "--valid-to"@);
            &&& import_error(args, headers) is None <==> {
                &&& flag_of(args, "--type"@) is Some
                &&& forall|i: int|
                    0 <= i < flags_of(args, "--edge"@).len() ==> edge_of(
                        #[trigger] flags_of(args, "--edge"@)[i],
                    ) is Some
                &&& headers.contains(id)
                &&& from is Some ==> headers.contains(from->0)
                &&& to is Some ==> headers.contains(to->0)
            }
            &&& !headers.contains(id) ==> missing_column(args, id, headers) == Some(id)
            &&& headers.contains(id) && from is Some && !headers.contains(from->0)
                ==> missing_column(args, id, headers) == from
            &&& headers.contains(id) && (from is Some ==> headers.contains(from->0)) && to is Some
                && !headers.contains(to->0) ==> missing_column(args, id, headers) == to
        }),
        forall|other: Args|
            flag_of(other, "--id"@) is None ==> #[trigger] import_error(other, headers) is Some,
{
    let vs = flags_of(args, "--edge"@);
    if bad_edge(vs) is None {
        assert forall|i: int| 0 <= i < vs.len() implies edge_of(#[trigger] vs[i]) is Some by {
            lemma_all_edges(vs, i);
        }
    } else {
        let b = bad_edge(vs)->0;
        law_first_edges(vs, id, (id, id, id), b);
        let i = choose|i: int|
            0 <= i < vs.len() && #[trigger] vs[i] == b && edge_of(b) is None && forall|j: int|
                0 <= j < i ==> edge_of(#[trigger] vs[j]) is Some;
        assert(edge_of(vs[i]) is None);
    }
}

/// A point or an expansion asks for a subject, which has to be a number, and a predicate; a search for
/// a type and the file of its vector, with what else its flags say. Numbers in flags that are none are
/// left out.
pub proof fn law_queries(args: Args)
    ensures
        ({
            let r = asked(args);
            let hop = args.len() > 2 && uint64(args[1]) is Some;
            &&& args.len() > 0 && args[0] == "point"@ && hop <==> r is Ok && r->Ok_0 is Point
            &&& args.len() > 0 && args[0] == "expand"@ && hop <==> r is Ok && r->Ok_0 is Expand
            &&& args.len() > 0 && args[0] == "search"@ && flag_of(args, "--type"@) is Some && flag_of(
                args,
                "--vector-file"@,
            ) is Some <==> r is Ok && r->Ok_0 is Search
            &&& r is Ok && r->Ok_0 is Point ==> r->Ok_0 == (QueryModel::Point {
                subject: uint64(args[1])->0,
                predicate: args[2],
            })
            &&& r is Ok && r->Ok_0 is Expand ==> r->Ok_0 == (QueryModel::Expand {
                subject: uint64(args[1])->0,
                predicate: args[2],
            })
            &&& r is Ok && r->Ok_0 is Search ==> {
                let q = r->Ok_0;
                &&& Some(q->entity_type) == flag_of(args, "--type"@)
                &&& Some(q->vector_file) == flag_of(args, "--vector-file"@)
                &&& q->mode == flag_of(args, "--mode"@)
                &&& q->Search_expand == flag_of(args, "--expand"@)
                &&& q->k is Some <==> flag_of(args, "--k"@) is Some && uint64(
                    flag_of(args, "--k"@)->0,
                ) is Some
                &&& q->k is Some ==> q->k == uint64(flag_of(args, "--k"@)->0)
                &&& q->allowed_labels is Some <==> flag_of(args, "--allowed-labels"@) is Some
                    && uint64(flag_of(args, "--allowed-labels"@)->0) is Some
                &&& q->allowed_labels is Some ==> q->allowed_labels == uint64(
                    flag_of(args, "--allowed-labels"@)->0,
                )
            }
        }),
{
    reveal_strlit("point");
    reveal_strlit("expand");
    reveal_strlit("search");
    assert("point"@.len() == 5 && "expand"@.len() == 6 && "search"@.len() == 6);
    assert("expand"@[0] == 'e' && "search"@[0] == 's');
}

} // verus!
