//! What a table compiles to, said of its columns, rows and cells.
use super::{
    all_facts, all_nodes, cell, cell_fact, cell_instant, column_type, compiled, detected, fact_line,
    first_error, first_named, from_column, header_of, id_columns, instant, lines_text, literal_text,
    node_key, node_line, plan_types, pred_line, pred_lines, range_name, row_error, row_facts,
    row_nodes, row_subject, source_text, time_text, times_text, to_column, type_line, type_lines,
    Cells, ColType, Column, Plan, RoleModel,
};
use crate::ordmap::{lemma_sorted_items, sorted_items};
use crate::text::{
    decimal, int64, is_space, json_text, law_trim_takes_white_space, signed_decimal, trimmed,
};
use vstd::prelude::*;

verus! {

/// Whether a cell is blank: nothing but white space.
pub open spec fn blank(c: Seq<char>) -> bool {
    trimmed(c).len() == 0
}

/// What a column is taken for. It is text where every cell is blank. Else it is of integers where
/// every cell that is not blank is one; else of numbers, else of dates, where every such cell is one;
/// else it is text. Blank cells do not count.
pub proof fn law_column_types(cells: Seq<Seq<char>>, floats: Map<Seq<char>, Seq<char>>)
    ensures
        ({
            let filled = exists|i: int| 0 <= i < cells.len() && !blank(#[trigger] cells[i]);
            let ints = forall|i: int|
                0 <= i < cells.len() && !blank(#[trigger] cells[i]) ==> int64(trimmed(cells[i]))
                    is Some;
            let numbers = forall|i: int|
                0 <= i < cells.len() && !blank(#[trigger] cells[i]) ==> floats.contains_key(
                    trimmed(cells[i]),
                );
            let dates = forall|i: int|
                0 <= i < cells.len() && !blank(#[trigger] cells[i]) ==> instant(trimmed(cells[i]))
                    is Some;
            let t = detected(cells, floats);
            &&& t == ColType::Int <==> filled && ints
            &&& t == ColType::Float <==> filled && !ints && numbers
            &&& t == ColType::Date <==> filled && !ints && !numbers && dates
            &&& t == ColType::Text <==> !filled || !(ints || numbers || dates)
        }),
{
    let t = detected(cells, floats);
    let ints = |c: Seq<char>| int64(c) is Some;
    let numbers = |c: Seq<char>| floats.contains_key(c);
    let dates = |c: Seq<char>| instant(c) is Some;
    assert forall|i: int| 0 <= i < cells.len() implies (#[trigger] blank(cells[i]) == (trimmed(
        cells[i],
    ).len() == 0)) by {}
    if exists|i: int| 0 <= i < cells.len() && !blank(#[trigger] cells[i]) {
        let i = choose|i: int| 0 <= i < cells.len() && !blank(#[trigger] cells[i]);
        assert(trimmed(cells[i]).len() > 0);
        assert(super::some_cell(cells));
    }
    assert forall|i: int|
        0 <= i < cells.len() && trimmed(#[trigger] cells[i]).len() > 0 implies !blank(cells[i]) by {}
    assert(super::all_cells(cells, ints) == (forall|i: int|
        0 <= i < cells.len() && !blank(#[trigger] cells[i]) ==> int64(trimmed(cells[i])) is Some));
    assert(super::all_cells(cells, numbers) == (forall|i: int|
        0 <= i < cells.len() && !blank(#[trigger] cells[i]) ==> floats.contains_key(
            trimmed(cells[i]),
        )));
    assert(super::all_cells(cells, dates) == (forall|i: int|
        0 <= i < cells.len() && !blank(#[trigger] cells[i]) ==> instant(trimmed(cells[i])) is Some));
}

/// The key columns are all columns of that role, ascending; so there is one exactly where one column
/// has the role.
pub proof fn law_key_columns(roles: Seq<Column>, i: int)
    ensures
        id_columns(roles).contains(i) <==> 0 <= i < roles.len() && roles[i].1 is Id,
        forall|a: int, b: int|
            0 <= a < b < id_columns(roles).len() ==> #[trigger] id_columns(roles)[a]
                < #[trigger] id_columns(roles)[b],
        forall|a: int|
            0 <= a < id_columns(roles).len() ==> 0 <= #[trigger] id_columns(roles)[a] < roles.len(),
    decreases roles.len(),
{
    if roles.len() > 0 {
        let init = roles.drop_last();
        law_key_columns(init, i);
        let a = id_columns(init);
        let r = id_columns(roles);
        let n = roles.len() - 1;
        assert(roles[n] == roles.last());
        if i < n && 0 <= i {
            assert(init[i] == roles[i]);
        }
        if roles.last().1 is Id {
            assert(r[a.len() as int] == n);
            if a.contains(i) {
                let j = choose|j: int| 0 <= j < a.len() && a[j] == i;
                assert(r[j] == i);
            }
            if r.contains(i) && i != n {
                let j = choose|j: int| 0 <= j < r.len() && r[j] == i;
                assert(a[j] == i);
            }
        }
    }
}

/// Validity is read from the first column of each role, and a name stands for its first column; where
/// there is none, it is the number of columns.
pub proof fn law_first_columns(roles: Seq<Column>, name: Seq<char>)
    ensures
        ({
            let f = from_column(roles);
            &&& 0 <= f <= roles.len()
            &&& f < roles.len() ==> roles[f].1 is ValidFrom
            &&& forall|i: int| 0 <= i < f ==> !((#[trigger] roles[i]).1 is ValidFrom)
        }),
        ({
            let t = to_column(roles);
            &&& 0 <= t <= roles.len()
            &&& t < roles.len() ==> roles[t].1 is ValidTo
            &&& forall|i: int| 0 <= i < t ==> !((#[trigger] roles[i]).1 is ValidTo)
        }),
        ({
            let n = first_named(roles, name);
            &&& 0 <= n <= roles.len()
            &&& n < roles.len() ==> roles[n].0 == name
            &&& forall|i: int| 0 <= i < n ==> (#[trigger] roles[i]).0 != name
        }),
    decreases roles.len(),
{
    if roles.len() > 0 {
        let rest = roles.skip(1);
        law_first_columns(rest, name);
        assert forall|i: int| 0 < i < roles.len() implies #[trigger] roles[i] == rest[i - 1] by {}
        let (f, t, n) = (from_column(roles), to_column(roles), first_named(roles, name));
        if f > 0 && f < roles.len() {
            assert(roles[f] == rest[f - 1]);
        }
        if t > 0 && t < roles.len() {
            assert(roles[t] == rest[t - 1]);
        }
        if n > 0 && n < roles.len() {
            assert(roles[n] == rest[n - 1]);
        }
    }
}

/// Whether the cell of a column stands in the way: the column is there, the cell is not blank, and it
/// is neither a date nor an integer.
pub open spec fn bad_instant(row: Cells, i: int, n: int) -> bool {
    i < n && cell(row, i).len() > 0 && instant(cell(row, i)) is None && int64(cell(row, i)) is None
}

/// A row is in order where its key is not blank and neither validity cell stands in the way; what is
/// wrong with it otherwise tells its number in the file.
pub proof fn law_row_checks(p: Plan, row: Cells, r: int)
    ensures
        row_error(p, row, r) is None <==> {
            let n = p.roles.len() as int;
            &&& cell(row, id_columns(p.roles)[0]).len() > 0
            &&& !bad_instant(row, from_column(p.roles), n)
            &&& !bad_instant(row, to_column(p.roles), n)
        },
        r >= 0 && row_error(p, row, r) is Some ==> ("row "@ + decimal((r + 2) as nat)).is_prefix_of(
            row_error(p, row, r)->0,
        ),
        cell_instant(cell(row, 0)) == (if instant(cell(row, 0)) is Some {
            instant(cell(row, 0))
        } else {
            int64(cell(row, 0))
        }),
{
    let label = "row "@ + decimal((r + 2) as nat);
    if let Some(e) = row_error(p, row, r) {
        assert(e.take(label.len() as int) =~= label);
    }
}

/// A table fails by its first bad row, and only where there is one.
pub proof fn law_first_bad_row(p: Plan, n: int, e: Seq<char>)
    requires
        0 <= n <= p.rows.len(),
    ensures
        first_error(p, n) == Some(e) <==> exists|r: int|
            0 <= r < n && #[trigger] row_error(p, p.rows[r], r) == Some(e) && forall|q: int|
                0 <= q < r ==> #[trigger] row_error(p, p.rows[q], q) is None,
        first_error(p, n) is None <==> forall|r: int|
            0 <= r < n ==> #[trigger] row_error(p, p.rows[r], r) is None,
    decreases n,
{
    if n > 0 {
        law_first_bad_row(p, n - 1, e);
        if first_error(p, n) == Some(e) && first_error(p, n - 1) is None {
            assert(row_error(p, p.rows[n - 1], n - 1) == Some(e));
        }
        if first_error(p, n - 1) is Some {
            let x = first_error(p, n - 1)->0;
            law_first_bad_row(p, n - 1, x);
            let r = choose|r: int|
                0 <= r < n - 1 && #[trigger] row_error(p, p.rows[r], r) == Some(x) && forall|q: int|
                    0 <= q < r ==> #[trigger] row_error(p, p.rows[q], q) is None;
            assert(row_error(p, p.rows[r], r) == Some(x));
        }
    }
}

/// The facts of a cell. A blank cell states nothing, nor does one of the key, of validity or of a
/// column that is skipped. One of a literal column states its value, under the column's name; one of an
/// edge column an edge to the node of its key, under the edge's predicate. Either is of the row's own
/// node, with the row's validity and the source.
pub proof fn law_cell_states(p: Plan, row: Cells, i: int)
    requires
        0 <= i < p.roles.len(),
    ensures
        ({
            let v = cell(row, i);
            let me = node_key(p.node_type, cell(row, id_columns(p.roles)[0]));
            let tail = times_text(p, row) + source_text(p);
            let f = cell_fact(p, row, i);
            &&& v.len() == 0 ==> f.len() == 0
            &&& p.roles[i].1 is Id || p.roles[i].1 is ValidFrom || p.roles[i].1 is ValidTo
                || p.roles[i].1 is Skip ==> f.len() == 0
            &&& v.len() > 0 && p.roles[i].1 is Literal ==> f == fact_line(
                me,
                p.roles[i].0,
                literal_text(p, column_type(p, i), v),
                tail,
            )
            &&& v.len() > 0 && p.roles[i].1 is Edge ==> f == fact_line(
                me,
                p.roles[i].1->predicate,
                "{\"node\":"@ + decimal(node_key(p.roles[i].1->target_type, v) as nat) + "}"@,
                tail,
            )
        }),
        row_facts(p, row, i + 1) == row_facts(p, row, i) + cell_fact(p, row, i),
        row_facts(p, row, 0).len() == 0,
{
}

/// The facts of a table are those of its rows, one row after another.
pub proof fn law_rows_state(p: Plan, r: int)
    requires
        0 <= r < p.rows.len(),
    ensures
        all_facts(p, 0).len() == 0,
        all_facts(p, r + 1) == all_facts(p, r) + row_facts(p, p.rows[r], p.roles.len() as int),
{
}

/// A literal is written by the type of its column: an integer by its value, a date by its instant, a
/// number by its own text, anything else as text.
pub proof fn law_literals(p: Plan, v: Seq<char>, n: i64)
    ensures
        int64(v) == Some(n) ==> literal_text(p, ColType::Int, v) == "{\"int\":"@ + signed_decimal(
            n as int,
        ) + "}"@,
        instant(v) == Some(n) ==> literal_text(p, ColType::Date, v) == "{\"int\":"@ + signed_decimal(
            n as int,
        ) + "}"@,
        p.floats.contains_key(v) ==> literal_text(p, ColType::Float, v) == "{\"float\":"@
            + p.floats[v] + "}"@,
{
}

/// The validity of a row's facts: a start exactly where the start column is there and its cell is not
/// blank, an end likewise, the start first.
pub proof fn law_row_validity(p: Plan, row: Cells, a: i64, b: i64)
    ensures
        ({
            let n = p.roles.len() as int;
            let (f, t) = (from_column(p.roles), to_column(p.roles));
            let starts = f < n && cell(row, f).len() > 0;
            let ends = t < n && cell(row, t).len() > 0;
            &&& !starts && !ends ==> times_text(p, row).len() == 0
            &&& starts && !ends && cell_instant(cell(row, f)) == Some(a) ==> times_text(p, row)
                == ",\"valid_from\":"@ + signed_decimal(a as int)
            &&& !starts && ends && cell_instant(cell(row, t)) == Some(b) ==> times_text(p, row)
                == ",\"valid_to\":"@ + signed_decimal(b as int)
            &&& starts && ends && cell_instant(cell(row, f)) == Some(a) && cell_instant(cell(row, t))
                == Some(b) ==> times_text(p, row) == ",\"valid_from\":"@ + signed_decimal(a as int)
                + (",\"valid_to\":"@ + signed_decimal(b as int))
        }),
{
    let n = p.roles.len() as int;
    let (f, t) = (from_column(p.roles), to_column(p.roles));
    let x = time_text(",\"valid_from\":"@, row, f, n);
    let y = time_text(",\"valid_to\":"@, row, t, n);
    if !(f < n && cell(row, f).len() > 0) {
        assert(x + y =~= y);
    }
    if !(t < n && cell(row, t).len() > 0) {
        assert(x + y =~= x);
    }
}

/// The nodes of a table are the nodes of its rows and those that its edges lead to from cells that are
/// not blank, each under its own type; and no others.
pub proof fn law_table_nodes(p: Plan, n: int, line: Seq<char>)
    requires
        0 <= n <= p.rows.len(),
    ensures
        all_nodes(p, n).contains(line) <==> exists|r: int|
            0 <= r < n && has_node(p, #[trigger] p.rows[r], line),
    decreases n,
{
    if n > 0 {
        law_table_nodes(p, n - 1, line);
        let row = p.rows[n - 1];
        lemma_row_nodes(p, row, p.roles.len() as int, line);
        if all_nodes(p, n - 1).contains(line) {
            let r = choose|r: int| 0 <= r < n - 1 && has_node(p, #[trigger] p.rows[r], line);
            assert(has_node(p, p.rows[r], line));
        }
        if has_node(p, row, line) {
            assert(has_node(p, p.rows[n - 1], line));
        }
    }
}

/// Whether a line is that of a row's own node, or of a node that an edge of the row leads to.
pub open spec fn has_node(p: Plan, row: Cells, line: Seq<char>) -> bool {
    ||| line == node_line(
        node_key(p.node_type, cell(row, id_columns(p.roles)[0])),
        p.node_type,
    )
    ||| exists|i: int|
        0 <= i < p.roles.len() && (#[trigger] p.roles[i]).1 is Edge && cell(row, i).len() > 0 && line
            == node_line(node_key(p.roles[i].1->target_type, cell(row, i)), p.roles[i].1->target_type)
}

proof fn lemma_row_nodes(p: Plan, row: Cells, n: int, line: Seq<char>)
    requires
        0 <= n <= p.roles.len(),
    ensures
        row_nodes(p, row, n).contains(line) <==> {
            ||| line == node_line(row_subject(p, row), p.node_type)
            ||| exists|i: int|
                0 <= i < n && (#[trigger] p.roles[i]).1 is Edge && cell(row, i).len() > 0 && line
                    == node_line(
                    node_key(p.roles[i].1->target_type, cell(row, i)),
                    p.roles[i].1->target_type,
                )
        },
    decreases n,
{
    if n > 0 {
        lemma_row_nodes(p, row, n - 1, line);
        let role = p.roles[n - 1].1;
        assert(p.roles[n - 1] == p.roles[n - 1]);
    }
}

/// The types of a table are that of its nodes and those that its edges lead to.
pub proof fn law_table_types(node_type: Seq<char>, roles: Seq<Column>, t: Seq<char>)
    ensures
        plan_types(node_type, roles).contains(t) <==> t == node_type || exists|i: int|
            0 <= i < roles.len() && (#[trigger] roles[i]).1 is Edge && roles[i].1->target_type == t,
    decreases roles.len(),
{
    if roles.len() > 0 {
        let init = roles.drop_last();
        law_table_types(node_type, init, t);
        let n = roles.len() - 1;
        assert(roles[n] == roles.last());
        if exists|i: int|
            0 <= i < init.len() && (#[trigger] init[i]).1 is Edge && init[i].1->target_type == t {
            let i = choose|i: int|
                0 <= i < init.len() && (#[trigger] init[i]).1 is Edge && init[i].1->target_type == t;
            assert(roles[i] == init[i]);
        }
        if exists|i: int|
            0 <= i < roles.len() && (#[trigger] roles[i]).1 is Edge && roles[i].1->target_type == t {
            let i = choose|i: int|
                0 <= i < roles.len() && (#[trigger] roles[i]).1 is Edge && roles[i].1->target_type
                    == t;
            if i < n {
                assert(init[i] == roles[i]);
            }
        }
    }
}

/// Only literal and edge columns define a predicate, of one value and of the table's nodes: a literal
/// one by the column's name, with what its first column holds for its range, where a date counts as
/// an integer; an edge by its predicate, with the type that it leads to.
pub proof fn law_columns_define(p: Plan, c: Column)
    ensures
        c.1 is Id || c.1 is ValidFrom || c.1 is ValidTo || c.1 is Skip ==> pred_line(p, c).len() == 0,
        c.1 matches RoleModel::Edge { target_type, predicate } ==> pred_line(p, c)
            == "{\"pred_def\":{\"name\":"@ + json_text(predicate)
            + ",\"cardinality\":\"one\",\"domain\":"@ + json_text(p.node_type) + ",\"range\":"@
            + json_text(target_type) + "}}\n"@,
        c.1 is Literal ==> ({
            let t = column_type(p, first_named(p.roles, c.0));
            let range = if t is Int || t is Date {
                "int"@
            } else if t is Float {
                "float"@
            } else {
                "text"@
            };
            let end = if c.0 == "name"@ || c.0 == "title"@ {
                "\",\"display\":true}}\n"@
            } else {
                "\"}}\n"@
            };
            pred_line(p, c) == "{\"pred_def\":{\"name\":"@ + json_text(c.0)
                + ",\"cardinality\":\"one\",\"domain\":"@ + json_text(p.node_type)
                + ",\"range_value\":\""@ + range + end
        }),
{
    reveal_strlit("\",\"display\":true}}\n");
    reveal_strlit("\"}}\n");
    reveal_strlit("\"");
    reveal_strlit(",\"display\":true");
    reveal_strlit("}}\n");
    let start = "{\"pred_def\":{\"name\":"@ + json_text(c.0)
        + ",\"cardinality\":\"one\",\"domain\":"@ + json_text(p.node_type)
        + ",\"range_value\":\""@;
    assert("\""@ + ",\"display\":true"@ + "}}\n"@ =~= "\",\"display\":true}}\n"@);
    assert("\""@ + "}}\n"@ =~= "\"}}\n"@);
    if c.1 is Literal {
        let range = range_name(column_type(p, first_named(p.roles, c.0)));
        assert(start + range + "\""@ + ",\"display\":true"@ + "}}\n"@ =~= start + range + ("\""@
            + ",\"display\":true"@ + "}}\n"@));
        assert(start + range + "\""@ + Seq::<char>::empty() + "}}\n"@ =~= start + range + ("\""@
            + "}}\n"@));
    }
}

/// Whether a text stands in another from a place on.
pub open spec fn stands_at(s: Seq<char>, i: int, x: Seq<char>) -> bool {
    0 <= i && i + x.len() <= s.len() && s.subrange(i, i + x.len()) == x
}

/// Whether a text stands in another before a third, with no overlap.
pub open spec fn comes_before(s: Seq<char>, x: Seq<char>, y: Seq<char>) -> bool {
    exists|i: int, j: int| #[trigger]
        stands_at(s, i, x) && #[trigger] stands_at(s, j, y) && i + x.len() <= j
}

proof fn lemma_stands_within(a: Seq<char>, m: Seq<char>, b: Seq<char>, i: int, x: Seq<char>)
    requires
        stands_at(m, i, x),
    ensures
        stands_at(a + m + b, a.len() + i, x),
{
    assert((a + m + b).subrange(a.len() + i, a.len() + i + x.len()) =~= m.subrange(i, i + x.len()));
}

proof fn lemma_type_stands(ts: Seq<Seq<char>>, k: int) -> (i: int)
    requires
        0 <= k < ts.len(),
    ensures
        stands_at(type_lines(ts), i, type_line(ts[k])),
    decreases ts.len(),
{
    let init = type_lines(ts.drop_last());
    let line = type_line(ts.last());
    if k == ts.len() - 1 {
        assert(line.subrange(0, line.len() as int) =~= line);
        lemma_stands_within(init, line, Seq::empty(), 0, line);
        assert(init + line + Seq::<char>::empty() =~= init + line);
        init.len() as int
    } else {
        let i = lemma_type_stands(ts.drop_last(), k);
        lemma_stands_within(Seq::empty(), init, line, i, type_line(ts[k]));
        assert(Seq::<char>::empty() + init + line =~= init + line);
        i
    }
}

proof fn lemma_pred_stands(p: Plan, cs: Seq<Column>, k: int) -> (i: int)
    requires
        0 <= k < cs.len(),
    ensures
        stands_at(pred_lines(p, cs), i, pred_line(p, cs[k])),
    decreases cs.len(),
{
    let init = pred_lines(p, cs.drop_last());
    let line = pred_line(p, cs.last());
    if k == cs.len() - 1 {
        assert(line.subrange(0, line.len() as int) =~= line);
        lemma_stands_within(init, line, Seq::empty(), 0, line);
        assert(init + line + Seq::<char>::empty() =~= init + line);
        init.len() as int
    } else {
        let i = lemma_pred_stands(p, cs.drop_last(), k);
        lemma_stands_within(Seq::empty(), init, line, i, pred_line(p, cs[k]));
        assert(Seq::<char>::empty() + init + line =~= init + line);
        i
    }
}

proof fn lemma_line_stands(ls: Seq<Seq<char>>, k: int) -> (i: int)
    requires
        0 <= k < ls.len(),
    ensures
        stands_at(lines_text(ls), i, ls[k] + "\n"@),
    decreases ls.len(),
{
    let init = lines_text(ls.drop_last());
    let line = ls.last() + "\n"@;
    assert(lines_text(ls) =~= init + line);
    if k == ls.len() - 1 {
        assert(line.subrange(0, line.len() as int) =~= line);
        lemma_stands_within(init, line, Seq::empty(), 0, line);
        assert(init + line + Seq::<char>::empty() =~= init + line);
        init.len() as int
    } else {
        let i = lemma_line_stands(ls.drop_last(), k);
        lemma_stands_within(Seq::empty(), init, line, i, ls[k] + "\n"@);
        assert(Seq::<char>::empty() + init + line =~= init + line);
        i
    }
}

proof fn lemma_row_stands(p: Plan, n: int, r: int) -> (i: int)
    requires
        0 <= r < n <= p.rows.len(),
    ensures
        stands_at(all_facts(p, n), i, row_facts(p, p.rows[r], p.roles.len() as int)),
    decreases n,
{
    let init = all_facts(p, n - 1);
    let last = row_facts(p, p.rows[n - 1], p.roles.len() as int);
    if r == n - 1 {
        assert(last.subrange(0, last.len() as int) =~= last);
        lemma_stands_within(init, last, Seq::empty(), 0, last);
        assert(init + last + Seq::<char>::empty() =~= init + last);
        init.len() as int
    } else {
        let i = lemma_row_stands(p, n - 1, r);
        let facts = row_facts(p, p.rows[r], p.roles.len() as int);
        lemma_stands_within(Seq::empty(), init, last, i, facts);
        assert(Seq::<char>::empty() + init + last =~= init + last);
        i
    }
}

proof fn lemma_finitely_many(p: Plan, roles: Seq<Column>, n: int)
    ensures
        plan_types(p.node_type, roles).finite(),
        all_nodes(p, n).finite(),
    decreases roles.len(), n,
{
    if roles.len() > 0 {
        lemma_finitely_many(p, roles.drop_last(), n);
    } else if n > 0 {
        lemma_finitely_many(p, roles, n - 1);
        lemma_row_finite(p, p.rows[n - 1], p.roles.len() as int);
    }
}

proof fn lemma_row_finite(p: Plan, row: Cells, n: int)
    ensures
        row_nodes(p, row, n).finite(),
    decreases n,
{
    if n > 0 {
        lemma_row_finite(p, row, n - 1);
    }
}

/// Nothing is used before it is defined: every type stands before every predicate, every predicate
/// before every node, and every node before the facts of every row.
pub proof fn law_definitions_come_first(p: Plan, t: Seq<char>, c: int, line: Seq<char>, r: int)
    requires
        plan_types(p.node_type, p.roles).contains(t),
        0 <= c < p.roles.len(),
        all_nodes(p, p.rows.len() as int).contains(line),
        0 <= r < p.rows.len(),
    ensures
        comes_before(compiled(p), type_line(t), pred_line(p, p.roles[c])),
        comes_before(compiled(p), pred_line(p, p.roles[c]), line + "\n"@),
        comes_before(
            compiled(p),
            line + "\n"@,
            row_facts(p, p.rows[r], p.roles.len() as int),
        ),
{
    let n = p.rows.len() as int;
    lemma_finitely_many(p, p.roles, n);
    let types = sorted_items::<String>(plan_types(p.node_type, p.roles));
    let nodes = sorted_items::<String>(all_nodes(p, n));
    lemma_sorted_items::<String>(plan_types(p.node_type, p.roles));
    lemma_sorted_items::<String>(all_nodes(p, n));
    assert(types.to_set().contains(t));
    assert(nodes.to_set().contains(line));
    let i = lemma_type_stands(types, types.index_of(t));
    let j = lemma_pred_stands(p, p.roles, c);
    let k = lemma_line_stands(nodes, nodes.index_of(line));
    let l = lemma_row_stands(p, n, r);
    let (x, y) = (type_lines(types), pred_lines(p, p.roles));
    let (z, w) = (lines_text(nodes), all_facts(p, n));
    let none = Seq::<char>::empty();
    let pred = pred_line(p, p.roles[c]);
    let facts = row_facts(p, p.rows[r], p.roles.len() as int);
    lemma_stands_within(none, x, y + z + w, i, type_line(t));
    lemma_stands_within(x, y, z + w, j, pred);
    lemma_stands_within(x + y, z, w, k, line + "\n"@);
    lemma_stands_within(x + y + z, w, none, l, facts);
    let s = compiled(p);
    assert(s =~= none + x + (y + z + w));
    assert(s =~= x + y + (z + w));
    assert(s =~= x + y + z + w);
    assert(s =~= x + y + z + w + none);
    assert(stands_at(s, i, type_line(t)));
    assert(stands_at(s, x.len() + j, pred));
    assert(stands_at(s, (x + y).len() + k, line + "\n"@));
    assert(stands_at(s, (x + y + z).len() + l, facts));
}

/// A header names a column by its cell without the white space around it.
pub proof fn law_headers_are_trimmed(row: Seq<Seq<char>>, i: int)
    requires
        0 <= i < row.len(),
    ensures
        header_of(row).len() == row.len(),
        ({
            let name = header_of(row)[i];
            &&& name.len() > 0 ==> !is_space(name[0]) && !is_space(name.last())
            &&& exists|a: int| #[trigger]
                stands_at(row[i], a, name) && forall|j: int|
                    0 <= j < row[i].len() && (j < a || j >= a + name.len()) ==> is_space(
                        #[trigger] row[i][j],
                    )
        }),
{
    law_trim_takes_white_space(row[i]);
    let t = trimmed(row[i]);
    let a = choose|a: int|
        0 <= a <= a + t.len() <= row[i].len() && #[trigger] row[i].subrange(a, a + t.len()) == t && (
        forall|j: int|
            0 <= j < row[i].len() && (j < a || j >= a + t.len()) ==> is_space(#[trigger] row[i][j]));
    assert(stands_at(row[i], a, t));
}

} // verus!
