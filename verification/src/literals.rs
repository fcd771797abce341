//! The literals of a statement whose readings it may need.
//!
//! Numbers with a fraction and IP addresses are read outside the library. The
//! program asks which literals a statement holds, reads them, and hands the
//! readings over with the bound values.

use crate::cql_value::reading_of;
use crate::dml::{assignments_of, updates_of};
use crate::expr::{
    constant, constant_pairs, constants, filter_of, filters_of, operand_value, restricting_value,
    restricting_values, Env,
};
use crate::query::{resolved, table_step};
use crate::schema::{id_text, ColumnType, TableView};
use crate::text::{texts, trim, trimmed};
use cql3_parser::cassandra_statement::CassandraStatement;
use cql3_parser::common::{Identifier, Operand, RelationElement};
use cql3_parser::insert::InsertValues;
use cql3_parser::update::AssignmentElement;
use vstd::prelude::*;

verus! {

/// Literals without the white space around them.
pub open spec fn trimmed_texts(items: Seq<String>) -> Seq<Seq<char>> {
    items.map_values(|t: String| trimmed(t@))
}

/// The literals of the entries of a map from the `i`-th on.
pub open spec fn pair_literals(items: Seq<(String, String)>, i: int) -> Seq<Seq<char>>
    decreases items.len() - i,
{
    if i >= items.len() {
        Seq::empty()
    } else {
        seq![trimmed(items[i].0@), trimmed(items[i].1@)] + pair_literals(items, i + 1)
    }
}

/// The literals among the items of a tuple from the `i`-th on.
pub open spec fn item_literals(items: Seq<Operand>, i: int) -> Seq<Seq<char>>
    decreases items.len() - i,
{
    if i >= items.len() {
        Seq::empty()
    } else {
        (match items[i] {
            Operand::Const(t) => seq![trimmed(t@)],
            _ => Seq::empty(),
        }) + item_literals(items, i + 1)
    }
}

/// The literals of an operand.
pub open spec fn operand_literals(operand: Operand) -> Seq<Seq<char>> {
    match operand {
        Operand::Const(t) => seq![trimmed(t@)],
        Operand::Set(items) => trimmed_texts(items@),
        Operand::List(items) => trimmed_texts(items@),
        Operand::Map(items) => pair_literals(items@, 0),
        Operand::Tuple(items) => item_literals(items@, 0),
        _ => Seq::empty(),
    }
}

/// The literals of the operands from the `i`-th on.
pub open spec fn operands_literals(operands: Seq<Operand>, i: int) -> Seq<Seq<char>>
    decreases operands.len() - i,
{
    if i >= operands.len() {
        Seq::empty()
    } else {
        operand_literals(operands[i]) + operands_literals(operands, i + 1)
    }
}

/// The literals of the relations from the `i`-th on.
pub open spec fn where_literals(rels: Seq<RelationElement>, i: int) -> Seq<Seq<char>>
    decreases rels.len() - i,
{
    if i >= rels.len() {
        Seq::empty()
    } else {
        operand_literals(rels[i].value) + where_literals(rels, i + 1)
    }
}

/// The literals of the assignments from the `i`-th on.
pub open spec fn assignment_literals(assignments: Seq<AssignmentElement>, i: int) -> Seq<Seq<char>>
    decreases assignments.len() - i,
{
    if i >= assignments.len() {
        Seq::empty()
    } else {
        operand_literals(assignments[i].value) + assignment_literals(assignments, i + 1)
    }
}

/// The literals of a statement.
pub open spec fn statement_literals(stmt: CassandraStatement) -> Seq<Seq<char>> {
    match stmt {
        CassandraStatement::Insert(i) => match i.values {
            InsertValues::Values(v) => operands_literals(v@, 0),
            InsertValues::Json(_) => Seq::empty(),
        },
        CassandraStatement::Update(u) => assignment_literals(u.assignments@, 0) + where_literals(
            u.where_clause@,
            0,
        ),
        CassandraStatement::Select(s) => where_literals(s.where_clause@, 0),
        CassandraStatement::Delete(d) => where_literals(d.where_clause@, 0),
        _ => Seq::empty(),
    }
}

fn push_trimmed(out: &mut Vec<String>, t: &str)
    ensures
        texts(final(out)@) == texts(old(out)@).push(trimmed(t@)),
{
    out.push(trim(t));
    assert(texts(out@) =~= texts(old(out)@).push(trimmed(t@)));
}

fn push_texts(out: &mut Vec<String>, items: &Vec<String>)
    ensures
        texts(final(out)@) == texts(old(out)@) + trimmed_texts(items@),
{
    let ghost all = trimmed_texts(items@);
    let ghost start = texts(out@);
    let mut i: usize = 0;
    assert(start + all.take(0) =~= start);
    while i < items.len()
        invariant
            i <= items@.len(),
            all == trimmed_texts(items@),
            texts(out@) == start + all.take(i as int),
        decreases items@.len() - i,
    {
        let ghost before = texts(out@);
        push_trimmed(out, &items[i]);
        i += 1;
        assert(before.push(all[i - 1]) =~= start + all.take(i as int));
    }
    assert(all.take(i as int) =~= all);
}

fn push_pairs(out: &mut Vec<String>, items: &Vec<(String, String)>)
    ensures
        texts(final(out)@) == texts(old(out)@) + pair_literals(items@, 0),
{
    let ghost all = texts(out@) + pair_literals(items@, 0);
    let mut i: usize = 0;
    while i < items.len()
        invariant
            i <= items@.len(),
            all == texts(out@) + pair_literals(items@, i as int),
        decreases items@.len() - i,
    {
        let ghost before = texts(out@);
        push_trimmed(out, &items[i].0);
        push_trimmed(out, &items[i].1);
        assert(before + pair_literals(items@, i as int) =~= texts(out@) + pair_literals(
            items@,
            i + 1,
        ));
        i += 1;
    }
    assert(texts(out@) + Seq::<Seq<char>>::empty() =~= texts(out@));
}

fn push_items(out: &mut Vec<String>, items: &Vec<Operand>)
    ensures
        texts(final(out)@) == texts(old(out)@) + item_literals(items@, 0),
{
    let ghost all = texts(out@) + item_literals(items@, 0);
    let mut i: usize = 0;
    while i < items.len()
        invariant
            i <= items@.len(),
            all == texts(out@) + item_literals(items@, i as int),
        decreases items@.len() - i,
    {
        let ghost before = texts(out@);
        if let Operand::Const(t) = &items[i] {
            push_trimmed(out, t);
        }
        assert(before + item_literals(items@, i as int) =~= texts(out@) + item_literals(
            items@,
            i + 1,
        ));
        i += 1;
    }
    assert(texts(out@) + Seq::<Seq<char>>::empty() =~= texts(out@));
}

fn push_operand(out: &mut Vec<String>, operand: &Operand)
    ensures
        texts(final(out)@) == texts(old(out)@) + operand_literals(*operand),
{
    let ghost start = texts(out@);
    match operand {
        Operand::Const(t) => {
            push_trimmed(out, t);
            assert(texts(out@) =~= start + seq![trimmed(t@)]);
        },
        Operand::Set(items) => push_texts(out, items),
        Operand::List(items) => push_texts(out, items),
        Operand::Map(items) => push_pairs(out, items),
        Operand::Tuple(items) => push_items(out, items),
        _ => {
            assert(texts(out@) =~= start + Seq::<Seq<char>>::empty());
        },
    }
}

fn push_where(out: &mut Vec<String>, rels: &Vec<RelationElement>)
    ensures
        texts(final(out)@) == texts(old(out)@) + where_literals(rels@, 0),
{
    let ghost all = texts(out@) + where_literals(rels@, 0);
    let mut i: usize = 0;
    while i < rels.len()
        invariant
            i <= rels@.len(),
            all == texts(out@) + where_literals(rels@, i as int),
        decreases rels@.len() - i,
    {
        let ghost before = texts(out@);
        push_operand(out, &rels[i].value);
        assert(before + where_literals(rels@, i as int) =~= texts(out@) + where_literals(
            rels@,
            i + 1,
        ));
        i += 1;
    }
    assert(texts(out@) + Seq::<Seq<char>>::empty() =~= texts(out@));
}

/// The literals of a statement, without the white space around them.
pub fn literals_in(stmt: &CassandraStatement) -> (out: Vec<String>)
    ensures
        texts(out@) == statement_literals(*stmt),
{
    let mut out: Vec<String> = Vec::new();
    let ghost all = statement_literals(*stmt);
    assert(texts(out@) =~= Seq::<Seq<char>>::empty());
    assert(texts(out@) + all =~= all);
    match stmt {
        CassandraStatement::Insert(ins) => {
            if let InsertValues::Values(v) = &ins.values {
                let mut i: usize = 0;
                while i < v.len()
                    invariant
                        i <= v@.len(),
                        all == texts(out@) + operands_literals(v@, i as int),
                    decreases v@.len() - i,
                {
                    let ghost before = texts(out@);
                    push_operand(&mut out, &v[i]);
                    assert(before + operands_literals(v@, i as int) =~= texts(out@)
                        + operands_literals(v@, i + 1));
                    i += 1;
                }
                assert(texts(out@) + Seq::<Seq<char>>::empty() =~= texts(out@));
            }
        },
        CassandraStatement::Update(u) => {
            let ghost rest = where_literals(u.where_clause@, 0);
            let mut i: usize = 0;
            while i < u.assignments.len()
                invariant
                    i <= u.assignments@.len(),
                    all == texts(out@) + (assignment_literals(u.assignments@, i as int) + rest),
                decreases u.assignments@.len() - i,
            {
                let ghost before = texts(out@);
                push_operand(&mut out, &u.assignments[i].value);
                assert(before + (assignment_literals(u.assignments@, i as int) + rest)
                    =~= texts(out@) + (assignment_literals(u.assignments@, i + 1) + rest));
                i += 1;
            }
            assert(Seq::<Seq<char>>::empty() + rest =~= rest);
            push_where(&mut out, &u.where_clause);
        },
        CassandraStatement::Select(s) => push_where(&mut out, &s.where_clause),
        CassandraStatement::Delete(d) => push_where(&mut out, &d.where_clause),
        _ => {},
    }
    out
}

/// Whether two environments have the same bound values and the same readings of
/// some literals.
pub open spec fn agree(a: Env, b: Env, literals: Seq<Seq<char>>) -> bool {
    a.values == b.values && forall|t: Seq<char>| #[trigger]
        literals.contains(t) ==> reading_of(a.readings, t) == reading_of(b.readings, t)
}

proof fn lemma_agree_split(a: Env, b: Env, x: Seq<Seq<char>>, y: Seq<Seq<char>>)
    requires
        agree(a, b, x + y),
    ensures
        agree(a, b, x),
        agree(a, b, y),
{
    assert forall|t: Seq<char>| #[trigger] x.contains(t) implies reading_of(a.readings, t)
        == reading_of(b.readings, t) by {
        let i = choose|i: int| 0 <= i < x.len() && x[i] == t;
        assert((x + y)[i] == t);
        assert((x + y).contains(t));
    }
    assert forall|t: Seq<char>| #[trigger] y.contains(t) implies reading_of(a.readings, t)
        == reading_of(b.readings, t) by {
        let i = choose|i: int| 0 <= i < y.len() && y[i] == t;
        assert((x + y)[x.len() + i] == t);
        assert((x + y).contains(t));
    }
}

proof fn lemma_same_constant(a: Env, b: Env, text: Seq<char>, t: ColumnType)
    requires
        agree(a, b, seq![trimmed(text)]),
    ensures
        constant(a, text, t) == constant(b, text, t),
{
    assert(seq![trimmed(text)][0] == trimmed(text));
    assert(seq![trimmed(text)].contains(trimmed(text)));
}

proof fn lemma_same_constants(a: Env, b: Env, items: Seq<String>, i: int, t: ColumnType)
    requires
        0 <= i <= items.len(),
        agree(a, b, trimmed_texts(items)),
    ensures
        constants(a, items, i, t) == constants(b, items, i, t),
    decreases items.len() - i,
{
    if i < items.len() {
        let lits = trimmed_texts(items);
        assert(lits[i] == trimmed(items[i]@));
        assert(lits.contains(trimmed(items[i]@)));
        assert(constant(a, items[i]@, t) == constant(b, items[i]@, t));
        lemma_same_constants(a, b, items, i + 1, t);
    }
}

proof fn lemma_same_pairs(
    a: Env,
    b: Env,
    items: Seq<(String, String)>,
    i: int,
    k: ColumnType,
    t: ColumnType,
)
    requires
        0 <= i <= items.len(),
        agree(a, b, pair_literals(items, i)),
    ensures
        constant_pairs(a, items, i, k, t) == constant_pairs(b, items, i, k, t),
    decreases items.len() - i,
{
    if i < items.len() {
        let x = trimmed(items[i].0@);
        let y = trimmed(items[i].1@);
        lemma_agree_split(a, b, seq![x, y], pair_literals(items, i + 1));
        assert(seq![x, y][0] == x && seq![x, y][1] == y);
        assert(seq![x, y].contains(x) && seq![x, y].contains(y));
        assert(constant(a, items[i].0@, k) == constant(b, items[i].0@, k));
        assert(constant(a, items[i].1@, t) == constant(b, items[i].1@, t));
        lemma_same_pairs(a, b, items, i + 1, k, t);
    }
}

proof fn lemma_same_operand(a: Env, b: Env, next: nat, operand: Operand, t: ColumnType)
    requires
        agree(a, b, operand_literals(operand)),
    ensures
        operand_value(a, next, operand, t) == operand_value(b, next, operand, t),
{
    match operand {
        Operand::Const(text) => lemma_same_constant(a, b, text@, t),
        Operand::Set(items) => {
            if let ColumnType::SetOf(e) = t {
                lemma_same_constants(a, b, items@, 0, *e);
            }
        },
        Operand::List(items) => {
            if let ColumnType::List(e) = t {
                lemma_same_constants(a, b, items@, 0, *e);
            }
        },
        Operand::Map(items) => {
            if let ColumnType::MapOf(k, e) = t {
                lemma_same_pairs(a, b, items@, 0, *k, *e);
            }
        },
        _ => {},
    }
}

proof fn lemma_same_assignments(
    a: Env,
    b: Env,
    next: nat,
    cols: Seq<Identifier>,
    operands: Seq<Operand>,
    i: int,
    table: TableView,
)
    requires
        0 <= i,
        cols.len() == operands.len(),
        agree(a, b, operands_literals(operands, i)),
    ensures
        assignments_of(a, next, cols, operands, i, table) == assignments_of(
            b,
            next,
            cols,
            operands,
            i,
            table,
        ),
    decreases cols.len() - i,
{
    if i < cols.len() {
        lemma_agree_split(a, b, operand_literals(operands[i]), operands_literals(operands, i + 1));
        if let Some(c) = table.index_of(id_text(cols[i])) {
            let t = table.columns[c].col_type;
            lemma_same_operand(a, b, next, operands[i], t);
            if let Ok((_, after)) = operand_value(a, next, operands[i], t) {
                lemma_same_assignments(a, b, after, cols, operands, i + 1, table);
            }
        }
    }
}

proof fn lemma_same_updates(
    a: Env,
    b: Env,
    next: nat,
    assignments: Seq<AssignmentElement>,
    i: int,
    table: TableView,
)
    requires
        0 <= i,
        agree(a, b, assignment_literals(assignments, i)),
    ensures
        updates_of(a, next, assignments, i, table) == updates_of(b, next, assignments, i, table),
    decreases assignments.len() - i,
{
    if i < assignments.len() {
        lemma_agree_split(
            a,
            b,
            operand_literals(assignments[i].value),
            assignment_literals(assignments, i + 1),
        );
        if let Some(c) = table.index_of(id_text(assignments[i].name.column)) {
            let t = table.columns[c].col_type;
            lemma_same_operand(a, b, next, assignments[i].value, t);
            if let Ok((_, after)) = operand_value(a, next, assignments[i].value, t) {
                lemma_same_updates(a, b, after, assignments, i + 1, table);
            }
        }
    }
}

proof fn lemma_same_items(
    a: Env,
    b: Env,
    next: nat,
    items: Seq<Operand>,
    i: int,
    t: ColumnType,
)
    requires
        0 <= i,
        agree(a, b, item_literals(items, i)),
    ensures
        restricting_values(a, next, items, i, t) == restricting_values(b, next, items, i, t),
    decreases items.len() - i,
{
    if i < items.len() {
        let here: Seq<Seq<char>> = match items[i] {
            Operand::Const(text) => seq![trimmed(text@)],
            _ => Seq::empty(),
        };
        lemma_agree_split(a, b, here, item_literals(items, i + 1));
        if let Operand::Const(text) = items[i] {
            lemma_same_constant(a, b, text@, t);
        }
        if let Ok((_, after)) = restricting_value(a, next, items[i], t) {
            lemma_same_items(a, b, after, items, i + 1, t);
        }
    }
}

proof fn lemma_same_filter(a: Env, b: Env, next: nat, rel: RelationElement, table: TableView)
    requires
        agree(a, b, operand_literals(rel.value)),
    ensures
        filter_of(a, next, rel, table) == filter_of(b, next, rel, table),
{
    if let Operand::Column(col) = rel.obj {
        if let Some(c) = table.index_of(id_text(col)) {
            let t = table.columns[c].col_type;
            match rel.value {
                Operand::Const(text) => lemma_same_constant(a, b, text@, t),
                Operand::Tuple(items) => lemma_same_items(a, b, next, items@, 0, t),
                _ => {},
            }
        }
    }
}

proof fn lemma_same_filters(
    a: Env,
    b: Env,
    next: nat,
    rels: Seq<RelationElement>,
    i: int,
    table: TableView,
)
    requires
        0 <= i,
        agree(a, b, where_literals(rels, i)),
    ensures
        filters_of(a, next, rels, i, table) == filters_of(b, next, rels, i, table),
    decreases rels.len() - i,
{
    if i < rels.len() {
        lemma_agree_split(a, b, operand_literals(rels[i].value), where_literals(rels, i + 1));
        lemma_same_filter(a, b, next, rels[i], table);
        if let Ok((_, after)) = filter_of(a, next, rels[i], table) {
            lemma_same_filters(a, b, after, rels, i + 1, table);
        }
    }
}

/// The readings of a statement's own literals are all that its execution needs:
/// two environments that agree on those make the same of the statement.
pub proof fn law_readings_of_literals_suffice(
    n: nat,
    a: Env,
    b: Env,
    stmt: CassandraStatement,
    keyspace: Seq<char>,
    table: Seq<char>,
    found: Result<Option<TableView>, Seq<char>>,
)
    requires
        agree(a, b, statement_literals(stmt)),
    ensures
        table_step(n, a, stmt, keyspace, table, found) == table_step(
            n,
            b,
            stmt,
            keyspace,
            table,
            found,
        ),
{
    if let Ok(def) = resolved(keyspace, table, found) {
        match stmt {
            CassandraStatement::Insert(ins) => {
                if let InsertValues::Values(v) = ins.values {
                    if ins.columns@.len() == v@.len() {
                        lemma_same_assignments(a, b, 0, ins.columns@, v@, 0, def);
                    }
                }
            },
            CassandraStatement::Update(u) => {
                lemma_agree_split(
                    a,
                    b,
                    assignment_literals(u.assignments@, 0),
                    where_literals(u.where_clause@, 0),
                );
                lemma_same_updates(a, b, 0, u.assignments@, 0, def);
                if let Ok((_, next)) = updates_of(a, 0, u.assignments@, 0, def) {
                    lemma_same_filters(a, b, next, u.where_clause@, 0, def);
                }
            },
            CassandraStatement::Select(s) => lemma_same_filters(a, b, 0, s.where_clause@, 0, def),
            CassandraStatement::Delete(d) => lemma_same_filters(a, b, 0, d.where_clause@, 0, def),
            _ => {},
        }
    }
}

} // verus!
