//! `INSERT`, `UPDATE` and `DELETE`: from statements to rows.

use crate::cql_value::{lemma_value_views, raw, value_views, Value, ValueView};
use crate::error::{
    check_writable, internal, internal_err, invalid, invalid_err, is_system, not_writable, syntax,
    syntax_err, undefined_column, undefined_column_err, ErrorView, QueryError,
};
use crate::expr::{
    filters_of, fixed_parts, key_parts_from_filters, operand_to_value, operand_value, parse_filters,
    Binds, Env, Filter,
};
use crate::keys::{
    cell_views, decode_row_columns, decoded_row, encode_row_columns, lemma_values_update, null_row,
    nulls, part_views, row_bytes,
};
use crate::schema::{id_text, norm_id, ColumnDef, ColumnView, TableDef, TableView};
use crate::storage::{delete_row_command, put_row_command, Command, CommandView, Storage};
use crate::text::{join2, lemma_index_in, same_text, texts};
use cql3_parser::common::{Identifier, Operand};
use cql3_parser::delete::Delete;
use cql3_parser::insert::{Insert, InsertValues};
use cql3_parser::update::{AssignmentElement, Update};
use vstd::prelude::*;

verus! {

/// A column name and the value that a statement gives it.
pub type Assigned = (Seq<char>, ValueView);

pub open spec fn assigned_views(pairs: Seq<(String, Value)>) -> Seq<Assigned> {
    pairs.map_values(|p: (String, Value)| (p.0@, p.1@))
}

/// What the columns of an `INSERT` are given, from the `i`-th on.
pub open spec fn assignments_of(
    env: Env,
    next: nat,
    cols: Seq<Identifier>,
    operands: Seq<Operand>,
    i: int,
    table: TableView,
) -> Result<Seq<Assigned>, ErrorView>
    decreases cols.len() - i,
{
    if i >= cols.len() {
        Ok(Seq::empty())
    } else {
        let name = id_text(cols[i]);
        match table.index_of(name) {
            None => Err(undefined_column(name)),
            Some(c) => match operand_value(env, next, operands[i], table.columns[c].col_type) {
                Err(e) => Err(e),
                Ok((v, after)) => match assignments_of(env, after, cols, operands, i + 1, table) {
                    Err(e) => Err(e),
                    Ok(rest) => Ok(seq![(name, v)] + rest),
                },
            },
        }
    }
}

/// What a column is given: the last of the values assigned to it.
pub open spec fn value_named(pairs: Seq<Assigned>, name: Seq<char>) -> Option<ValueView>
    decreases pairs.len(),
{
    if pairs.len() == 0 {
        None
    } else if pairs.last().0 == name {
        Some(pairs.last().1)
    } else {
        value_named(pairs.drop_last(), name)
    }
}

fn find_named<'a>(pairs: &'a [(String, Value)], name: &str) -> (r: Option<&'a Value>)
    ensures
        match value_named(assigned_views(pairs@), name@) {
            Some(v) => r matches Some(x) && x@ == v,
            None => r is None,
        },
{
    let ghost views = assigned_views(pairs@);
    let mut i: usize = pairs.len();
    assert(views.take(i as int) =~= views);
    while i > 0
        invariant
            i <= pairs@.len(),
            views == assigned_views(pairs@),
            value_named(views, name@) == value_named(views.take(i as int), name@),
        decreases i,
    {
        assert(views.take(i as int).drop_last() =~= views.take(i - 1));
        assert(views.take(i as int).last() == views[i - 1]);
        if same_text(&pairs[i - 1].0, name) {
            return Some(&pairs[i - 1].1);
        }
        i -= 1;
    }
    None
}

/// The key parts that assigned values give, from the `i`-th name on. `missing`
/// and `null` begin the complaints.
pub open spec fn assigned_parts(
    pairs: Seq<Assigned>,
    names: Seq<Seq<char>>,
    i: int,
    missing: Seq<char>,
    null: Seq<char>,
) -> Result<Seq<Seq<u8>>, ErrorView>
    decreases names.len() - i,
{
    if i >= names.len() {
        Ok(Seq::empty())
    } else {
        match value_named(pairs, names[i]) {
            None => Err(invalid(missing + names[i])),
            Some(ValueView::Null) => Err(invalid(null + names[i])),
            Some(v) => match assigned_parts(pairs, names, i + 1, missing, null) {
                Err(e) => Err(e),
                Ok(parts) => Ok(seq![raw(v)] + parts),
            },
        }
    }
}

fn push_parts(
    pairs: &[(String, Value)],
    names: &Vec<String>,
    missing: &str,
    null: &str,
    parts: &mut Vec<Vec<u8>>,
) -> (r: Result<(), QueryError>)
    ensures
        match assigned_parts(assigned_views(pairs@), texts(names@), 0, missing@, null@) {
            Ok(added) => r is Ok && part_views(final(parts)@) == part_views(old(parts)@) + added,
            Err(e) => r matches Err(x) && x@ == e,
        },
{
    let ghost views = assigned_views(pairs@);
    let ghost all = assigned_parts(views, texts(names@), 0, missing@, null@);
    let ghost start = part_views(parts@);
    let ghost mut done: Seq<Seq<u8>> = Seq::empty();
    let mut i: usize = 0;
    proof {
        assert(start + done =~= start);
        if let Ok(rest) = all {
            assert(done + rest =~= rest);
        }
    }
    while i < names.len()
        invariant
            i <= names@.len(),
            views == assigned_views(pairs@),
            part_views(parts@) == start + done,
            all == assigned_parts(views, texts(names@), 0, missing@, null@),
            all == (match assigned_parts(views, texts(names@), i as int, missing@, null@) {
                Ok(rest) => Ok(done + rest),
                Err(e) => Err(e),
            }),
        decreases names@.len() - i,
    {
        let name: &String = &names[i];
        assert(texts(names@)[i as int] == name@);
        let v: &Value = match find_named(pairs, name) {
            Some(v) => v,
            None => return Err(invalid_err(&join2(missing, name))),
        };
        if v.is_null() {
            return Err(invalid_err(&join2(null, name)));
        }
        let bytes: Vec<u8> = v.raw_bytes();
        let ghost before = part_views(parts@);
        parts.push(bytes);
        proof {
            assert(part_views(parts@) =~= before.push(bytes@));
            assert(before.push(bytes@) =~= start + done.push(bytes@));
            if let Ok(rest) = assigned_parts(views, texts(names@), i + 1, missing@, null@) {
                assert(done + (seq![bytes@] + rest) =~= done.push(bytes@) + rest);
            }
            done = done.push(bytes@);
        }
        i += 1;
    }
    assert(done + Seq::<Seq<u8>>::empty() =~= done);
    Ok(())
}

/// The key of a row that is inserted.
pub open spec fn inserted_key(pairs: Seq<Assigned>, table: TableView) -> Result<
    Seq<Seq<u8>>,
    ErrorView,
> {
    match assigned_parts(
        pairs,
        table.partition_keys,
        0,
        "Some partition key parts are missing: "@,
        "Invalid null value for partition key part "@,
    ) {
        Err(e) => Err(e),
        Ok(a) => match assigned_parts(
            pairs,
            table.clustering_keys,
            0,
            "Some clustering key parts are missing: "@,
            "Invalid null value for clustering key part "@,
        ) {
            Err(e) => Err(e),
            Ok(b) => Ok(a + b),
        },
    }
}

/// The cells of a row that is inserted, from the `i`-th column on: one for
/// each column outside the key, null where nothing was assigned.
pub open spec fn inserted_cells(pairs: Seq<Assigned>, table: TableView, i: int) -> Seq<
    (u16, ValueView),
>
    decreases table.columns.len() - i,
{
    if i >= table.columns.len() {
        Seq::empty()
    } else if table.columns[i].is_key() {
        inserted_cells(pairs, table, i + 1)
    } else {
        let name = table.columns[i].name;
        let v = match value_named(pairs, name) {
            Some(v) => v,
            None => ValueView::Null,
        };
        seq![(table.index_of(name).unwrap() as u16, v)] + inserted_cells(pairs, table, i + 1)
    }
}

/// The operands of an `INSERT`, one for each column.
pub open spec fn insert_operands(ins: Insert) -> Result<Seq<Operand>, ErrorView> {
    match ins.values {
        InsertValues::Json(_) => Err(invalid("INSERT JSON is not supported"@)),
        InsertValues::Values(operands) => if ins.columns@.len() != operands@.len() {
            Err(syntax("Wrong number of values provided"@))
        } else {
            Ok(operands@)
        },
    }
}

/// What an `INSERT` writes: the key and the bytes of a row.
pub open spec fn inserted_row(env: Env, ins: Insert, keyspace: Seq<char>, table: TableView) -> Result<
    (Seq<Seq<u8>>, Seq<u8>),
    ErrorView,
> {
    if is_system(keyspace) {
        Err(not_writable(keyspace))
    } else {
        match insert_operands(ins) {
            Err(e) => Err(e),
            Ok(operands) => match assignments_of(env, 0, ins.columns@, operands, 0, table) {
                Err(e) => Err(e),
                Ok(pairs) => match inserted_key(pairs, table) {
                    Err(e) => Err(e),
                    Ok(key) => Ok((key, row_bytes(inserted_cells(pairs, table, 0)))),
                },
            },
        }
    }
}

/// What an `INSERT` comes to.
pub open spec fn insert_command(
    n: nat,
    env: Env,
    ins: Insert,
    keyspace: Seq<char>,
    table: TableView,
) -> Result<CommandView, ErrorView> {
    match inserted_row(env, ins, keyspace, table) {
        Err(e) => Err(e),
        Ok((key, row)) => Ok(put_row_command(n, keyspace, table.name, key, row)),
    }
}

fn assign(ins: &Insert, operands: &Vec<Operand>, table: &TableDef, binds: &mut Binds) -> (r: Result<
    Vec<(String, Value)>,
    QueryError,
>)
    requires
        old(binds).wf(),
        old(binds).taken() == 0,
        ins.columns@.len() == operands@.len(),
    ensures
        match assignments_of(old(binds).env(), 0, ins.columns@, operands@, 0, table@) {
            Ok(pairs) => r matches Ok(x) && assigned_views(x@) == pairs,
            Err(e) => r matches Err(x) && x@ == e,
        },
{
    let ghost env = binds.env();
    let ghost cols = ins.columns@;
    let ghost all = assignments_of(env, 0, cols, operands@, 0, table@);
    let mut pairs: Vec<(String, Value)> = Vec::new();
    let mut i: usize = 0;
    proof {
        assert(assigned_views(pairs@) =~= Seq::<Assigned>::empty());
        if let Ok(rest) = all {
            assert(assigned_views(pairs@) + rest =~= rest);
        }
    }
    while i < ins.columns.len()
        invariant
            i <= ins.columns@.len(),
            ins.columns@.len() == operands@.len(),
            cols == ins.columns@,
            binds.wf(),
            binds.env() == env,
            env == old(binds).env(),
            all == assignments_of(env, 0, cols, operands@, 0, table@),
            all == (match assignments_of(
                env,
                binds.taken(),
                cols,
                operands@,
                i as int,
                table@,
            ) {
                Ok(rest) => Ok(assigned_views(pairs@) + rest),
                Err(e) => Err(e),
            }),
        decreases ins.columns@.len() - i,
    {
        let name: String = norm_id(&ins.columns[i]);
        let col: &ColumnDef = match table.column(&name) {
            Some(c) => c,
            None => return Err(undefined_column_err(&name)),
        };
        let v: Value = match operand_to_value(&operands[i], &col.col_type, binds) {
            Ok(v) => v,
            Err(e) => return Err(e),
        };
        let ghost before = assigned_views(pairs@);
        let ghost entry = (name@, v@);
        pairs.push((name, v));
        proof {
            assert(assigned_views(pairs@) =~= before.push(entry));
            if let Ok(rest) = assignments_of(
                env,
                binds.taken(),
                cols,
                operands@,
                i + 1,
                table@,
            ) {
                assert(before + (seq![entry] + rest) =~= assigned_views(pairs@) + rest);
            }
        }
        i += 1;
    }
    assert(assigned_views(pairs@) + Seq::<Assigned>::empty() =~= assigned_views(pairs@));
    Ok(pairs)
}

fn insert_cells(pairs: &[(String, Value)], table: &TableDef) -> (r: Vec<(u16, Value)>)
    ensures
        cell_views(r@) == inserted_cells(assigned_views(pairs@), table@, 0),
{
    let ghost views = assigned_views(pairs@);
    let ghost all = inserted_cells(views, table@, 0);
    let mut cells: Vec<(u16, Value)> = Vec::new();
    let mut i: usize = 0;
    assert(cell_views(cells@) + all =~= all);
    while i < table.columns.len()
        invariant
            i <= table.columns@.len(),
            views == assigned_views(pairs@),
            all == inserted_cells(views, table@, 0),
            all == cell_views(cells@) + inserted_cells(views, table@, i as int),
        decreases table.columns@.len() - i,
    {
        let col: &ColumnDef = &table.columns[i];
        assert(table@.columns[i as int] == col@);
        if !col.is_partition_key && !col.is_clustering {
            proof {
                lemma_index_in(crate::schema::column_names(table@.columns), col.name@);
                assert(crate::schema::column_names(table@.columns)[i as int] == col.name@);
            }
            let idx: usize = match table.column_index(&col.name) {
                Some(idx) => idx,
                None => i,
            };
            let v: Value = match find_named(pairs, &col.name) {
                Some(v) => v.clone(),
                None => Value::Null,
            };
            let ghost before = cell_views(cells@);
            let ghost cell = (idx as u16, v@);
            cells.push((idx as u16, v));
            proof {
                assert(cell_views(cells@) =~= before.push(cell));
                assert(before + (seq![cell] + inserted_cells(views, table@, i + 1)) =~= cell_views(
                    cells@,
                ) + inserted_cells(views, table@, i + 1));
            }
        }
        i += 1;
    }
    assert(cell_views(cells@) + Seq::<(u16, ValueView)>::empty() =~= cell_views(cells@));
    cells
}

/// What an `INSERT` into a table comes to.
pub fn exec_insert(
    storage: &Storage,
    keyspace: &str,
    table: &TableDef,
    ins: &Insert,
    binds: &mut Binds,
) -> (r: Result<Command, QueryError>)
    requires
        storage.wf(),
        old(binds).wf(),
        old(binds).taken() == 0,
    ensures
        match insert_command(
            storage.engine_count(),
            old(binds).env(),
            *ins,
            keyspace@,
            table@,
        ) {
            Ok(c) => r matches Ok(x) && x@ == c,
            Err(e) => r matches Err(x) && x@ == e,
        },
{
    if let Err(e) = check_writable(keyspace) {
        return Err(e);
    }
    let operands: &Vec<Operand> = match &ins.values {
        InsertValues::Values(v) => v,
        InsertValues::Json(_) => return Err(invalid_err("INSERT JSON is not supported")),
    };
    if ins.columns.len() != operands.len() {
        return Err(syntax_err("Wrong number of values provided"));
    }
    let pairs: Vec<(String, Value)> = match assign(ins, operands, table, binds) {
        Ok(pairs) => pairs,
        Err(e) => return Err(e),
    };
    let mut parts: Vec<Vec<u8>> = Vec::new();
    assert(part_views(parts@) =~= Seq::<Seq<u8>>::empty());
    if let Err(e) = push_parts(
        &pairs,
        &table.partition_keys,
        "Some partition key parts are missing: ",
        "Invalid null value for partition key part ",
        &mut parts,
    ) {
        return Err(e);
    }
    let ghost partition = part_views(parts@);
    if let Err(e) = push_parts(
        &pairs,
        &table.clustering_keys,
        "Some clustering key parts are missing: ",
        "Invalid null value for clustering key part ",
        &mut parts,
    ) {
        return Err(e);
    }
    assert(Seq::<Seq<u8>>::empty() + partition =~= partition);
    let cells: Vec<(u16, Value)> = insert_cells(&pairs, table);
    Ok(storage.put_row(keyspace, &table.name, &parts, &encode_row_columns(&cells)))
}

/// What the columns of an `UPDATE` are given, from the `i`-th assignment on:
/// column indexes and values.
pub open spec fn updates_of(
    env: Env,
    next: nat,
    assignments: Seq<AssignmentElement>,
    i: int,
    table: TableView,
) -> Result<(Seq<(int, ValueView)>, nat), ErrorView>
    decreases assignments.len() - i,
{
    if i >= assignments.len() {
        Ok((Seq::empty(), next))
    } else if assignments[i].operator is Some {
        Err(invalid("Increment/decrement assignments are not supported"@))
    } else {
        let name = id_text(assignments[i].name.column);
        match table.index_of(name) {
            None => Err(undefined_column(name)),
            Some(c) => match operand_value(
                env,
                next,
                assignments[i].value,
                table.columns[c].col_type,
            ) {
                Err(e) => Err(e),
                Ok((v, after)) => match updates_of(env, after, assignments, i + 1, table) {
                    Err(e) => Err(e),
                    Ok((rest, end)) => Ok((seq![(c, v)] + rest, end)),
                },
            },
        }
    }
}

/// What an `UPDATE` changes: the key of a row and new values of its columns.
#[derive(Debug)]
pub struct UpdatePlan {
    pub key_parts: Vec<Vec<u8>>,
    pub new_values: Vec<(usize, Value)>,
}

/// What an update plan says.
#[verifier::ext_equal]
pub struct UpdateView {
    pub key_parts: Seq<Seq<u8>>,
    pub new_values: Seq<(int, ValueView)>,
}

pub open spec fn update_views(v: Seq<(usize, Value)>) -> Seq<(int, ValueView)> {
    v.map_values(|p: (usize, Value)| (p.0 as int, p.1@))
}

impl View for UpdatePlan {
    type V = UpdateView;

    open spec fn view(&self) -> UpdateView {
        UpdateView {
            key_parts: part_views(self.key_parts@),
            new_values: update_views(self.new_values@),
        }
    }
}

impl UpdatePlan {
    /// Whether the new values are of columns that the table has.
    pub open spec fn fits(&self, table: &TableDef) -> bool {
        forall|i: int|
            0 <= i < self.new_values@.len() ==> (#[trigger] self.new_values@[i]).0
                < table.columns@.len()
    }
}

/// What an `UPDATE` changes.
pub open spec fn update_plan(env: Env, upd: Update, keyspace: Seq<char>, table: TableView) -> Result<
    UpdateView,
    ErrorView,
> {
    if is_system(keyspace) {
        Err(not_writable(keyspace))
    } else {
        match updates_of(env, 0, upd.assignments@, 0, table) {
            Err(e) => Err(e),
            Ok((new_values, next)) => match filters_of(env, next, upd.where_clause@, 0, table) {
                Err(e) => Err(e),
                Ok((filters, _)) => match fixed_parts(filters, table.key_names(), 0) {
                    Err(e) => Err(e),
                    Ok(key_parts) => Ok(UpdateView { key_parts, new_values }),
                },
            },
        }
    }
}

fn update_values(upd: &Update, table: &TableDef, binds: &mut Binds) -> (r: Result<
    Vec<(usize, Value)>,
    QueryError,
>)
    requires
        old(binds).wf(),
    ensures
        final(binds).wf(),
        final(binds).env() == old(binds).env(),
        match updates_of(
            old(binds).env(),
            old(binds).taken(),
            upd.assignments@,
            0,
            table@,
        ) {
            Ok((vs, next)) => {
                &&& r matches Ok(x)
                &&& update_views(x@) == vs
                &&& final(binds).taken() == next
                &&& forall|i: int|
                    0 <= i < x@.len() ==> (#[trigger] x@[i]).0 < table.columns@.len()
            },
            Err(e) => r matches Err(x) && x@ == e,
        },
{
    let ghost env = binds.env();
    let ghost elements = upd.assignments@;
    let ghost all = updates_of(env, binds.taken(), elements, 0, table@);
    let mut values: Vec<(usize, Value)> = Vec::new();
    let mut i: usize = 0;
    proof {
        assert(update_views(values@) =~= Seq::<(int, ValueView)>::empty());
        if let Ok((rest, _)) = all {
            assert(update_views(values@) + rest =~= rest);
        }
    }
    while i < upd.assignments.len()
        invariant
            i <= upd.assignments@.len(),
            elements == upd.assignments@,
            binds.wf(),
            binds.env() == env,
            env == old(binds).env(),
            forall|j: int|
                0 <= j < values@.len() ==> (#[trigger] values@[j]).0 < table.columns@.len(),
            all == updates_of(env, old(binds).taken(), elements, 0, table@),
            all == (match updates_of(env, binds.taken(), elements, i as int, table@) {
                Ok((rest, end)) => Ok((update_views(values@) + rest, end)),
                Err(e) => Err(e),
            }),
        decreases upd.assignments@.len() - i,
    {
        let a: &AssignmentElement = &upd.assignments[i];
        if a.operator.is_some() {
            return Err(invalid_err("Increment/decrement assignments are not supported"));
        }
        let name: String = norm_id(&a.name.column);
        let idx: usize = match table.column_index(&name) {
            Some(idx) => idx,
            None => return Err(undefined_column_err(&name)),
        };
        assert(table@.columns[idx as int] == table.columns@[idx as int]@);
        let v: Value = match operand_to_value(&a.value, &table.columns[idx].col_type, binds) {
            Ok(v) => v,
            Err(e) => return Err(e),
        };
        let ghost before = update_views(values@);
        let ghost entry = (idx as int, v@);
        values.push((idx, v));
        proof {
            assert(update_views(values@) =~= before.push(entry));
            if let Ok((rest, _)) = updates_of(env, binds.taken(), elements, i + 1, table@) {
                assert(before + (seq![entry] + rest) =~= update_views(values@) + rest);
            }
        }
        i += 1;
    }
    assert(update_views(values@) + Seq::<(int, ValueView)>::empty() =~= update_views(values@));
    Ok(values)
}

/// What an `UPDATE` of a table changes.
pub fn plan_update(keyspace: &str, table: &TableDef, upd: &Update, binds: &mut Binds) -> (r: Result<
    UpdatePlan,
    QueryError,
>)
    requires
        old(binds).wf(),
        old(binds).taken() == 0,
    ensures
        match update_plan(old(binds).env(), *upd, keyspace@, table@) {
            Ok(p) => r matches Ok(x) && x@ == p && x.fits(table),
            Err(e) => r matches Err(x) && x@ == e,
        },
{
    if let Err(e) = check_writable(keyspace) {
        return Err(e);
    }
    let new_values: Vec<(usize, Value)> = match update_values(upd, table, binds) {
        Ok(v) => v,
        Err(e) => return Err(e),
    };
    let filters: Vec<Filter> = match parse_filters(table, &upd.where_clause, binds) {
        Ok(f) => f,
        Err(e) => return Err(e),
    };
    let key_parts: Vec<Vec<u8>> = match key_parts_from_filters(table, &filters) {
        Ok(p) => p,
        Err(e) => return Err(e),
    };
    Ok(UpdatePlan { key_parts, new_values })
}

/// The values of a row after an update.
pub open spec fn updated(values: Seq<ValueView>, new_values: Seq<(int, ValueView)>) -> Seq<
    ValueView,
>
    decreases new_values.len(),
{
    if new_values.len() == 0 {
        values
    } else {
        updated(values, new_values.drop_last()).update(new_values.last().0, new_values.last().1)
    }
}

/// The cells of a row of values, from the `i`-th column on: one for each
/// column outside the key.
pub open spec fn stored_cells(values: Seq<ValueView>, columns: Seq<ColumnView>, i: int) -> Seq<
    (u16, ValueView),
>
    decreases columns.len() - i,
{
    if i >= columns.len() {
        Seq::empty()
    } else if columns[i].is_key() {
        stored_cells(values, columns, i + 1)
    } else {
        seq![(i as u16, values[i])] + stored_cells(values, columns, i + 1)
    }
}

/// The bytes of a row after an update, given those before it.
pub open spec fn updated_row(
    table: TableView,
    existing: Option<Seq<u8>>,
    new_values: Seq<(int, ValueView)>,
) -> Result<Seq<u8>, ErrorView> {
    let before = match existing {
        Some(bytes) => decoded_row(bytes, table.columns),
        None => Ok(nulls(table.columns.len())),
    };
    match before {
        Err(e) => Err(internal(e)),
        Ok(values) => Ok(row_bytes(stored_cells(updated(values, new_values), table.columns, 0))),
    }
}

/// What an `UPDATE` comes to, given the row before it.
pub open spec fn update_command(
    n: nat,
    keyspace: Seq<char>,
    table: TableView,
    plan: UpdateView,
    existing: Option<Seq<u8>>,
) -> Result<CommandView, ErrorView> {
    match updated_row(table, existing, plan.new_values) {
        Err(e) => Err(e),
        Ok(row) => Ok(put_row_command(n, keyspace, table.name, plan.key_parts, row)),
    }
}

pub open spec fn opt_bytes(v: Option<Vec<u8>>) -> Option<Seq<u8>> {
    match v {
        Some(b) => Some(b@),
        None => None,
    }
}

fn apply_updates(values: &mut Vec<Value>, new_values: &Vec<(usize, Value)>)
    requires
        forall|i: int|
            0 <= i < new_values@.len() ==> (#[trigger] new_values@[i]).0 < old(values)@.len(),
    ensures
        value_views(final(values)@) == updated(
            value_views(old(values)@),
            update_views(new_values@),
        ),
        final(values)@.len() == old(values)@.len(),
{
    let ghost start = value_views(values@);
    let ghost views = update_views(new_values@);
    let mut i: usize = 0;
    assert(views.take(0) =~= Seq::<(int, ValueView)>::empty());
    while i < new_values.len()
        invariant
            i <= new_values@.len(),
            views == update_views(new_values@),
            values@.len() == old(values)@.len(),
            forall|j: int|
                0 <= j < new_values@.len() ==> (#[trigger] new_values@[j]).0 < values@.len(),
            value_views(values@) == updated(start, views.take(i as int)),
        decreases new_values@.len() - i,
    {
        let idx: usize = new_values[i].0;
        let v: Value = new_values[i].1.clone();
        proof {
            assert(new_values@[i as int].0 < values@.len());
            lemma_values_update(values@, idx as int, v);
            assert(views.take(i + 1).drop_last() =~= views.take(i as int));
            assert(views.take(i + 1).last() == (idx as int, v@));
        }
        values.set(idx, v);
        i += 1;
    }
    assert(views.take(i as int) =~= views);
}

fn cells_to_store(values: &Vec<Value>, table: &TableDef) -> (r: Vec<(u16, Value)>)
    requires
        values@.len() == table.columns@.len(),
    ensures
        cell_views(r@) == stored_cells(value_views(values@), table@.columns, 0),
{
    let ghost views = value_views(values@);
    let ghost columns = table@.columns;
    let ghost all = stored_cells(views, columns, 0);
    proof {
        lemma_value_views(values@);
    }
    let mut cells: Vec<(u16, Value)> = Vec::new();
    let mut i: usize = 0;
    assert(cell_views(cells@) + all =~= all);
    while i < table.columns.len()
        invariant
            i <= table.columns@.len(),
            values@.len() == table.columns@.len(),
            views == value_views(values@),
            forall|j: int| 0 <= j < values@.len() ==> #[trigger] views[j] == values@[j]@,
            columns == table@.columns,
            all == stored_cells(views, columns, 0),
            all == cell_views(cells@) + stored_cells(views, columns, i as int),
        decreases table.columns@.len() - i,
    {
        let col: &ColumnDef = &table.columns[i];
        assert(columns[i as int] == col@);
        if !col.is_partition_key && !col.is_clustering {
            let v: Value = values[i].clone();
            let ghost before = cell_views(cells@);
            let ghost cell = (i as u16, v@);
            assert(views[i as int] == v@);
            cells.push((i as u16, v));
            proof {
                assert(cell_views(cells@) =~= before.push(cell));
                assert(before + (seq![cell] + stored_cells(views, columns, i + 1)) =~= cell_views(
                    cells@,
                ) + stored_cells(views, columns, i + 1));
            }
        }
        i += 1;
    }
    assert(cell_views(cells@) + Seq::<(u16, ValueView)>::empty() =~= cell_views(cells@));
    cells
}

/// What an `UPDATE` comes to, given the row before it.
pub fn exec_update(
    storage: &Storage,
    keyspace: &str,
    table: &TableDef,
    plan: &UpdatePlan,
    existing: &Option<Vec<u8>>,
) -> (r: Result<Command, QueryError>)
    requires
        storage.wf(),
        plan.fits(table),
    ensures
        match update_command(
            storage.engine_count(),
            keyspace@,
            table@,
            plan@,
            opt_bytes(*existing),
        ) {
            Ok(c) => r matches Ok(x) && x@ == c,
            Err(e) => r matches Err(x) && x@ == e,
        },
{
    let mut values: Vec<Value> = match existing {
        Some(bytes) => match decode_row_columns(bytes, table) {
            Ok(values) => values,
            Err(e) => return Err(internal_err(&e)),
        },
        None => null_row(table.columns.len()),
    };
    apply_updates(&mut values, &plan.new_values);
    let cells: Vec<(u16, Value)> = cells_to_store(&values, table);
    Ok(storage.put_row(keyspace, &table.name, &plan.key_parts, &encode_row_columns(&cells)))
}

/// What a `DELETE` comes to.
pub open spec fn delete_command(
    n: nat,
    env: Env,
    del: Delete,
    keyspace: Seq<char>,
    table: TableView,
) -> Result<CommandView, ErrorView> {
    if is_system(keyspace) {
        Err(not_writable(keyspace))
    } else if del.columns@.len() > 0 {
        Err(invalid("Column-level DELETE is not supported yet"@))
    } else {
        match filters_of(env, 0, del.where_clause@, 0, table) {
            Err(e) => Err(e),
            Ok((filters, _)) => match fixed_parts(filters, table.key_names(), 0) {
                Err(e) => Err(e),
                Ok(parts) => Ok(delete_row_command(n, keyspace, table.name, parts)),
            },
        }
    }
}

/// What a `DELETE` from a table comes to.
pub fn exec_delete(
    storage: &Storage,
    keyspace: &str,
    table: &TableDef,
    del: &Delete,
    binds: &mut Binds,
) -> (r: Result<Command, QueryError>)
    requires
        storage.wf(),
        old(binds).wf(),
        old(binds).taken() == 0,
    ensures
        match delete_command(
            storage.engine_count(),
            old(binds).env(),
            *del,
            keyspace@,
            table@,
        ) {
            Ok(c) => r matches Ok(x) && x@ == c,
            Err(e) => r matches Err(x) && x@ == e,
        },
{
    if let Err(e) = check_writable(keyspace) {
        return Err(e);
    }
    if del.columns.len() > 0 {
        return Err(invalid_err("Column-level DELETE is not supported yet"));
    }
    let filters: Vec<Filter> = match parse_filters(table, &del.where_clause, binds) {
        Ok(f) => f,
        Err(e) => return Err(e),
    };
    match key_parts_from_filters(table, &filters) {
        Ok(parts) => Ok(storage.delete_row(keyspace, &table.name, &parts)),
        Err(e) => Err(e),
    }
}

} // verus!
