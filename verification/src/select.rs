//! `SELECT`: which rows are read and what becomes of them.

use crate::bytes::copy_bytes;
use crate::cql_value::{
    be_raw, decode, decode_error_text, equal, lemma_value_views, lemma_value_views_push, raw,
    value_views, Value, ValueView,
};
use crate::error::{internal, internal_err, ErrorView, QueryError};
use crate::expr::{
    filter_views, filters_of, named_types, parse_filters, select_columns, selected_columns, Binds,
    Env, Filter, FilterView, NamedType,
};
use crate::keys::{
    data_prefix, decode_key, decode_row_columns, decoded_key, decoded_row, lemma_values_update,
    part_views,
};
use crate::order::{in_key_order, sort_entries};
use crate::schema::{column_names, ColumnDef, ColumnType, TableDef, TableView};
use crate::storage::{partition_scan, scan_views, table_scans, Place, Scan, Storage};
use crate::text::{index_in, join3, lemma_index_in, position_of, same_text, texts};
use cql3_parser::select::Select;
use vstd::prelude::*;

verus! {

/// Whether a restriction is on the column `name`.
pub open spec fn restricts(f: FilterView, name: Seq<char>) -> bool {
    match f {
        FilterView::Eq(n, _) => n == name,
        FilterView::In(n, _) => n == name,
    }
}

/// Whether every column of the partition key is restricted.
pub open spec fn partition_restricted(filters: Seq<FilterView>, table: TableView) -> bool {
    forall|i: int|
        0 <= i < table.partition_keys.len() ==> is_restricted(
            filters,
            #[trigger] table.partition_keys[i],
        )
}

pub open spec fn is_restricted(filters: Seq<FilterView>, name: Seq<char>) -> bool {
    exists|j: int| 0 <= j < filters.len() && restricts(#[trigger] filters[j], name)
}

/// The bytes that a restriction on the column `name` allows.
pub open spec fn allowed_bytes(f: FilterView, name: Seq<char>) -> Seq<Seq<u8>> {
    match f {
        FilterView::Eq(n, v) => if n == name {
            seq![raw(v)]
        } else {
            Seq::empty()
        },
        FilterView::In(n, vs) => if n == name {
            vs.map_values(|v: ValueView| raw(v))
        } else {
            Seq::empty()
        },
    }
}

/// The bytes that the restrictions on the column `name` list.
pub open spec fn listed_bytes(filters: Seq<FilterView>, name: Seq<char>) -> Seq<Seq<u8>>
    decreases filters.len(),
{
    if filters.len() == 0 {
        Seq::empty()
    } else {
        listed_bytes(filters.drop_last(), name) + allowed_bytes(filters.last(), name)
    }
}

/// Each of `values` behind `combo`.
pub open spec fn with_each(combo: Seq<Seq<u8>>, values: Seq<Seq<u8>>) -> Seq<Seq<Seq<u8>>> {
    values.map_values(|v: Seq<u8>| combo.push(v))
}

/// Each of `values` behind each of `combos`.
pub open spec fn extended(combos: Seq<Seq<Seq<u8>>>, values: Seq<Seq<u8>>) -> Seq<Seq<Seq<u8>>>
    decreases combos.len(),
{
    if combos.len() == 0 {
        Seq::empty()
    } else {
        extended(combos.drop_last(), values) + with_each(combos.last(), values)
    }
}

/// The combinations of listed bytes for the first `i` of `names`.
pub open spec fn partitions_of(filters: Seq<FilterView>, names: Seq<Seq<char>>, i: nat) -> Seq<
    Seq<Seq<u8>>,
>
    decreases i,
{
    if i == 0 {
        seq![Seq::empty()]
    } else {
        extended(
            partitions_of(filters, names, (i - 1) as nat),
            listed_bytes(filters, names[i - 1]),
        )
    }
}

/// Where the rows of a selection are read: the partitions that the
/// restrictions list, or the whole table.
pub open spec fn select_scans(
    n: nat,
    keyspace: Seq<char>,
    table: TableView,
    filters: Seq<FilterView>,
) -> Seq<Place> {
    if partition_restricted(filters, table) {
        partitions_of(filters, table.partition_keys, table.partition_keys.len()).map_values(
            |p: Seq<Seq<u8>>| partition_scan(n, keyspace, table.name, p),
        )
    } else {
        table_scans(n, keyspace, table.name)
    }
}

/// A list of keys, each a list of parts.
pub open spec fn combo_views(combos: Seq<Vec<Vec<u8>>>) -> Seq<Seq<Seq<u8>>> {
    combos.map_values(|c: Vec<Vec<u8>>| part_views(c@))
}

/// A selection: the columns of the result, the restrictions, and the limit.
#[derive(Debug)]
pub struct SelectPlan {
    pub selected: Vec<(String, ColumnType)>,
    pub filters: Vec<Filter>,
    pub limit: Option<i32>,
}

/// What a selection says.
#[verifier::ext_equal]
pub struct SelectView {
    pub selected: Seq<NamedType>,
    pub filters: Seq<FilterView>,
    pub limit: Option<i32>,
}

impl View for SelectPlan {
    type V = SelectView;

    open spec fn view(&self) -> SelectView {
        SelectView {
            selected: named_types(self.selected@),
            filters: filter_views(self.filters@),
            limit: self.limit,
        }
    }
}

/// The selection that a `SELECT` states.
pub open spec fn select_plan(env: Env, sel: Select, table: TableView) -> Result<
    SelectView,
    ErrorView,
> {
    match selected_columns(sel.columns@, table) {
        Err(e) => Err(e),
        Ok(selected) => match filters_of(env, 0, sel.where_clause@, 0, table) {
            Err(e) => Err(e),
            Ok((filters, _)) => Ok(SelectView { selected, filters, limit: sel.limit }),
        },
    }
}

/// The selection that a `SELECT` from a table states.
pub fn plan_select(table: &TableDef, sel: &Select, binds: &mut Binds) -> (r: Result<
    SelectPlan,
    QueryError,
>)
    requires
        old(binds).wf(),
        old(binds).taken() == 0,
    ensures
        match select_plan(old(binds).env(), *sel, table@) {
            Ok(p) => r matches Ok(x) && x@ == p,
            Err(e) => r matches Err(x) && x@ == e,
        },
{
    let selected: Vec<(String, ColumnType)> = match select_columns(table, &sel.columns) {
        Ok(s) => s,
        Err(e) => return Err(e),
    };
    match parse_filters(table, &sel.where_clause, binds) {
        Ok(filters) => Ok(SelectPlan { selected, filters, limit: sel.limit }),
        Err(e) => Err(e),
    }
}

fn filter_restricts(f: &Filter, name: &str) -> (r: bool)
    ensures
        r == restricts(f@, name@),
{
    match f {
        Filter::Eq(n, _) => same_text(n, name),
        Filter::In(n, _) => same_text(n, name),
    }
}

fn has_restriction(filters: &[Filter], name: &str) -> (r: bool)
    ensures
        r == is_restricted(filter_views(filters@), name@),
{
    let ghost views = filter_views(filters@);
    let mut i: usize = 0;
    while i < filters.len()
        invariant
            i <= filters@.len(),
            views == filter_views(filters@),
            forall|j: int| 0 <= j < i ==> !restricts(#[trigger] views[j], name@),
        decreases filters@.len() - i,
    {
        if filter_restricts(&filters[i], name) {
            assert(restricts(views[i as int], name@));
            return true;
        }
        i += 1;
    }
    false
}

fn restricts_partition(filters: &[Filter], table: &TableDef) -> (r: bool)
    ensures
        r == partition_restricted(filter_views(filters@), table@),
{
    let ghost names = table@.partition_keys;
    let mut i: usize = 0;
    while i < table.partition_keys.len()
        invariant
            i <= table.partition_keys@.len(),
            names == table@.partition_keys,
            forall|j: int|
                0 <= j < i ==> is_restricted(filter_views(filters@), #[trigger] names[j]),
        decreases table.partition_keys@.len() - i,
    {
        if !has_restriction(filters, &table.partition_keys[i]) {
            assert(!is_restricted(filter_views(filters@), names[i as int]));
            return false;
        }
        i += 1;
    }
    true
}

fn push_allowed(f: &Filter, name: &str, out: &mut Vec<Vec<u8>>)
    ensures
        part_views(final(out)@) == part_views(old(out)@) + allowed_bytes(f@, name@),
{
    let ghost start = part_views(out@);
    match f {
        Filter::Eq(n, v) => {
            if same_text(n, name) {
                out.push(v.raw_bytes());
                assert(part_views(out@) =~= start + seq![raw(v@)]);
            } else {
                assert(start + Seq::<Seq<u8>>::empty() =~= start);
            }
        },
        Filter::In(n, vs) => {
            if same_text(n, name) {
                let ghost all = allowed_bytes(f@, name@);
                proof {
                    lemma_value_views(vs@);
                }
                let mut i: usize = 0;
                assert(start + all.take(0) =~= start);
                while i < vs.len()
                    invariant
                        i <= vs@.len(),
                        all.len() == vs@.len(),
                        forall|j: int| 0 <= j < vs@.len() ==> #[trigger] all[j] == raw(vs@[j]@),
                        part_views(out@) == start + all.take(i as int),
                    decreases vs@.len() - i,
                {
                    let ghost before = part_views(out@);
                    out.push(vs[i].raw_bytes());
                    assert(part_views(out@) =~= before.push(all[i as int]));
                    i += 1;
                    assert(before.push(all[i - 1]) =~= start + all.take(i as int));
                }
                assert(all.take(i as int) =~= all);
            } else {
                assert(start + Seq::<Seq<u8>>::empty() =~= start);
            }
        },
    }
}

fn listed_values(filters: &[Filter], name: &str) -> (out: Vec<Vec<u8>>)
    ensures
        part_views(out@) == listed_bytes(filter_views(filters@), name@),
{
    let ghost views = filter_views(filters@);
    let mut out: Vec<Vec<u8>> = Vec::new();
    let mut i: usize = 0;
    assert(views.take(0) =~= Seq::<FilterView>::empty());
    assert(part_views(out@) =~= Seq::<Seq<u8>>::empty());
    while i < filters.len()
        invariant
            i <= filters@.len(),
            views == filter_views(filters@),
            part_views(out@) == listed_bytes(views.take(i as int), name@),
        decreases filters@.len() - i,
    {
        push_allowed(&filters[i], name, &mut out);
        proof {
            assert(views.take(i + 1).drop_last() =~= views.take(i as int));
            assert(views.take(i + 1).last() == filters@[i as int]@);
        }
        i += 1;
    }
    assert(views.take(i as int) =~= views);
    out
}

fn copy_parts(parts: &Vec<Vec<u8>>) -> (r: Vec<Vec<u8>>)
    ensures
        part_views(r@) == part_views(parts@),
{
    let ghost all = part_views(parts@);
    let mut r: Vec<Vec<u8>> = Vec::new();
    let mut i: usize = 0;
    assert(part_views(r@) =~= all.take(0));
    while i < parts.len()
        invariant
            i <= parts@.len(),
            all == part_views(parts@),
            part_views(r@) == all.take(i as int),
        decreases parts@.len() - i,
    {
        let ghost before = part_views(r@);
        r.push(copy_bytes(&parts[i]));
        assert(part_views(r@) =~= before.push(all[i as int]));
        i += 1;
        assert(part_views(r@) =~= all.take(i as int));
    }
    assert(all.take(i as int) =~= all);
    r
}

fn push_with_each(combo: &Vec<Vec<u8>>, values: &Vec<Vec<u8>>, out: &mut Vec<Vec<Vec<u8>>>)
    ensures
        combo_views(final(out)@) == combo_views(old(out)@) + with_each(
            part_views(combo@),
            part_views(values@),
        ),
{
    let ghost start = combo_views(out@);
    let ghost all = with_each(part_views(combo@), part_views(values@));
    let mut i: usize = 0;
    assert(start + all.take(0) =~= start);
    while i < values.len()
        invariant
            i <= values@.len(),
            all == with_each(part_views(combo@), part_views(values@)),
            combo_views(out@) == start + all.take(i as int),
        decreases values@.len() - i,
    {
        let mut c: Vec<Vec<u8>> = copy_parts(combo);
        let ghost short = part_views(c@);
        c.push(copy_bytes(&values[i]));
        assert(part_views(c@) =~= short.push(values@[i as int]@));
        let ghost before = combo_views(out@);
        out.push(c);
        assert(combo_views(out@) =~= before.push(all[i as int]));
        i += 1;
        assert(before.push(all[i - 1]) =~= start + all.take(i as int));
    }
    assert(all.take(i as int) =~= all);
}

fn extend_combos(combos: &Vec<Vec<Vec<u8>>>, values: &Vec<Vec<u8>>) -> (out: Vec<Vec<Vec<u8>>>)
    ensures
        combo_views(out@) == extended(combo_views(combos@), part_views(values@)),
{
    let ghost views = combo_views(combos@);
    let mut out: Vec<Vec<Vec<u8>>> = Vec::new();
    let mut i: usize = 0;
    assert(views.take(0) =~= Seq::<Seq<Seq<u8>>>::empty());
    assert(combo_views(out@) =~= Seq::<Seq<Seq<u8>>>::empty());
    while i < combos.len()
        invariant
            i <= combos@.len(),
            views == combo_views(combos@),
            combo_views(out@) == extended(views.take(i as int), part_views(values@)),
        decreases combos@.len() - i,
    {
        push_with_each(&combos[i], values, &mut out);
        proof {
            assert(views.take(i + 1).drop_last() =~= views.take(i as int));
            assert(views.take(i + 1).last() == part_views(combos@[i as int]@));
        }
        i += 1;
    }
    assert(views.take(i as int) =~= views);
    out
}

/// Where the rows of a selection are read.
pub fn scans_for(storage: &Storage, keyspace: &str, table: &TableDef, filters: &[Filter]) -> (scans:
    Vec<Scan>)
    requires
        storage.wf(),
    ensures
        scan_views(scans@) == select_scans(
            storage.engine_count(),
            keyspace@,
            table@,
            filter_views(filters@),
        ),
{
    let ghost views = filter_views(filters@);
    let ghost names = table@.partition_keys;
    if !restricts_partition(filters, table) {
        return storage.scan_rows(keyspace, &table.name);
    }
    let first: Vec<Vec<u8>> = Vec::new();
    let mut combos: Vec<Vec<Vec<u8>>> = vec![first];
    assert(part_views(first@) =~= Seq::<Seq<u8>>::empty());
    assert(combo_views(combos@) =~= seq![Seq::<Seq<u8>>::empty()]);
    let mut i: usize = 0;
    while i < table.partition_keys.len()
        invariant
            i <= table.partition_keys@.len(),
            names == table@.partition_keys,
            views == filter_views(filters@),
            combo_views(combos@) == partitions_of(views, names, i as nat),
        decreases table.partition_keys@.len() - i,
    {
        let values: Vec<Vec<u8>> = listed_values(filters, &table.partition_keys[i]);
        assert(names[i as int] == table.partition_keys@[i as int]@);
        combos = extend_combos(&combos, &values);
        i += 1;
    }
    let ghost all = select_scans(storage.engine_count(), keyspace@, table@, views);
    let mut scans: Vec<Scan> = Vec::new();
    let mut j: usize = 0;
    assert(scan_views(scans@) =~= all.take(0));
    while j < combos.len()
        invariant
            j <= combos@.len(),
            storage.wf(),
            all.len() == combos@.len(),
            forall|k: int|
                0 <= k < combos@.len() ==> #[trigger] all[k] == partition_scan(
                    storage.engine_count(),
                    keyspace@,
                    table@.name,
                    part_views(combos@[k]@),
                ),
            scan_views(scans@) == all.take(j as int),
        decreases combos@.len() - j,
    {
        let ghost before = scan_views(scans@);
        scans.push(storage.scan_partition(keyspace, &table.name, &combos[j]));
        assert(scan_views(scans@) =~= before.push(all[j as int]));
        j += 1;
        assert(scan_views(scans@) =~= all.take(j as int));
    }
    assert(all.take(j as int) =~= all);
    scans
}

/// Where in a row's key the value of a column stands, if it is part of the key.
pub open spec fn key_place(table: TableView, i: int) -> Option<int> {
    if table.columns[i].is_key() {
        index_in(table.key_names(), table.columns[i].name)
    } else {
        None
    }
}

/// A row's values with those of its key filled in, from the `i`-th column on:
/// each key column has the part at its place in the key.
pub open spec fn fill_key(
    values: Seq<ValueView>,
    parts: Seq<Seq<u8>>,
    table: TableView,
    i: int,
) -> Result<Seq<ValueView>, Seq<char>>
    decreases table.columns.len() - i,
{
    if i >= table.columns.len() {
        Ok(values)
    } else {
        match key_place(table, i) {
            Some(at) if at < parts.len() => match decode(
                be_raw(parts[at]),
                table.columns[i].col_type,
            ) {
                Err(e) => Err(decode_error_text(e)),
                Ok(v) => fill_key(
                    values.update(table.index_of(table.columns[i].name).unwrap(), v),
                    parts,
                    table,
                    i + 1,
                ),
            },
            _ => fill_key(values, parts, table, i + 1),
        }
    }
}

/// The values of a row that was read.
pub open spec fn row_values(
    key: Seq<u8>,
    bytes: Seq<u8>,
    keyspace: Seq<char>,
    table: TableView,
) -> Result<Seq<ValueView>, Seq<char>> {
    match decoded_key(data_prefix(keyspace, table.name), key) {
        Err(e) => Err(e),
        Ok(parts) => match decoded_row(bytes, table.columns) {
            Err(e) => Err(e),
            Ok(values) => fill_key(values, parts, table, 0),
        },
    }
}

/// Whether a value equals one of the others.
pub open spec fn equals_one(vs: Seq<ValueView>, v: ValueView) -> bool {
    exists|j: int| 0 <= j < vs.len() && equal(#[trigger] vs[j], v)
}

/// Whether a row meets a restriction.
pub open spec fn meets(f: FilterView, values: Seq<ValueView>, table: TableView) -> bool {
    match f {
        FilterView::Eq(name, v) => match table.index_of(name) {
            Some(c) => equal(v, values[c]),
            None => false,
        },
        FilterView::In(name, vs) => match table.index_of(name) {
            Some(c) => equals_one(vs, values[c]),
            None => false,
        },
    }
}

/// Whether a row meets every restriction.
pub open spec fn meets_all(filters: Seq<FilterView>, values: Seq<ValueView>, table: TableView) -> bool {
    forall|i: int| 0 <= i < filters.len() ==> meets(#[trigger] filters[i], values, table)
}

/// The selected values of a row, from the `i`-th column of the result on.
pub open spec fn projected(
    selected: Seq<NamedType>,
    i: int,
    values: Seq<ValueView>,
    table: TableView,
) -> Result<Seq<ValueView>, ErrorView>
    decreases selected.len() - i,
{
    if i >= selected.len() {
        Ok(Seq::empty())
    } else {
        match table.index_of(selected[i].0) {
            None => Err(internal("column "@ + selected[i].0 + " missing"@)),
            Some(c) => match projected(selected, i + 1, values, table) {
                Err(e) => Err(e),
                Ok(rest) => Ok(seq![values[c]] + rest),
            },
        }
    }
}

/// Whether `n` rows are as many as a limit allows.
pub open spec fn limit_reached(limit: Option<i32>, n: nat) -> bool {
    match limit {
        Some(l) => n as i32 >= l,
        None => false,
    }
}

/// The rows of the result of a selection, from the `i`-th row that was read
/// on, when `n` are there already.
pub open spec fn result_rows(
    plan: SelectView,
    fetched: Seq<(Seq<u8>, Seq<u8>)>,
    i: int,
    n: nat,
    keyspace: Seq<char>,
    table: TableView,
) -> Result<Seq<Seq<ValueView>>, ErrorView>
    decreases fetched.len() - i,
{
    if i >= fetched.len() {
        Ok(Seq::empty())
    } else {
        match row_values(fetched[i].0, fetched[i].1, keyspace, table) {
            Err(e) => Err(internal(e)),
            Ok(values) => if !meets_all(plan.filters, values, table) {
                result_rows(plan, fetched, i + 1, n, keyspace, table)
            } else {
                match projected(plan.selected, 0, values, table) {
                    Err(e) => Err(e),
                    Ok(row) => if limit_reached(plan.limit, n + 1) {
                        Ok(seq![row])
                    } else {
                        match result_rows(plan, fetched, i + 1, n + 1, keyspace, table) {
                            Err(e) => Err(e),
                            Ok(rest) => Ok(seq![row] + rest),
                        }
                    },
                }
            },
        }
    }
}

/// The entries that a scan found.
pub open spec fn entry_views(entries: Seq<(Vec<u8>, Vec<u8>)>) -> Seq<(Seq<u8>, Seq<u8>)> {
    entries.map_values(|e: (Vec<u8>, Vec<u8>)| (e.0@, e.1@))
}

/// Rows of values.
pub open spec fn row_views(rows: Seq<Vec<Value>>) -> Seq<Seq<ValueView>> {
    rows.map_values(|r: Vec<Value>| value_views(r@))
}

fn read_row(key: &[u8], bytes: &[u8], keyspace: &str, table: &TableDef) -> (r: Result<
    Vec<Value>,
    String,
>)
    ensures
        match row_values(key@, bytes@, keyspace@, table@) {
            Ok(values) => r matches Ok(x) && value_views(x@) == values && x@.len()
                == table.columns@.len(),
            Err(e) => r matches Err(x) && x@ == e,
        },
{
    let parts: Vec<Vec<u8>> = match decode_key(keyspace, &table.name, key) {
        Ok(p) => p,
        Err(e) => return Err(e),
    };
    let mut values: Vec<Value> = match decode_row_columns(bytes, table) {
        Ok(v) => v,
        Err(e) => return Err(e),
    };
    let ghost views = part_views(parts@);
    let names: Vec<String> = table.key_columns();
    let ghost all = fill_key(value_views(values@), views, table@, 0);
    let mut i: usize = 0;
    while i < table.columns.len()
        invariant
            i <= table.columns@.len(),
            views == part_views(parts@),
            texts(names@) == table@.key_names(),
            values@.len() == table.columns@.len(),
            all == fill_key(value_views(values@), views, table@, i as int),
            all == row_values(key@, bytes@, keyspace@, table@),
        decreases table.columns@.len() - i,
    {
        let col: &ColumnDef = &table.columns[i];
        assert(table@.columns[i as int] == col@);
        proof {
            lemma_index_in(table@.key_names(), col.name@);
        }
        let place: Option<usize> = if col.is_partition_key || col.is_clustering {
            position_of(&names, &col.name)
        } else {
            None
        };
        assert(key_place(table@, i as int) == match place {
            Some(at) => Some(at as int),
            None => None,
        });
        if let Some(at) = place {
            if at < parts.len() {
                assert(views[at as int] == parts@[at as int]@);
                match Value::try_from_raw_bytes(&parts[at], &col.col_type) {
                    Ok(v) => {
                        proof {
                            lemma_index_in(column_names(table@.columns), col.name@);
                            assert(column_names(table@.columns)[i as int] == col.name@);
                        }
                        let idx: usize = match table.column_index(&col.name) {
                            Some(idx) => idx,
                            None => i,
                        };
                        proof {
                            lemma_values_update(values@, idx as int, v);
                        }
                        values.set(idx, v);
                    },
                    Err(e) => return Err(e.message()),
                }
            }
        }
        i += 1;
    }
    Ok(values)
}

fn is_one_of(vs: &Vec<Value>, v: &Value) -> (r: bool)
    ensures
        r == equals_one(value_views(vs@), v@),
{
    let ghost views = value_views(vs@);
    proof {
        lemma_value_views(vs@);
    }
    let mut i: usize = 0;
    while i < vs.len()
        invariant
            i <= vs@.len(),
            views.len() == vs@.len(),
            forall|j: int| 0 <= j < vs@.len() ==> #[trigger] views[j] == vs@[j]@,
            forall|j: int| 0 <= j < i ==> !equal(#[trigger] views[j], v@),
            views == value_views(vs@),
        decreases vs@.len() - i,
    {
        if vs[i].same(v) {
            assert(equal(views[i as int], v@));
            assert(equals_one(views, v@));
            return true;
        }
        i += 1;
    }
    false
}

fn meets_filter(f: &Filter, values: &Vec<Value>, table: &TableDef) -> (r: bool)
    requires
        values@.len() == table.columns@.len(),
    ensures
        r == meets(f@, value_views(values@), table@),
{
    proof {
        lemma_value_views(values@);
    }
    match f {
        Filter::Eq(name, v) => match table.column_index(name) {
            Some(idx) => {
                assert(value_views(values@)[idx as int] == values@[idx as int]@);
                v.same(&values[idx])
            },
            None => false,
        },
        Filter::In(name, vs) => match table.column_index(name) {
            Some(idx) => {
                assert(value_views(values@)[idx as int] == values@[idx as int]@);
                is_one_of(vs, &values[idx])
            },
            None => false,
        },
    }
}

fn meets_filters(filters: &Vec<Filter>, values: &Vec<Value>, table: &TableDef) -> (r: bool)
    requires
        values@.len() == table.columns@.len(),
    ensures
        r == meets_all(filter_views(filters@), value_views(values@), table@),
{
    let ghost views = filter_views(filters@);
    let mut i: usize = 0;
    while i < filters.len()
        invariant
            i <= filters@.len(),
            values@.len() == table.columns@.len(),
            views == filter_views(filters@),
            forall|j: int|
                0 <= j < i ==> meets(#[trigger] views[j], value_views(values@), table@),
        decreases filters@.len() - i,
    {
        if !meets_filter(&filters[i], values, table) {
            assert(!meets(views[i as int], value_views(values@), table@));
            return false;
        }
        i += 1;
    }
    true
}

fn project(selected: &Vec<(String, ColumnType)>, values: &Vec<Value>, table: &TableDef) -> (r:
    Result<Vec<Value>, QueryError>)
    requires
        values@.len() == table.columns@.len(),
    ensures
        match projected(named_types(selected@), 0, value_views(values@), table@) {
            Ok(row) => r matches Ok(x) && value_views(x@) == row,
            Err(e) => r matches Err(x) && x@ == e,
        },
{
    let ghost cols = named_types(selected@);
    let ghost all = projected(cols, 0, value_views(values@), table@);
    proof {
        lemma_value_views(values@);
    }
    let mut out: Vec<Value> = Vec::new();
    let mut i: usize = 0;
    proof {
        assert(value_views(out@) =~= Seq::<ValueView>::empty());
        if let Ok(rest) = all {
            assert(value_views(out@) + rest =~= rest);
        }
    }
    while i < selected.len()
        invariant
            i <= selected@.len(),
            values@.len() == table.columns@.len(),
            cols == named_types(selected@),
            value_views(values@).len() == values@.len(),
            forall|j: int|
                0 <= j < values@.len() ==> #[trigger] value_views(values@)[j] == values@[j]@,
            all == projected(cols, 0, value_views(values@), table@),
            all == (match projected(cols, i as int, value_views(values@), table@) {
                Ok(rest) => Ok(value_views(out@) + rest),
                Err(e) => Err(e),
            }),
        decreases selected@.len() - i,
    {
        let name: &String = &selected[i].0;
        assert(cols[i as int].0 == name@);
        let idx: usize = match table.column_index(name) {
            Some(idx) => idx,
            None => return Err(internal_err(&join3("column ", name, " missing"))),
        };
        let v: Value = values[idx].clone();
        proof {
            assert(value_views(values@)[idx as int] == v@);
            lemma_value_views_push(out@, v);
            if let Ok(rest) = projected(cols, i + 1, value_views(values@), table@) {
                assert(value_views(out@) + (seq![v@] + rest) =~= value_views(out@).push(v@) + rest);
            }
        }
        out.push(v);
        i += 1;
    }
    assert(value_views(out@) + Seq::<ValueView>::empty() =~= value_views(out@));
    Ok(out)
}

/// The rows that were read, in the order in which a result has them: those of
/// whole partitions as they were read, those of a whole table in the order of
/// their keys, whichever engine holds them.
pub open spec fn in_result_order(
    filters: Seq<FilterView>,
    table: TableView,
    fetched: Seq<(Seq<u8>, Seq<u8>)>,
) -> Seq<(Seq<u8>, Seq<u8>)> {
    if partition_restricted(filters, table) {
        fetched
    } else {
        in_key_order(fetched)
    }
}

/// Puts the rows that were read for a selection into the order of its result.
pub fn order_fetched(
    plan: &SelectPlan,
    table: &TableDef,
    fetched: Vec<(Vec<u8>, Vec<u8>)>,
) -> (r: Vec<(Vec<u8>, Vec<u8>)>)
    ensures
        entry_views(r@) == in_result_order(plan@.filters, table@, entry_views(fetched@)),
{
    if restricts_partition(&plan.filters, table) {
        fetched
    } else {
        sort_entries(fetched)
    }
}

/// Whether a selection can do with the first rows that are read: it has a limit,
/// and its result has the rows in the order in which they are read.
pub open spec fn stops_early(plan: SelectView, table: TableView) -> bool {
    plan.limit is Some && partition_restricted(plan.filters, table)
}

/// Whether a row that was read counts towards the limit of a selection.
pub open spec fn counts(
    plan: SelectView,
    keyspace: Seq<char>,
    table: TableView,
    row: (Seq<u8>, Seq<u8>),
) -> bool {
    &&& stops_early(plan, table)
    &&& row_values(row.0, row.1, keyspace, table) matches Ok(values) && meets_all(
        plan.filters,
        values,
        table,
    )
}

/// How many of the rows that were read, from the `i`-th on, count towards the
/// limit of a selection.
pub open spec fn counted(
    plan: SelectView,
    keyspace: Seq<char>,
    table: TableView,
    fetched: Seq<(Seq<u8>, Seq<u8>)>,
    i: int,
) -> nat
    decreases fetched.len() - i,
{
    if i >= fetched.len() {
        0
    } else {
        counted(plan, keyspace, table, fetched, i + 1) + if counts(
            plan,
            keyspace,
            table,
            fetched[i],
        ) {
            1nat
        } else {
            0nat
        }
    }
}

/// Whether so many rows that count are all that a selection takes.
pub open spec fn suffices(plan: SelectView, table: TableView, n: nat) -> bool {
    stops_early(plan, table) && n >= 1 && n >= plan.limit->Some_0
}

/// Whether a row that was read counts towards the limit of a selection.
pub fn row_counts(
    keyspace: &str,
    table: &TableDef,
    plan: &SelectPlan,
    key: &[u8],
    bytes: &[u8],
) -> (r: bool)
    ensures
        r == counts(plan@, keyspace@, table@, (key@, bytes@)),
{
    if plan.limit.is_none() || !restricts_partition(&plan.filters, table) {
        return false;
    }
    match read_row(key, bytes, keyspace, table) {
        Ok(values) => meets_filters(&plan.filters, &values, table),
        Err(_) => false,
    }
}

/// Whether so many rows that count are all that a selection takes.
pub fn rows_suffice(table: &TableDef, plan: &SelectPlan, n: usize) -> (r: bool)
    ensures
        r == suffices(plan@, table@, n as nat),
{
    match plan.limit {
        Some(limit) => restricts_partition(&plan.filters, table) && n >= 1 && (limit <= 0 || n
            >= limit as usize),
        None => false,
    }
}

/// The rows of the result of a selection, given the rows that were read.
pub fn exec_select(
    keyspace: &str,
    table: &TableDef,
    plan: &SelectPlan,
    fetched: &Vec<(Vec<u8>, Vec<u8>)>,
) -> (r: Result<Vec<Vec<Value>>, QueryError>)
    ensures
        match result_rows(plan@, entry_views(fetched@), 0, 0, keyspace@, table@) {
            Ok(rows) => r matches Ok(x) && row_views(x@) == rows,
            Err(e) => r matches Err(x) && x@ == e,
        },
{
    let ghost views = entry_views(fetched@);
    let ghost all = result_rows(plan@, views, 0, 0, keyspace@, table@);
    let mut out: Vec<Vec<Value>> = Vec::new();
    let mut i: usize = 0;
    proof {
        assert(row_views(out@) =~= Seq::<Seq<ValueView>>::empty());
        if let Ok(rest) = all {
            assert(row_views(out@) + rest =~= rest);
        }
    }
    while i < fetched.len()
        invariant
            i <= fetched@.len(),
            views == entry_views(fetched@),
            all == result_rows(plan@, views, 0, 0, keyspace@, table@),
            all == (match result_rows(
                plan@,
                views,
                i as int,
                out@.len(),
                keyspace@,
                table@,
            ) {
                Ok(rest) => Ok(row_views(out@) + rest),
                Err(e) => Err(e),
            }),
        decreases fetched@.len() - i,
    {
        assert(views[i as int] == (fetched@[i as int].0@, fetched@[i as int].1@));
        let values: Vec<Value> = match read_row(&fetched[i].0, &fetched[i].1, keyspace, table) {
            Ok(v) => v,
            Err(e) => return Err(internal_err(&e)),
        };
        if meets_filters(&plan.filters, &values, table) {
            let row: Vec<Value> = match project(&plan.selected, &values, table) {
                Ok(row) => row,
                Err(e) => return Err(e),
            };
            let ghost before = row_views(out@);
            let ghost n = out@.len();
            out.push(row);
            assert(row_views(out@) =~= before.push(value_views(row@)));
            if let Some(limit) = plan.limit {
                if out.len() as i32 >= limit {
                    assert(before + seq![value_views(row@)] =~= row_views(out@));
                    return Ok(out);
                }
            }
            proof {
                if let Ok(rest) = result_rows(
                    plan@,
                    views,
                    i + 1,
                    n + 1,
                    keyspace@,
                    table@,
                ) {
                    assert(before + (seq![value_views(row@)] + rest) =~= row_views(out@) + rest);
                }
            }
        }
        i += 1;
    }
    assert(row_views(out@) + Seq::<Seq<ValueView>>::empty() =~= row_views(out@));
    Ok(out)
}

} // verus!
