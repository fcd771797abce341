//! What a selection gives as a whole: the selected columns of exactly those
//! stored rows that meet every restriction.

use crate::bytes::has_prefix;
use crate::cql_value::{equal, raw, typed, ValueView};
use crate::dml::{
    delete_command, insert_command, inserted_row, update_command, update_plan, updated_row,
};
use crate::error::ErrorView;
use crate::expr::{fixed_value, named_columns, selects_all, Env, FilterView};
use crate::keys::{
    data_prefix, decoded_row, key_bytes, law_key_prefix_is_part_prefix, law_key_round_trip,
    law_rows_do_not_collide, parts_fit, row_key,
};
use crate::laws::{
    assigned_fit, found_at, insert_assignments, inserted_values, key_holds,
    law_created_table_is_readable, law_select_reaches_row, law_stored_row_is_typed, lemma_fill_key,
    lemma_inserted_key_holds, lemma_marked_partition, lemma_scan_in_table, lemma_updated_key_holds,
    readable, scan_reaches, update_filters,
};
use crate::order::{in_key_order, law_key_order_keeps_entries, lemma_key_order_contains};
use crate::query::{rows_step, select_step, NextView, ResponseView, SelectingView};
use crate::schema::{
    column_names, id_text, listed_clustering, listed_partition, marked_partition, table_of,
    ColumnType, ColumnView, TableView,
};
use crate::select::{
    allowed_bytes, extended, in_result_order, is_restricted, key_place, limit_reached, listed_bytes,
    meets, meets_all, partition_restricted, partitions_of, projected, restricts, result_rows,
    row_values, select_plan, select_scans, with_each, SelectView,
};
use crate::storage::{
    engines_after, held, partition_scan, put_row_command, row_engine, row_place, Engines, Place,
};
use crate::text::{index_in, lemma_index_in, lemma_index_is};
use cql3_parser::create_table::CreateTable;
use cql3_parser::delete::Delete;
use cql3_parser::insert::Insert;
use cql3_parser::select::{Select, SelectElement};
use cql3_parser::update::Update;
use vstd::prelude::*;
use vstd::seq_lib::group_to_multiset_ensures;

verus! {

/// Whether a stored row meets every restriction of a selection.
pub open spec fn matching(plan: SelectView, keyspace: Seq<char>, table: TableView) -> spec_fn(
    (Seq<u8>, Seq<u8>),
) -> bool {
    |r: (Seq<u8>, Seq<u8>)|
        meets_all(plan.filters, row_values(r.0, r.1, keyspace, table)->Ok_0, table)
}

/// The selected columns of a stored row.
pub open spec fn projection(plan: SelectView, keyspace: Seq<char>, table: TableView) -> spec_fn(
    (Seq<u8>, Seq<u8>),
) -> Seq<ValueView> {
    |r: (Seq<u8>, Seq<u8>)|
        projected(plan.selected, 0, row_values(r.0, r.1, keyspace, table)->Ok_0, table)->Ok_0
}

/// The selected columns of those of the rows that meet every restriction.
pub open spec fn selected_rows(
    plan: SelectView,
    rows: Seq<(Seq<u8>, Seq<u8>)>,
    keyspace: Seq<char>,
    table: TableView,
) -> Seq<Seq<ValueView>> {
    rows.filter(matching(plan, keyspace, table)).map_values(projection(plan, keyspace, table))
}

/// As many of the rows as a limit leaves when `n` are there already.
pub open spec fn within_limit(limit: Option<i32>, n: nat, rows: Seq<Seq<ValueView>>) -> Seq<
    Seq<ValueView>,
> {
    match limit {
        None => rows,
        Some(l) => if rows.len() <= l - n {
            rows
        } else {
            rows.take(l - n)
        },
    }
}

/// Whether every selected column is one of the table's.
pub open spec fn selects_columns(plan: SelectView, table: TableView) -> bool {
    forall|i: int|
        0 <= i < plan.selected.len() ==> table.index_of((#[trigger] plan.selected[i]).0) is Some
}

/// Whether every one of the rows can be read.
pub open spec fn all_read(
    rows: Seq<(Seq<u8>, Seq<u8>)>,
    keyspace: Seq<char>,
    table: TableView,
) -> bool {
    forall|i: int|
        0 <= i < rows.len() ==> row_values(
            (#[trigger] rows[i]).0,
            rows[i].1,
            keyspace,
            table,
        ) is Ok
}

pub proof fn lemma_projects(plan: SelectView, i: int, values: Seq<ValueView>, table: TableView)
    requires
        0 <= i,
        selects_columns(plan, table),
    ensures
        projected(plan.selected, i, values, table) is Ok,
    decreases plan.selected.len() - i,
{
    if i < plan.selected.len() {
        assert(table.index_of(plan.selected[i].0) is Some);
        lemma_projects(plan, i + 1, values, table);
    }
}

proof fn lemma_select_front<A, B>(
    x: A,
    tail: Seq<A>,
    p: spec_fn(A) -> bool,
    f: spec_fn(A) -> B,
)
    ensures
        p(x) ==> (seq![x] + tail).filter(p).map_values(f) == seq![f(x)] + tail.filter(p).map_values(
            f,
        ),
        !p(x) ==> (seq![x] + tail).filter(p).map_values(f) == tail.filter(p).map_values(f),
{
    Seq::filter_distributes_over_add(seq![x], tail, p);
    assert(seq![x].filter(p) =~= if p(x) {
        seq![x]
    } else {
        Seq::empty()
    }) by {
        reveal(Seq::filter);
        assert(seq![x].drop_last() =~= Seq::empty());
        assert(seq![x].drop_last().filter(p) =~= Seq::empty());
    }
    if p(x) {
        assert((seq![x] + tail).filter(p).map_values(f) =~= seq![f(x)] + tail.filter(p).map_values(
            f,
        ));
    } else {
        assert((seq![x] + tail).filter(p) =~= tail.filter(p));
    }
}

proof fn lemma_limit_front(
    limit: Option<i32>,
    n: nat,
    row: Seq<ValueView>,
    rest: Seq<Seq<ValueView>>,
)
    requires
        limit matches Some(l) ==> n < l,
    ensures
        within_limit(limit, n, seq![row] + rest) == if limit_reached(limit, n + 1) {
            seq![row]
        } else {
            seq![row] + within_limit(limit, n + 1, rest)
        },
{
    assert(within_limit(limit, n, seq![row] + rest) =~= if limit_reached(limit, n + 1) {
        seq![row]
    } else {
        seq![row] + within_limit(limit, n + 1, rest)
    });
}

/// The result of a selection is the selected columns of the rows that meet
/// every restriction, in the order of the rows, as many as the limit allows.
pub proof fn lemma_result(
    plan: SelectView,
    rows: Seq<(Seq<u8>, Seq<u8>)>,
    i: int,
    n: nat,
    keyspace: Seq<char>,
    table: TableView,
)
    requires
        0 <= i <= rows.len(),
        selects_columns(plan, table),
        all_read(rows, keyspace, table),
        plan.limit matches Some(l) ==> n < l,
    ensures
        result_rows(plan, rows, i, n, keyspace, table) == Ok::<Seq<Seq<ValueView>>, ErrorView>(
            within_limit(plan.limit, n, selected_rows(plan, rows.skip(i), keyspace, table)),
        ),
    decreases rows.len() - i,
{
    let p = matching(plan, keyspace, table);
    let f = projection(plan, keyspace, table);
    if i >= rows.len() {
        assert(rows.skip(i) =~= Seq::empty());
        assert(rows.skip(i).filter(p) =~= Seq::empty()) by {
            reveal(Seq::filter);
        }
        assert(selected_rows(plan, rows.skip(i), keyspace, table) =~= Seq::empty());
        assert(within_limit(plan.limit, n, Seq::empty()) =~= Seq::empty());
    } else {
        let x = rows[i];
        let tail = rows.skip(i + 1);
        let rest = selected_rows(plan, tail, keyspace, table);
        assert(rows.skip(i) =~= seq![x] + tail);
        lemma_select_front(x, tail, p, f);
        let values = row_values(x.0, x.1, keyspace, table)->Ok_0;
        lemma_projects(plan, 0, values, table);
        if p(x) {
            lemma_limit_front(plan.limit, n, f(x), rest);
            if !limit_reached(plan.limit, n + 1) {
                lemma_result(plan, rows, i + 1, n + 1, keyspace, table);
            }
        } else {
            lemma_result(plan, rows, i + 1, n, keyspace, table);
        }
    }
}

/// Lists without repetition that hold the same hold it equally often.
proof fn lemma_same_multiset<A>(s: Seq<A>, t: Seq<A>)
    requires
        s.no_duplicates(),
        t.no_duplicates(),
        forall|x: A| s.contains(x) <==> t.contains(x),
    ensures
        s.to_multiset() == t.to_multiset(),
{
    broadcast use group_to_multiset_ensures;

    s.lemma_multiset_has_no_duplicates();
    t.lemma_multiset_has_no_duplicates();
    assert forall|x: A| s.to_multiset().count(x) == t.to_multiset().count(x) by {
        assert(s.contains(x) <==> s.to_multiset().count(x) > 0);
        assert(t.contains(x) <==> t.to_multiset().count(x) > 0);
        if s.contains(x) {
            assert(s.to_multiset().contains(x));
            assert(t.to_multiset().contains(x));
        }
    }
    assert(s.to_multiset() =~= t.to_multiset());
}

/// Lists that hold the same equally often do so when each item is mapped.
proof fn lemma_mapped_multiset<A, B>(s: Seq<A>, t: Seq<A>, f: spec_fn(A) -> B)
    requires
        s.to_multiset() == t.to_multiset(),
    ensures
        s.map_values(f).to_multiset() == t.map_values(f).to_multiset(),
    decreases s.len(),
{
    broadcast use group_to_multiset_ensures;

    assert(s.len() == s.to_multiset().len());
    assert(t.len() == t.to_multiset().len());
    if s.len() == 0 {
        assert(s.map_values(f) =~= t.map_values(f));
    } else {
        let x = s.last();
        let front = s.drop_last();
        assert(s =~= front.push(x));
        assert(s[s.len() - 1] == x);
        assert(s.to_multiset().count(x) > 0);
        assert(t.contains(x));
        let i = choose|i: int| 0 <= i < t.len() && t[i] == x;
        let rest = t.remove(i);
        assert(rest.to_multiset() =~= t.to_multiset().remove(x));
        assert(s.remove(s.len() - 1) =~= front);
        assert(front.to_multiset() =~= s.to_multiset().remove(x));
        lemma_mapped_multiset(front, rest, f);
        assert(s.map_values(f) =~= front.map_values(f).push(f(x)));
        assert(t.map_values(f).remove(i) =~= rest.map_values(f));
        assert(t.map_values(f)[i] == f(x));
        assert(t.map_values(f).contains(f(x)));
        assert(t.map_values(f).to_multiset().count(f(x)) > 0);
        assert(t.map_values(f).to_multiset() =~= rest.map_values(f).to_multiset().insert(f(x)));
        assert(s.map_values(f).to_multiset() =~= front.map_values(f).to_multiset().insert(f(x)));
    }
}

proof fn lemma_filter_no_duplicates<A>(s: Seq<A>, p: spec_fn(A) -> bool)
    requires
        s.no_duplicates(),
    ensures
        s.filter(p).no_duplicates(),
        forall|x: A| s.filter(p).contains(x) <==> s.contains(x) && p(x),
    decreases s.len(),
{
    reveal(Seq::filter);
    if s.len() > 0 {
        let front = s.drop_last();
        let x = s.last();
        lemma_filter_no_duplicates(front, p);
        let kept = s.filter(p);
        let before = front.filter(p);
        assert(!front.contains(x)) by {
            if front.contains(x) {
                let i = choose|i: int| 0 <= i < front.len() && front[i] == x;
                assert(s[i] == s[s.len() - 1]);
            }
        }
        assert(kept == if p(x) {
            before.push(x)
        } else {
            before
        });
        assert(!before.contains(x));
        assert forall|y: A| kept.contains(y) <==> s.contains(y) && p(y) by {
            if s.contains(y) && p(y) {
                let i = choose|i: int| 0 <= i < s.len() && s[i] == y;
                if i < s.len() - 1 {
                    assert(front[i] == y);
                    assert(before.contains(y));
                    let j = choose|j: int| 0 <= j < before.len() && before[j] == y;
                    assert(kept[j] == y);
                } else {
                    assert(kept[kept.len() - 1] == y);
                }
            }
            if kept.contains(y) {
                let j = choose|j: int| 0 <= j < kept.len() && kept[j] == y;
                if j < before.len() {
                    assert(before[j] == y);
                    assert(front.contains(y));
                    let i = choose|i: int| 0 <= i < front.len() && front[i] == y;
                    assert(s[i] == y);
                } else {
                    assert(s[s.len() - 1] == y);
                }
            }
        }
    }
}

/// Of lists without repetition that agree on what meets a condition, the items
/// that meet it are mapped to the same.
proof fn lemma_same_selected<A, B>(
    s: Seq<A>,
    t: Seq<A>,
    p: spec_fn(A) -> bool,
    f: spec_fn(A) -> B,
)
    requires
        s.no_duplicates(),
        t.no_duplicates(),
        forall|x: A| #[trigger] p(x) ==> (s.contains(x) <==> t.contains(x)),
    ensures
        s.filter(p).map_values(f).to_multiset() == t.filter(p).map_values(f).to_multiset(),
{
    lemma_filter_no_duplicates(s, p);
    lemma_filter_no_duplicates(t, p);
    assert forall|x: A| s.filter(p).contains(x) <==> t.filter(p).contains(x) by {
        assert(p(x) ==> (s.contains(x) <==> t.contains(x)));
    }
    lemma_same_multiset(s.filter(p), t.filter(p));
    lemma_mapped_multiset(s.filter(p), t.filter(p), f);
}

/// What a list of lists holds, taken together: without repetition where the
/// lists have none and share nothing.
proof fn lemma_flattened<A>(lists: Seq<Seq<A>>)
    requires
        forall|k: int| 0 <= k < lists.len() ==> (#[trigger] lists[k]).no_duplicates(),
        forall|k: int, l: int, x: A|
            0 <= k < l < lists.len() ==> !(#[trigger] lists[k].contains(x)
                && #[trigger] lists[l].contains(x)),
    ensures
        lists.flatten().no_duplicates(),
        forall|x: A|
            lists.flatten().contains(x) <==> exists|k: int|
                0 <= k < lists.len() && #[trigger] lists[k].contains(x),
    decreases lists.len(),
{
    if lists.len() > 0 {
        let first = lists[0];
        let rest = lists.drop_first();
        assert forall|k: int| 0 <= k < rest.len() implies (#[trigger] rest[k]).no_duplicates() by {
            assert(rest[k] == lists[k + 1]);
        }
        assert forall|k: int, l: int, x: A| 0 <= k < l < rest.len() implies !(#[trigger] rest[
            k
        ].contains(x) && #[trigger] rest[l].contains(x)) by {
            assert(rest[k] == lists[k + 1]);
            assert(rest[l] == lists[l + 1]);
        }
        lemma_flattened(rest);
        let all = lists.flatten();
        let tail = rest.flatten();
        assert(all == first + tail);
        assert forall|x: A| all.contains(x) <==> exists|k: int|
            0 <= k < lists.len() && #[trigger] lists[k].contains(x) by {
            if all.contains(x) {
                let i = choose|i: int| 0 <= i < all.len() && all[i] == x;
                if i < first.len() {
                    assert(first[i] == x);
                    assert(lists[0].contains(x));
                } else {
                    assert(tail[i - first.len()] == x);
                    assert(tail.contains(x));
                    let k = choose|k: int| 0 <= k < rest.len() && #[trigger] rest[k].contains(x);
                    assert(lists[k + 1].contains(x));
                }
            }
            if exists|k: int| 0 <= k < lists.len() && #[trigger] lists[k].contains(x) {
                let k = choose|k: int| 0 <= k < lists.len() && #[trigger] lists[k].contains(x);
                if k == 0 {
                    let i = choose|i: int| 0 <= i < first.len() && first[i] == x;
                    assert(all[i] == x);
                } else {
                    assert(rest[k - 1].contains(x));
                    assert(tail.contains(x));
                    let i = choose|i: int| 0 <= i < tail.len() && tail[i] == x;
                    assert(all[first.len() + i] == x);
                }
            }
        }
        assert forall|i: int, j: int| 0 <= i < j < all.len() implies all[i] != all[j] by {
            if i < first.len() && j >= first.len() && all[i] == all[j] {
                let x = all[i];
                assert(first[i] == x);
                assert(tail[j - first.len()] == x);
                assert(tail.contains(x));
                let k = choose|k: int| 0 <= k < rest.len() && #[trigger] rest[k].contains(x);
                assert(lists[k + 1].contains(x));
                assert(lists[0].contains(x));
            } else if i >= first.len() {
                assert(tail[i - first.len()] != tail[j - first.len()]);
            } else if j < first.len() {
                assert(first[i] != first[j]);
            }
        }
        assert(all.no_duplicates());
    } else {
        assert(lists.flatten() =~= Seq::<A>::empty());
    }
}

/// Whether no value of a type holds a float or a double, which compare by
/// value and not by their bits.
pub open spec fn exact(t: ColumnType) -> bool
    decreases t,
{
    match t {
        ColumnType::Float => false,
        ColumnType::Double => false,
        ColumnType::SetOf(e) => exact(*e),
        ColumnType::List(e) => exact(*e),
        ColumnType::MapOf(k, v) => exact(*k) && exact(*v),
        _ => true,
    }
}

/// Equal values of a type without floats are the same.
proof fn lemma_equal_exact(a: ValueView, b: ValueView, t: ColumnType)
    requires
        exact(t),
        typed(b, t),
        equal(a, b),
    ensures
        a == b,
    decreases t,
{
    match (t, a, b) {
        (ColumnType::SetOf(e), ValueView::SetOf(x), ValueView::SetOf(y)) => {
            assert forall|i: int| 0 <= i < x.len() implies x[i] == y[i] by {
                lemma_equal_exact(x[i], y[i], *e);
            }
            assert(x =~= y);
        },
        (ColumnType::List(e), ValueView::List(x), ValueView::List(y)) => {
            assert forall|i: int| 0 <= i < x.len() implies x[i] == y[i] by {
                lemma_equal_exact(x[i], y[i], *e);
            }
            assert(x =~= y);
        },
        (ColumnType::MapOf(k, v), ValueView::MapOf(x), ValueView::MapOf(y)) => {
            assert forall|i: int| 0 <= i < x.len() implies x[i] == y[i] by {
                lemma_equal_exact(x[i].0, y[i].0, *k);
                lemma_equal_exact(x[i].1, y[i].1, *v);
            }
            assert(x =~= y);
        },
        _ => {},
    }
}

/// Whether each part of a table's key is a column of its own that is marked as
/// part of the key, and the rows of the table can be read back.
pub open spec fn keyed(table: TableView) -> bool {
    &&& readable(table)
    &&& table.partition_keys.len() > 0
    &&& forall|j: int| 0 <= j < table.key_names().len() ==> #[trigger] keyed_at(table, j)
}

/// Whether a part of a table's key is a column of its own.
pub open spec fn keyed_at(table: TableView, j: int) -> bool {
    let name = table.key_names()[j];
    &&& table.index_of(name) matches Some(c) && table.columns[c].is_key()
    &&& index_in(table.key_names(), name) == Some(j)
}

/// Whether no part of a table's partition key holds a float or a double.
pub open spec fn exact_partitions(table: TableView) -> bool {
    forall|j: int|
        0 <= j < table.partition_keys.len() ==> exact(
            table.columns[table.index_of(#[trigger] table.partition_keys[j])->Some_0].col_type,
        )
}

/// The column that a restriction is on.
pub open spec fn restricted_name(f: FilterView) -> Seq<char> {
    match f {
        FilterView::Eq(name, _) => name,
        FilterView::In(name, _) => name,
    }
}

/// Whether no column is restricted twice, and no list of values repeats one.
pub open spec fn without_repetition(filters: Seq<FilterView>) -> bool {
    &&& forall|i: int, j: int|
        0 <= i < j < filters.len() ==> restricted_name(#[trigger] filters[i]) != restricted_name(
            #[trigger] filters[j],
        )
    &&& forall|i: int|
        0 <= i < filters.len() ==> (#[trigger] filters[i] matches FilterView::In(_, vs)
            ==> vs.map_values(|v: ValueView| raw(v)).no_duplicates())
}

/// Whether the listed values of the partition key are short enough for a key.
pub open spec fn listed_fit(filters: Seq<FilterView>, table: TableView) -> bool {
    forall|j: int|
        0 <= j < table.partition_keys.len() ==> parts_fit(
            listed_bytes(filters, #[trigger] table.partition_keys[j]),
        )
}

/// Whether the partitions that restrictions list, if they list any, are listed
/// once each, with values that compare equal only where they are the same.
pub open spec fn lists_exactly(filters: Seq<FilterView>, table: TableView) -> bool {
    partition_restricted(filters, table) ==> {
        &&& exact_partitions(table)
        &&& without_repetition(filters)
        &&& listed_fit(filters, table)
    }
}

/// Whether a key is that of a row which stands where its parts say: on the
/// engine of its partition, with parts that are the bytes of values of the key
/// columns' types.
pub open spec fn in_place(
    n: nat,
    engine: int,
    key: Seq<u8>,
    keyspace: Seq<char>,
    table: TableView,
    parts: Seq<Seq<u8>>,
    values: Seq<ValueView>,
) -> bool {
    &&& key == row_key(keyspace, table.name, parts)
    &&& parts.len() == table.key_names().len()
    &&& parts_fit(parts)
    &&& engine == row_engine(n, keyspace, table.name, parts)
    &&& values.len() == table.columns.len()
    &&& key_holds(parts, values, table)
}

pub open spec fn has_place(
    n: nat,
    engine: int,
    key: Seq<u8>,
    keyspace: Seq<char>,
    table: TableView,
) -> bool {
    exists|parts: Seq<Seq<u8>>, values: Seq<ValueView>|
        in_place(n, engine, key, keyspace, table, parts, values)
}

/// Whether every row of a table stands where its key says.
pub open spec fn rows_in_place(e: Engines, keyspace: Seq<char>, table: TableView) -> bool {
    forall|engine: int, key: Seq<u8>|
        0 <= engine < e.len() && #[trigger] e[engine].contains_key(key) && has_prefix(
            key,
            data_prefix(keyspace, table.name),
        ) ==> has_place(e.len(), engine, key, keyspace, table)
}

/// Whether an entry is a row of a table, on one engine or another.
pub open spec fn is_stored(
    e: Engines,
    keyspace: Seq<char>,
    table: Seq<char>,
    entry: (Seq<u8>, Seq<u8>),
) -> bool {
    has_prefix(entry.0, data_prefix(keyspace, table)) && exists|engine: int|
        0 <= engine < e.len() && #[trigger] held(e, (engine, entry.0)) == Some(entry.1)
}

/// Whether a list holds every row of a table, and each once.
pub open spec fn lists_table(
    e: Engines,
    keyspace: Seq<char>,
    table: Seq<char>,
    rows: Seq<(Seq<u8>, Seq<u8>)>,
) -> bool {
    &&& rows.no_duplicates()
    &&& forall|entry: (Seq<u8>, Seq<u8>)|
        #![trigger rows.contains(entry)]
        rows.contains(entry) <==> is_stored(e, keyspace, table, entry)
}

/// Whether each of some scans found every entry that there is to find, and each
/// once.
pub open spec fn found_by(
    e: Engines,
    scans: Seq<Place>,
    found: Seq<Seq<(Seq<u8>, Seq<u8>)>>,
) -> bool {
    &&& found.len() == scans.len()
    &&& forall|k: int| 0 <= k < found.len() ==> (#[trigger] found[k]).no_duplicates()
    &&& forall|k: int, entry: (Seq<u8>, Seq<u8>)|
        #![trigger found[k].contains(entry)]
        0 <= k < found.len() ==> (found[k].contains(entry) <==> found_at(e, scans[k], entry))
}

proof fn lemma_unlisted(filters: Seq<FilterView>, name: Seq<char>)
    requires
        forall|i: int| 0 <= i < filters.len() ==> restricted_name(#[trigger] filters[i]) != name,
    ensures
        listed_bytes(filters, name) == Seq::<Seq<u8>>::empty(),
    decreases filters.len(),
{
    if filters.len() > 0 {
        let front = filters.drop_last();
        assert forall|i: int| 0 <= i < front.len() implies restricted_name(#[trigger] front[i])
            != name by {
            assert(filters[i] == front[i]);
        }
        lemma_unlisted(front, name);
        assert(restricted_name(filters[filters.len() - 1]) != name);
        assert(listed_bytes(filters, name) =~= Seq::<Seq<u8>>::empty());
    }
}

/// No bytes are listed twice for a column.
proof fn lemma_listed_once(filters: Seq<FilterView>, name: Seq<char>)
    requires
        without_repetition(filters),
    ensures
        listed_bytes(filters, name).no_duplicates(),
    decreases filters.len(),
{
    if filters.len() > 0 {
        let front = filters.drop_last();
        let last = filters.last();
        assert(filters[filters.len() - 1] == last);
        assert(without_repetition(front)) by {
            assert forall|i: int, j: int| 0 <= i < j < front.len() implies restricted_name(
                #[trigger] front[i],
            ) != restricted_name(#[trigger] front[j]) by {
                assert(filters[i] == front[i] && filters[j] == front[j]);
            }
            assert forall|i: int| 0 <= i < front.len() implies (#[trigger] front[i]
                matches FilterView::In(_, vs) ==> vs.map_values(
                |v: ValueView| raw(v),
            ).no_duplicates()) by {
                assert(filters[i] == front[i]);
            }
        }
        if restricted_name(last) == name {
            assert forall|i: int| 0 <= i < front.len() implies restricted_name(#[trigger] front[i])
                != name by {
                assert(filters[i] == front[i]);
            }
            lemma_unlisted(front, name);
            assert(listed_bytes(filters, name) =~= allowed_bytes(last, name));
        } else {
            lemma_listed_once(front, name);
            assert(allowed_bytes(last, name) =~= Seq::<Seq<u8>>::empty());
            assert(listed_bytes(filters, name) =~= listed_bytes(front, name));
        }
    }
}

/// Every combination is one of the combinations with one of the values behind
/// it.
proof fn lemma_extended_parts(combos: Seq<Seq<Seq<u8>>>, values: Seq<Seq<u8>>, i: int)
    requires
        0 <= i < extended(combos, values).len(),
    ensures
        extended(combos, values)[i].len() > 0,
        combos.contains(extended(combos, values)[i].drop_last()),
        values.contains(extended(combos, values)[i].last()),
    decreases combos.len(),
{
    if combos.len() > 0 {
        let front = combos.drop_last();
        let before = extended(front, values);
        let x = extended(combos, values)[i];
        if i < before.len() {
            assert(x == before[i]);
            lemma_extended_parts(front, values, i);
            let k = choose|k: int| 0 <= k < front.len() && front[k] == x.drop_last();
            assert(combos[k] == x.drop_last());
        } else {
            let j = i - before.len();
            assert(x == with_each(combos.last(), values)[j]);
            assert(x == combos.last().push(values[j]));
            assert(x.drop_last() =~= combos.last());
            assert(combos[combos.len() - 1] == x.drop_last());
            assert(values[j] == x.last());
        }
    }
}

proof fn lemma_extended_once(combos: Seq<Seq<Seq<u8>>>, values: Seq<Seq<u8>>)
    requires
        combos.no_duplicates(),
        values.no_duplicates(),
    ensures
        extended(combos, values).no_duplicates(),
    decreases combos.len(),
{
    if combos.len() > 0 {
        let front = combos.drop_last();
        let last = combos.last();
        lemma_extended_once(front, values);
        let before = extended(front, values);
        let added = with_each(last, values);
        let all = extended(combos, values);
        assert forall|i: int, j: int| 0 <= i < j < all.len() implies all[i] != all[j] by {
            if j < before.len() {
                assert(before[i] != before[j]);
            } else {
                let v = values[j - before.len()];
                assert(all[j] == last.push(v));
                assert(all[j].drop_last() =~= last && all[j].last() == v);
                if i < before.len() {
                    lemma_extended_parts(front, values, i);
                    assert(all[i] == before[i]);
                    if all[i] == all[j] {
                        let k = choose|k: int| 0 <= k < front.len() && front[k] == last;
                        assert(combos[k] == combos[combos.len() - 1]);
                    }
                } else {
                    let w = values[i - before.len()];
                    assert(all[i] == last.push(w));
                    assert(all[i].last() == w);
                }
            }
        }
    }
}

/// No partition is listed twice, and each has as many parts as the key, short
/// enough for a key.
proof fn lemma_partitions(filters: Seq<FilterView>, names: Seq<Seq<char>>, i: nat)
    requires
        i <= names.len(),
        without_repetition(filters),
        forall|j: int|
            0 <= j < names.len() ==> parts_fit(listed_bytes(filters, #[trigger] names[j])),
    ensures
        partitions_of(filters, names, i).no_duplicates(),
        forall|c: int|
            0 <= c < partitions_of(filters, names, i).len() ==> {
                let p = #[trigger] partitions_of(filters, names, i)[c];
                p.len() == i && parts_fit(p)
            },
    decreases i,
{
    if i > 0 {
        let before = partitions_of(filters, names, (i - 1) as nat);
        let values = listed_bytes(filters, names[i - 1]);
        lemma_partitions(filters, names, (i - 1) as nat);
        lemma_listed_once(filters, names[i - 1]);
        lemma_extended_once(before, values);
        let all = partitions_of(filters, names, i);
        assert forall|c: int| 0 <= c < all.len() implies {
            let p = #[trigger] all[c];
            p.len() == i && parts_fit(p)
        } by {
            let p = all[c];
            lemma_extended_parts(before, values, c);
            let k = choose|k: int| 0 <= k < before.len() && before[k] == p.drop_last();
            let m = choose|m: int| 0 <= m < values.len() && values[m] == p.last();
            assert(parts_fit(before[k]));
            assert(values[m].len() <= u16::MAX);
            assert forall|j: int| 0 <= j < p.len() implies (#[trigger] p[j]).len() <= u16::MAX by {
                if j < p.len() - 1 {
                    assert(p.drop_last()[j] == p[j]);
                }
            }
        }
    }
}

/// A key under the key of a partition has the parts of the partition first.
proof fn lemma_partition_parts(
    keyspace: Seq<char>,
    table: Seq<char>,
    parts: Seq<Seq<u8>>,
    partition: Seq<Seq<u8>>,
)
    requires
        parts_fit(parts),
        parts_fit(partition),
        has_prefix(row_key(keyspace, table, parts), row_key(keyspace, table, partition)),
    ensures
        partition.len() <= parts.len(),
        parts.take(partition.len() as int) == partition,
{
    let prefix = data_prefix(keyspace, table);
    let whole = row_key(keyspace, table, parts);
    let part = row_key(keyspace, table, partition);
    let kw = key_bytes(parts);
    let kp = key_bytes(partition);
    assert(kw.subrange(0, kp.len() as int) =~= kp) by {
        assert forall|i: int| 0 <= i < kp.len() implies kw[i] == kp[i] by {
            assert(whole.subrange(0, part.len() as int)[prefix.len() + i] == part[prefix.len() + i]);
        }
    }
    law_key_prefix_is_part_prefix(partition, parts);
}

/// No entry is found by two scans of a selection.
proof fn lemma_found_once(
    e: Engines,
    keyspace: Seq<char>,
    table: TableView,
    filters: Seq<FilterView>,
    k: int,
    l: int,
    entry: (Seq<u8>, Seq<u8>),
)
    requires
        e.len() >= 1,
        lists_exactly(filters, table),
        rows_in_place(e, keyspace, table),
        0 <= k < l < select_scans(e.len(), keyspace, table, filters).len(),
        found_at(e, select_scans(e.len(), keyspace, table, filters)[k], entry),
    ensures
        !found_at(e, select_scans(e.len(), keyspace, table, filters)[l], entry),
{
    let n = e.len();
    let scans = select_scans(n, keyspace, table, filters);
    let key = entry.0;
    if found_at(e, scans[l], entry) {
        lemma_scan_in_table(n, keyspace, table, filters, k, key);
        lemma_scan_in_table(n, keyspace, table, filters, l, key);
        let g = scans[k].0;
        let h = scans[l].0;
        assert(e[g].contains_key(key) && e[h].contains_key(key));
        let (parts, values) = choose|parts: Seq<Seq<u8>>, values: Seq<ValueView>|
            in_place(n, g, key, keyspace, table, parts, values);
        if partition_restricted(filters, table) {
            let names = table.partition_keys;
            let combos = partitions_of(filters, names, names.len());
            lemma_partitions(filters, names, names.len());
            assert(scans[k] == partition_scan(n, keyspace, table.name, combos[k]));
            assert(scans[l] == partition_scan(n, keyspace, table.name, combos[l]));
            lemma_partition_parts(keyspace, table.name, parts, combos[k]);
            lemma_partition_parts(keyspace, table.name, parts, combos[l]);
            assert(combos[k] != combos[l]);
        } else {
            let (others, rest) = choose|others: Seq<Seq<u8>>, rest: Seq<ValueView>|
                in_place(n, h, key, keyspace, table, others, rest);
            if parts != others {
                law_rows_do_not_collide(keyspace, table.name, parts, others);
            }
            assert(g == k && h == l);
        }
    }
}

/// A row that stands in its place is read with the values of its key.
proof fn lemma_placed_row(
    n: nat,
    engine: int,
    entry: (Seq<u8>, Seq<u8>),
    keyspace: Seq<char>,
    table: TableView,
    parts: Seq<Seq<u8>>,
    values: Seq<ValueView>,
)
    requires
        readable(table),
        in_place(n, engine, entry.0, keyspace, table, parts, values),
        decoded_row(entry.1, table.columns) is Ok,
    ensures
        row_values(entry.0, entry.1, keyspace, table) is Ok,
        forall|c: int|
            0 <= c < table.columns.len() && table.columns[c].is_key() ==> row_values(
                entry.0,
                entry.1,
                keyspace,
                table,
            )->Ok_0[c] == #[trigger] values[c],
{
    law_key_round_trip(data_prefix(keyspace, table.name), parts);
    law_stored_row_is_typed(entry.1, table.columns);
    let start = decoded_row(entry.1, table.columns)->Ok_0;
    lemma_fill_key(start, parts, values, table, 0);
}

proof fn lemma_listed(filters: Seq<FilterView>, f: int, name: Seq<char>, b: Seq<u8>)
    requires
        0 <= f < filters.len(),
        allowed_bytes(filters[f], name).contains(b),
    ensures
        listed_bytes(filters, name).contains(b),
    decreases filters.len(),
{
    let front = filters.drop_last();
    let before = listed_bytes(front, name);
    let added = allowed_bytes(filters.last(), name);
    let all = listed_bytes(filters, name);
    if f < filters.len() - 1 {
        assert(front[f] == filters[f]);
        lemma_listed(front, f, name, b);
        let i = choose|i: int| 0 <= i < before.len() && before[i] == b;
        assert(all[i] == b);
    } else {
        let i = choose|i: int| 0 <= i < added.len() && added[i] == b;
        assert(all[before.len() + i] == b);
    }
}

/// A row that meets the restrictions is in a partition that they list.
proof fn lemma_match_is_listed(
    filters: Seq<FilterView>,
    table: TableView,
    parts: Seq<Seq<u8>>,
    values: Seq<ValueView>,
    row: Seq<ValueView>,
    j: int,
)
    requires
        keyed(table),
        exact_partitions(table),
        partition_restricted(filters, table),
        key_holds(parts, values, table),
        forall|c: int|
            0 <= c < table.columns.len() && table.columns[c].is_key() ==> row[c]
                == #[trigger] values[c],
        meets_all(filters, row, table),
        0 <= j < table.partition_keys.len(),
    ensures
        listed_bytes(filters, table.partition_keys[j]).contains(parts[j]),
{
    let name = table.partition_keys[j];
    assert(table.key_names()[j] == name);
    assert(keyed_at(table, j));
    lemma_index_in(column_names(table.columns), name);
    let c = table.index_of(name)->Some_0;
    assert(table.columns[c].name == name);
    let v = values[c];
    let t = table.columns[c].col_type;
    assert(key_place(table, c) == Some(j));
    assert(typed(v, t) && parts[j] == raw(v));
    assert(is_restricted(filters, name));
    let f = choose|f: int| 0 <= f < filters.len() && restricts(#[trigger] filters[f], name);
    assert(meets(filters[f], row, table));
    let allowed = allowed_bytes(filters[f], name);
    match filters[f] {
        FilterView::Eq(_, w) => {
            lemma_equal_exact(w, v, t);
            assert(allowed[0] == parts[j]);
        },
        FilterView::In(_, ws) => {
            let i = choose|i: int| 0 <= i < ws.len() && equal(#[trigger] ws[i], row[c]);
            lemma_equal_exact(ws[i], v, t);
            assert(allowed[i] == parts[j]);
        },
    }
    lemma_listed(filters, f, name, parts[j]);
}

/// What the scans of a selection found: each entry once, every one a row of the
/// table, and among them every row that meets the restrictions.
proof fn lemma_fetched(
    e: Engines,
    keyspace: Seq<char>,
    table: TableView,
    plan: SelectView,
    found: Seq<Seq<(Seq<u8>, Seq<u8>)>>,
    stored: Seq<(Seq<u8>, Seq<u8>)>,
)
    requires
        e.len() >= 1,
        keyed(table),
        lists_exactly(plan.filters, table),
        rows_in_place(e, keyspace, table),
        found_by(e, select_scans(e.len(), keyspace, table, plan.filters), found),
        lists_table(e, keyspace, table.name, stored),
        rows_decode(stored, table),
    ensures
        found.flatten().no_duplicates(),
        forall|x: (Seq<u8>, Seq<u8>)| #[trigger]
            found.flatten().contains(x) ==> stored.contains(x) && row_values(
                x.0,
                x.1,
                keyspace,
                table,
            ) is Ok,
        forall|x: (Seq<u8>, Seq<u8>)| #[trigger]
            matching(plan, keyspace, table)(x) && stored.contains(x) ==> found.flatten().contains(
                x,
            ),
{
    let n = e.len();
    let filters = plan.filters;
    let scans = select_scans(n, keyspace, table, filters);
    let p = matching(plan, keyspace, table);
    assert forall|k: int, l: int, x: (Seq<u8>, Seq<u8>)| 0 <= k < l < found.len() implies !(
    #[trigger] found[k].contains(x) && #[trigger] found[l].contains(x)) by {
        if found[k].contains(x) && found[l].contains(x) {
            lemma_found_once(e, keyspace, table, filters, k, l, x);
        }
    }
    lemma_flattened(found);
    let fetched = found.flatten();
    assert forall|x: (Seq<u8>, Seq<u8>)| #[trigger] fetched.contains(x) implies stored.contains(x)
        && row_values(x.0, x.1, keyspace, table) is Ok by {
        let k = choose|k: int| 0 <= k < found.len() && #[trigger] found[k].contains(x);
        assert(found_at(e, scans[k], x));
        lemma_scan_in_table(n, keyspace, table, filters, k, x.0);
        assert(held(e, (scans[k].0, x.0)) == Some(x.1));
        assert(is_stored(e, keyspace, table.name, x));
        let g = scans[k].0;
        assert(e[g].contains_key(x.0));
        let (parts, values) = choose|parts: Seq<Seq<u8>>, values: Seq<ValueView>|
            in_place(n, g, x.0, keyspace, table, parts, values);
        assert(stored.contains(x));
        lemma_placed_row(n, g, x, keyspace, table, parts, values);
    }
    assert forall|x: (Seq<u8>, Seq<u8>)| #[trigger] p(x) && stored.contains(x) implies
        fetched.contains(x) by {
        let g = choose|g: int| 0 <= g < n && #[trigger] held(e, (g, x.0)) == Some(x.1);
        assert(e[g].contains_key(x.0));
        let (parts, values) = choose|parts: Seq<Seq<u8>>, values: Seq<ValueView>|
            in_place(n, g, x.0, keyspace, table, parts, values);
        lemma_placed_row(n, g, x, keyspace, table, parts, values);
        let row = row_values(x.0, x.1, keyspace, table)->Ok_0;
        if partition_restricted(filters, table) {
            assert forall|j: int| 0 <= j < table.partition_keys.len() implies listed_bytes(
                filters,
                table.partition_keys[j],
            ).contains(#[trigger] parts[j]) by {
                lemma_match_is_listed(filters, table, parts, values, row, j);
            }
        }
        law_select_reaches_row(n, keyspace, table, filters, parts);
        let k = choose|k: int|
            0 <= k < scans.len() && scan_reaches(
                #[trigger] scans[k],
                n,
                keyspace,
                table.name,
                parts,
            );
        assert(found_at(e, scans[k], x));
        assert(found[k].contains(x));
    }
}

/// Whether the bytes of every one of the rows can be decoded.
pub open spec fn rows_decode(rows: Seq<(Seq<u8>, Seq<u8>)>, table: TableView) -> bool {
    forall|entry: (Seq<u8>, Seq<u8>)| #[trigger]
        rows.contains(entry) ==> decoded_row(entry.1, table.columns) is Ok
}

proof fn lemma_front_is_part<A>(s: Seq<A>, n: int)
    requires
        0 <= n <= s.len(),
    ensures
        s.take(n).to_multiset().subset_of(s.to_multiset()),
{
    broadcast use group_to_multiset_ensures;

    assert(s =~= s.take(n) + s.skip(n));
    vstd::seq_lib::lemma_multiset_commutative(s.take(n), s.skip(n));
}

/// Entries in the order of a result are the entries.
proof fn lemma_ordered(
    filters: Seq<FilterView>,
    table: TableView,
    fetched: Seq<(Seq<u8>, Seq<u8>)>,
)
    requires
        fetched.no_duplicates(),
    ensures
        in_result_order(filters, table, fetched).no_duplicates(),
        forall|x: (Seq<u8>, Seq<u8>)|
            in_result_order(filters, table, fetched).contains(x) <==> fetched.contains(x),
{
    law_key_order_keeps_entries(fetched);
    fetched.lemma_multiset_has_no_duplicates();
    in_key_order(fetched).lemma_multiset_has_no_duplicates_conv();
    assert forall|x: (Seq<u8>, Seq<u8>)| in_result_order(filters, table, fetched).contains(x)
        <==> fetched.contains(x) by {
        lemma_key_order_contains(fetched, x);
    }
}

/// A selection gives, whether or not it restricts the whole partition key,
/// exactly the selected columns of those stored rows of the table that meet
/// every restriction, each as often as there are such rows; with a limit, as
/// many of them as the limit allows. It writes nothing.
///
/// Where the whole partition key is restricted, the law is on keys without
/// floats, which compare equal where their bytes differ, and on restrictions
/// without repetition, which would read a partition twice.
pub proof fn law_select_gives_matching_rows(
    e: Engines,
    keyspace: Seq<char>,
    table: TableView,
    plan: SelectView,
    found: Seq<Seq<(Seq<u8>, Seq<u8>)>>,
    stored: Seq<(Seq<u8>, Seq<u8>)>,
)
    requires
        e.len() >= 1,
        keyed(table),
        selects_columns(plan, table),
        lists_exactly(plan.filters, table),
        plan.limit matches Some(l) ==> l >= 1,
        rows_in_place(e, keyspace, table),
        lists_table(e, keyspace, table.name, stored),
        rows_decode(stored, table),
        found_by(e, select_scans(e.len(), keyspace, table, plan.filters), found),
    ensures
        ({
            let step = rows_step(SelectingView { keyspace, table, plan }, Ok(found.flatten()));
            let all = selected_rows(plan, stored, keyspace, table);
            &&& step.commands.len() == 0
            &&& step.next matches NextView::Done(Ok(ResponseView::Rows { cols, rows, .. }))
            &&& cols == plan.selected
            &&& match plan.limit {
                None => rows.to_multiset() == all.to_multiset(),
                Some(l) => {
                    &&& rows.len() == if all.len() <= l {
                        all.len() as int
                    } else {
                        l as int
                    }
                    &&& rows.to_multiset().subset_of(all.to_multiset())
                },
            }
        }),
{
    broadcast use group_to_multiset_ensures;

    let fetched = found.flatten();
    let ordered = in_result_order(plan.filters, table, fetched);
    let p = matching(plan, keyspace, table);
    let f = projection(plan, keyspace, table);
    lemma_fetched(e, keyspace, table, plan, found, stored);
    lemma_ordered(plan.filters, table, fetched);
    assert(all_read(ordered, keyspace, table)) by {
        assert forall|i: int| 0 <= i < ordered.len() implies row_values(
            (#[trigger] ordered[i]).0,
            ordered[i].1,
            keyspace,
            table,
        ) is Ok by {
            assert(ordered.contains(ordered[i]));
            assert(fetched.contains(ordered[i]));
        }
    }
    lemma_result(plan, ordered, 0, 0, keyspace, table);
    assert(ordered.skip(0) =~= ordered);
    assert forall|x: (Seq<u8>, Seq<u8>)| #[trigger] p(x) implies (ordered.contains(x)
        <==> stored.contains(x)) by {
        assert(ordered.contains(x) <==> fetched.contains(x));
    }
    lemma_same_selected(ordered, stored, p, f);
    let given = selected_rows(plan, ordered, keyspace, table);
    let all = selected_rows(plan, stored, keyspace, table);
    assert(given.to_multiset() == all.to_multiset());
    assert(given.len() == given.to_multiset().len());
    assert(all.len() == all.to_multiset().len());
    if let Some(l) = plan.limit {
        if given.len() > l {
            lemma_front_is_part(given, l as int);
        }
    }
}

/// Whether no selected column is given another name.
pub open spec fn unaliased(elems: Seq<SelectElement>) -> bool {
    forall|i: int|
        0 <= i < elems.len() ==> (#[trigger] elems[i] matches SelectElement::Column(named)
            ==> named.alias is None)
}

proof fn lemma_named_columns(elems: Seq<SelectElement>, i: int, table: TableView)
    requires
        0 <= i,
        unaliased(elems),
        named_columns(elems, i, table) is Ok,
    ensures
        forall|k: int|
            0 <= k < named_columns(elems, i, table)->Ok_0.len() ==> table.index_of(
                (#[trigger] named_columns(elems, i, table)->Ok_0[k]).0,
            ) is Some,
    decreases elems.len() - i,
{
    if i < elems.len() {
        lemma_named_columns(elems, i + 1, table);
        let rest = named_columns(elems, i + 1, table)->Ok_0;
        let all = named_columns(elems, i, table)->Ok_0;
        assert forall|k: int| 0 <= k < all.len() implies table.index_of(
            (#[trigger] all[k]).0,
        ) is Some by {
            if elems[i] is Column {
                if k > 0 {
                    assert(all[k] == rest[k - 1]);
                }
            } else {
                assert(all[k] == rest[k]);
            }
        }
    }
}

/// What a `SELECT` without aliases selects are columns of its table.
pub proof fn law_plan_selects_columns(env: Env, sel: Select, table: TableView)
    requires
        unaliased(sel.columns@),
        select_plan(env, sel, table) is Ok,
    ensures
        selects_columns(select_plan(env, sel, table)->Ok_0, table),
{
    let plan = select_plan(env, sel, table)->Ok_0;
    lemma_named_columns(sel.columns@, 0, table);
    assert forall|i: int| 0 <= i < plan.selected.len() implies table.index_of(
        (#[trigger] plan.selected[i]).0,
    ) is Some by {
        if selects_all(sel.columns@) {
            let names = column_names(table.columns);
            lemma_index_in(names, names[i]);
            assert(plan.selected[i].0 == names[i]);
        }
    }
}

/// A `SELECT` gives exactly the selected columns of those stored rows of its
/// table that meet every restriction, each as often as there are such rows; with
/// a limit, as many of them as the limit allows. It writes nothing.
pub proof fn law_select_statement(
    e: Engines,
    env: Env,
    sel: Select,
    keyspace: Seq<char>,
    table: TableView,
    found: Seq<Seq<(Seq<u8>, Seq<u8>)>>,
    stored: Seq<(Seq<u8>, Seq<u8>)>,
)
    requires
        e.len() >= 1,
        keyed(table),
        unaliased(sel.columns@),
        select_plan(env, sel, table) is Ok,
        lists_exactly(select_plan(env, sel, table)->Ok_0.filters, table),
        sel.limit matches Some(l) ==> l >= 1,
        rows_in_place(e, keyspace, table),
        lists_table(e, keyspace, table.name, stored),
        rows_decode(stored, table),
        found_by(
            e,
            select_step(e.len(), env, sel, keyspace, table).next->Rows_0,
            found,
        ),
    ensures
        ({
            let first = select_step(e.len(), env, sel, keyspace, table);
            let step = rows_step(first.next->Rows_1, Ok(found.flatten()));
            let plan = select_plan(env, sel, table)->Ok_0;
            let all = selected_rows(plan, stored, keyspace, table);
            &&& first.commands.len() == 0
            &&& first.next is Rows
            &&& step.commands.len() == 0
            &&& step.next matches NextView::Done(Ok(ResponseView::Rows { cols, rows, .. }))
            &&& cols == plan.selected
            &&& match sel.limit {
                None => rows.to_multiset() == all.to_multiset(),
                Some(l) => {
                    &&& rows.len() == if all.len() <= l {
                        all.len() as int
                    } else {
                        l as int
                    }
                    &&& rows.to_multiset().subset_of(all.to_multiset())
                },
            }
        }),
{
    law_plan_selects_columns(env, sel, table);
    let plan = select_plan(env, sel, table)->Ok_0;
    law_select_gives_matching_rows(e, keyspace, table, plan, found, stored);
}

/// Storing a row where its key says keeps every row of the table in its place.
proof fn lemma_put_keeps_places(
    e: Engines,
    keyspace: Seq<char>,
    table: TableView,
    parts: Seq<Seq<u8>>,
    values: Seq<ValueView>,
    row: Seq<u8>,
)
    requires
        e.len() >= 1,
        rows_in_place(e, keyspace, table),
        parts.len() == table.key_names().len(),
        parts_fit(parts),
        values.len() == table.columns.len(),
        key_holds(parts, values, table),
    ensures
        rows_in_place(
            engines_after(e, put_row_command(e.len(), keyspace, table.name, parts, row)),
            keyspace,
            table,
        ),
{
    let n = e.len();
    let c = put_row_command(n, keyspace, table.name, parts, row);
    let after = engines_after(e, c);
    let place = row_place(n, keyspace, table.name, parts);
    assert forall|engine: int, key: Seq<u8>|
        0 <= engine < after.len() && #[trigger] after[engine].contains_key(key) && has_prefix(
            key,
            data_prefix(keyspace, table.name),
        ) implies has_place(after.len(), engine, key, keyspace, table) by {
        if engine == place.0 && key == place.1 {
            assert(in_place(n, engine, key, keyspace, table, parts, values));
        } else {
            assert(e[engine].contains_key(key));
        }
    }
}

/// An `INSERT` keeps every row of the table where its key says.
pub proof fn law_insert_keeps_rows_in_place(
    e: Engines,
    env: Env,
    ins: Insert,
    keyspace: Seq<char>,
    table: TableView,
)
    requires
        e.len() >= 1,
        readable(table),
        rows_in_place(e, keyspace, table),
        insert_command(e.len(), env, ins, keyspace, table) is Ok,
        assigned_fit(insert_assignments(env, ins, table)),
        parts_fit(inserted_row(env, ins, keyspace, table)->Ok_0.0),
    ensures
        rows_in_place(
            engines_after(e, insert_command(e.len(), env, ins, keyspace, table)->Ok_0),
            keyspace,
            table,
        ),
{
    let (parts, row) = inserted_row(env, ins, keyspace, table)->Ok_0;
    let values = inserted_values(insert_assignments(env, ins, table), table);
    lemma_inserted_key_holds(env, ins, keyspace, table);
    lemma_put_keeps_places(e, keyspace, table, parts, values, row);
}

/// An `UPDATE` keeps every row of the table where its key says.
pub proof fn law_update_keeps_rows_in_place(
    e: Engines,
    env: Env,
    upd: Update,
    keyspace: Seq<char>,
    table: TableView,
    existing: Option<Seq<u8>>,
)
    requires
        e.len() >= 1,
        readable(table),
        rows_in_place(e, keyspace, table),
        update_plan(env, upd, keyspace, table) is Ok,
        parts_fit(update_plan(env, upd, keyspace, table)->Ok_0.key_parts),
        update_command(
            e.len(),
            keyspace,
            table,
            update_plan(env, upd, keyspace, table)->Ok_0,
            existing,
        ) is Ok,
    ensures
        rows_in_place(
            engines_after(
                e,
                update_command(
                    e.len(),
                    keyspace,
                    table,
                    update_plan(env, upd, keyspace, table)->Ok_0,
                    existing,
                )->Ok_0,
            ),
            keyspace,
            table,
        ),
{
    let plan = update_plan(env, upd, keyspace, table)->Ok_0;
    let filters = update_filters(env, upd, table);
    let values = Seq::new(
        table.columns.len(),
        |c: int| fixed_value(filters, table.columns[c].name)->Some_0,
    );
    lemma_updated_key_holds(env, upd, keyspace, table, values);
    let row = updated_row(table, existing, plan.new_values)->Ok_0;
    lemma_put_keeps_places(e, keyspace, table, plan.key_parts, values, row);
}

/// A `DELETE` keeps every row of the table where its key says.
pub proof fn law_delete_keeps_rows_in_place(
    e: Engines,
    env: Env,
    del: Delete,
    keyspace: Seq<char>,
    table: TableView,
)
    requires
        e.len() >= 1,
        rows_in_place(e, keyspace, table),
        delete_command(e.len(), env, del, keyspace, table) is Ok,
    ensures
        rows_in_place(
            engines_after(e, delete_command(e.len(), env, del, keyspace, table)->Ok_0),
            keyspace,
            table,
        ),
{
    let after = engines_after(e, delete_command(e.len(), env, del, keyspace, table)->Ok_0);
    assert forall|engine: int, key: Seq<u8>|
        0 <= engine < after.len() && #[trigger] after[engine].contains_key(key) && has_prefix(
            key,
            data_prefix(keyspace, table.name),
        ) implies has_place(after.len(), engine, key, keyspace, table) by {
        assert(e[engine].contains_key(key));
    }
}

/// Where nothing is stored under a table's prefix, as when it was just created
/// or truncated, every row of it is where its key says.
pub proof fn law_empty_table_is_in_place(e: Engines, keyspace: Seq<char>, table: TableView)
    requires
        forall|engine: int, key: Seq<u8>|
            0 <= engine < e.len() && #[trigger] e[engine].contains_key(key) ==> !has_prefix(
                key,
                data_prefix(keyspace, table.name),
            ),
    ensures
        rows_in_place(e, keyspace, table),
{
}

/// Whether a column of that name is marked for the partition key.
spec fn is_marked(columns: Seq<ColumnView>, name: Seq<char>) -> bool {
    exists|i: int|
        0 <= i < columns.len() && (#[trigger] columns[i]).name == name
            && columns[i].is_partition_key
}

/// The names marked for the partition key are those of columns, without
/// repetition where the columns have different names.
proof fn lemma_marked_names(columns: Seq<ColumnView>)
    requires
        forall|i: int, j: int|
            0 <= i < j < columns.len() ==> (#[trigger] columns[i]).name != (
            #[trigger] columns[j]).name,
    ensures
        marked_partition(columns).no_duplicates(),
        forall|k: int|
            0 <= k < marked_partition(columns).len() ==> is_marked(
                columns,
                #[trigger] marked_partition(columns)[k],
            ),
    decreases columns.len(),
{
    if columns.len() > 0 {
        let front = columns.drop_last();
        let last = columns.last();
        assert forall|i: int, j: int| 0 <= i < j < front.len() implies (#[trigger] front[i]).name
            != (#[trigger] front[j]).name by {
            assert(columns[i] == front[i] && columns[j] == front[j]);
        }
        lemma_marked_names(front);
        let before = marked_partition(front);
        let names = marked_partition(columns);
        assert forall|k: int| 0 <= k < names.len() implies is_marked(
            columns,
            #[trigger] names[k],
        ) by {
            if k < before.len() {
                assert(before[k] == names[k]);
                let i = choose|i: int|
                    0 <= i < front.len() && (#[trigger] front[i]).name == before[k]
                        && front[i].is_partition_key;
                assert(columns[i] == front[i]);
            } else {
                assert(columns[columns.len() - 1].name == names[k]);
            }
        }
        assert forall|k: int, m: int| 0 <= k < m < names.len() implies names[k] != names[m] by {
            assert(names[k] == before[k]);
            if m < before.len() {
                assert(names[m] == before[m]);
            } else {
                assert(is_marked(front, before[k]));
                let i = choose|i: int|
                    0 <= i < front.len() && (#[trigger] front[i]).name == before[k]
                        && front[i].is_partition_key;
                assert(columns[i] == front[i]);
                assert(columns[columns.len() - 1].name == names[m]);
            }
        }
    }
}

/// Whether a `CREATE TABLE` gives its key in one place: behind a column or more,
/// or in a `PRIMARY KEY` of its own, which names columns and none twice.
pub open spec fn key_well_given(create: CreateTable) -> bool {
    let listed = listed_partition(create) + listed_clustering(create);
    let marked = exists|i: int|
        0 <= i < create.columns@.len() && (#[trigger] create.columns@[i]).primary_key;
    if listed.len() == 0 {
        marked
    } else {
        &&& !marked
        &&& listed_partition(create).len() > 0
        &&& listed.no_duplicates()
        &&& forall|j: int|
            0 <= j < listed.len() ==> exists|i: int|
                0 <= i < create.columns@.len() && id_text((#[trigger] create.columns@[i]).name)
                    == #[trigger] listed[j]
    }
}

/// Every table that a `CREATE TABLE` makes has a column of its own for each part
/// of its key, where its columns have different names and its key is given in
/// one place.
pub proof fn law_created_table_is_keyed(keyspace: Seq<char>, name: Seq<char>, create: CreateTable)
    requires
        create.columns@.len() <= 0x1_0000,
        forall|i: int, j: int|
            0 <= i < j < create.columns@.len() ==> id_text((#[trigger] create.columns@[i]).name)
                != id_text((#[trigger] create.columns@[j]).name),
        key_well_given(create),
        table_of(keyspace, name, create) is Some,
    ensures
        keyed(table_of(keyspace, name, create)->Some_0),
{
    law_created_table_is_readable(keyspace, name, create);
    let table = table_of(keyspace, name, create)->Some_0;
    let columns = table.columns;
    let keys = table.key_names();
    let listed = listed_partition(create) + listed_clustering(create);
    assert forall|i: int, j: int| 0 <= i < j < columns.len() implies (#[trigger] columns[i]).name
        != (#[trigger] columns[j]).name by {
        assert(columns[i].name == id_text(create.columns@[i].name));
        assert(columns[j].name == id_text(create.columns@[j].name));
    }
    lemma_marked_names(columns);
    if listed.len() == 0 {
        assert(listed_partition(create) =~= Seq::empty());
        assert(listed_clustering(create) =~= Seq::empty());
        assert(keys =~= marked_partition(columns));
        let i = choose|i: int|
            0 <= i < create.columns@.len() && (#[trigger] create.columns@[i]).primary_key;
        assert(columns[i].is_partition_key);
        lemma_marked_partition(columns, i);
        assert(table.partition_keys.len() > 0);
    } else {
        assert(keys =~= listed);
    }
    assert forall|j: int| 0 <= j < keys.len() implies #[trigger] keyed_at(table, j) by {
        let i = if listed.len() == 0 {
            choose|i: int|
                0 <= i < columns.len() && (#[trigger] columns[i]).name == marked_partition(
                    columns,
                )[j] && columns[i].is_partition_key
        } else {
            choose|i: int|
                0 <= i < create.columns@.len() && id_text((#[trigger] create.columns@[i]).name)
                    == listed[j]
        };
        if listed.len() > 0 {
            assert(listed[j] == keys[j]);
            assert(columns[i].name == id_text(create.columns@[i].name));
            let n = listed_partition(create).len() as int;
            if j < n {
                assert(listed_partition(create)[j] == keys[j]);
            } else {
                assert(listed_clustering(create)[j - n] == keys[j]);
            }
        }
        if listed.len() == 0 {
            assert(is_marked(columns, marked_partition(columns)[j]));
        }
        assert(columns[i].name == keys[j] && columns[i].is_key());
        lemma_index_is(keys, keys[j], j);
    }
}

} // verus!
