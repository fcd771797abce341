//! Operands, restrictions and selections of statements.

use crate::cql_value::{
    be_raw, decode, decode_error_text, lemma_pair_views_push, lemma_value_views,
    lemma_value_views_push, literal_value, pair_views, raw, value_views, LiteralReading, Value,
    ValueView,
};
use crate::error::{
    invalid, invalid_err, undefined_column, undefined_column_err, ErrorView, QueryError,
};
use crate::keys::part_views;
use crate::schema::{id_text, norm_id, ColumnDef, ColumnType, ColumnView, TableDef, TableView};
use crate::text::{join2, same_text, texts};
use cql3_parser::common::{Identifier, Operand, RelationElement, RelationOperator};
use cql3_parser::select::{Named, SelectElement};
use scylla_cql::frame::types::RawValue;
use vstd::prelude::*;

verus! {

/// A bound value, as `scylla_cql` reads it from a request.
#[verifier::external_type_specification]
pub struct ExRawValue<'a>(scylla_cql::frame::types::RawValue<'a>);

/// The bytes of a bound value, unless it is null or unset.
pub open spec fn bound_bytes(v: RawValue) -> Option<Seq<u8>> {
    match v {
        RawValue::Value(b) => Some(b@),
        RawValue::Null => None,
        RawValue::Unset => None,
    }
}

/// What a statement is evaluated against: the bound values and the readings of
/// its literals.
pub struct Env {
    pub values: Seq<Option<Seq<u8>>>,
    pub readings: Seq<LiteralReading>,
}

/// The bound values of a request, taken one after the other.
pub struct Binds<'a> {
    values: &'a [RawValue<'a>],
    readings: &'a [LiteralReading],
    next: usize,
}

impl<'a> Binds<'a> {
    /// The values and readings.
    pub closed spec fn env(&self) -> Env {
        Env {
            values: self.values@.map_values(|v: RawValue| bound_bytes(v)),
            readings: self.readings@,
        }
    }

    /// How many values have been taken.
    pub closed spec fn taken(&self) -> nat {
        self.next as nat
    }

    pub closed spec fn wf(&self) -> bool {
        self.next <= self.values@.len()
    }

    pub fn new(values: &'a [RawValue<'a>], readings: &'a [LiteralReading]) -> (b: Binds<'a>)
        ensures
            b.wf(),
            b.taken() == 0,
            b.env() == env_of(values@, readings@),
    {
        Binds { values, readings, next: 0 }
    }

    /// The next bound value, as a value of the column's type.
    pub fn take(&mut self, col_type: &ColumnType) -> (r: Result<Value, QueryError>)
        requires
            old(self).wf(),
        ensures
            final(self).wf(),
            final(self).env() == old(self).env(),
            match bind_value(old(self).env(), old(self).taken(), *col_type) {
                Ok((v, next)) => r matches Ok(x) && x@ == v && final(self).taken() == next,
                Err(e) => r matches Err(x) && x@ == e,
            },
    {
        if self.next >= self.values.len() {
            return Err(invalid_err("Invalid amount of bind variables"));
        }
        let raw_value: &RawValue<'a> = &self.values[self.next];
        assert(self.env().values[self.next as int] == bound_bytes(*raw_value));
        self.next = self.next + 1;
        match raw_value {
            RawValue::Value(bytes) => match Value::try_from_raw_bytes(bytes, col_type) {
                Ok(v) => Ok(v),
                Err(e) => Err(invalid_err(&join2("Invalid bind value: ", &e.message()))),
            },
            RawValue::Null => Ok(Value::Null),
            RawValue::Unset => Ok(Value::Null),
        }
    }
}

/// The environment that bound values and readings make.
pub open spec fn env_of(values: Seq<RawValue>, readings: Seq<LiteralReading>) -> Env {
    Env { values: values.map_values(|v: RawValue| bound_bytes(v)), readings }
}

/// A value and how many bound values have been taken after it.
pub type Taken = Result<(ValueView, nat), ErrorView>;

/// The bound value after the first `next`.
pub open spec fn bind_value(env: Env, next: nat, t: ColumnType) -> Taken {
    if next >= env.values.len() {
        Err(invalid("Invalid amount of bind variables"@))
    } else {
        match env.values[next as int] {
            None => Ok((ValueView::Null, next + 1)),
            Some(bytes) => match decode(be_raw(bytes), t) {
                Ok(v) => Ok((v, next + 1)),
                Err(e) => Err(invalid("Invalid bind value: "@ + decode_error_text(e))),
            },
        }
    }
}

/// The value of a literal, or the complaint about it.
pub open spec fn constant(env: Env, text: Seq<char>, t: ColumnType) -> Result<ValueView, ErrorView> {
    match literal_value(text, t, env.readings) {
        Ok(v) => Ok(v),
        Err(e) => Err(invalid(e)),
    }
}

/// The values of the literals from the `i`-th on.
pub open spec fn constants(env: Env, items: Seq<String>, i: int, t: ColumnType) -> Result<
    Seq<ValueView>,
    ErrorView,
>
    decreases items.len() - i,
{
    if i >= items.len() {
        Ok(Seq::empty())
    } else {
        match constant(env, items[i]@, t) {
            Err(e) => Err(e),
            Ok(v) => match constants(env, items, i + 1, t) {
                Err(e) => Err(e),
                Ok(vs) => Ok(seq![v] + vs),
            },
        }
    }
}

/// The entries of a map literal from the `i`-th on.
pub open spec fn constant_pairs(
    env: Env,
    items: Seq<(String, String)>,
    i: int,
    k: ColumnType,
    t: ColumnType,
) -> Result<Seq<(ValueView, ValueView)>, ErrorView>
    decreases items.len() - i,
{
    if i >= items.len() {
        Ok(Seq::empty())
    } else {
        match (constant(env, items[i].0@, k), constant(env, items[i].1@, t)) {
            (Err(e), _) => Err(e),
            (Ok(_), Err(e)) => Err(e),
            (Ok(a), Ok(b)) => match constant_pairs(env, items, i + 1, k, t) {
                Err(e) => Err(e),
                Ok(es) => Ok(seq![(a, b)] + es),
            },
        }
    }
}

pub open spec fn collection_mismatch() -> ErrorView {
    invalid("Collection type mismatch in values"@)
}

/// The value of an operand for a column type.
pub open spec fn operand_value(env: Env, next: nat, operand: Operand, t: ColumnType) -> Taken {
    match operand {
        Operand::Null => Ok((ValueView::Null, next)),
        Operand::Const(text) => match constant(env, text@, t) {
            Ok(v) => Ok((v, next)),
            Err(e) => Err(e),
        },
        Operand::Param(_) => bind_value(env, next, t),
        Operand::Set(items) => match t {
            ColumnType::SetOf(e) => match constants(env, items@, 0, *e) {
                Ok(vs) => Ok((ValueView::SetOf(vs), next)),
                Err(e) => Err(e),
            },
            _ => Err(collection_mismatch()),
        },
        Operand::List(items) => match t {
            ColumnType::List(e) => match constants(env, items@, 0, *e) {
                Ok(vs) => Ok((ValueView::List(vs), next)),
                Err(e) => Err(e),
            },
            _ => Err(collection_mismatch()),
        },
        Operand::Map(items) => match t {
            ColumnType::MapOf(k, e) => match constant_pairs(env, items@, 0, *k, *e) {
                Ok(es) => Ok((ValueView::MapOf(es), next)),
                Err(e) => Err(e),
            },
            _ => Err(collection_mismatch()),
        },
        _ => Err(invalid("Only literal values are supported (no bind markers)"@)),
    }
}

fn constant_of(text: &str, col_type: &ColumnType, binds: &Binds) -> (r: Result<Value, QueryError>)
    ensures
        match r {
            Ok(v) => constant(binds.env(), text@, *col_type) == Ok::<ValueView, ErrorView>(v@),
            Err(e) => constant(binds.env(), text@, *col_type) == Err::<ValueView, ErrorView>(e@),
        },
{
    match Value::parse_literal(text, col_type, binds.readings) {
        Ok(v) => Ok(v),
        Err(e) => Err(invalid_err(&e)),
    }
}

fn constants_of(items: &Vec<String>, col_type: &ColumnType, binds: &Binds) -> (r: Result<
    Vec<Value>,
    QueryError,
>)
    ensures
        match r {
            Ok(vs) => constants(binds.env(), items@, 0, *col_type) == Ok::<
                Seq<ValueView>,
                ErrorView,
            >(value_views(vs@)),
            Err(e) => constants(binds.env(), items@, 0, *col_type) == Err::<
                Seq<ValueView>,
                ErrorView,
            >(e@),
        },
{
    let mut vs: Vec<Value> = Vec::new();
    let ghost all = constants(binds.env(), items@, 0, *col_type);
    let mut i: usize = 0;
    proof {
        assert(value_views(vs@) =~= Seq::<ValueView>::empty());
        if let Ok(rest) = all {
            assert(value_views(vs@) + rest =~= rest);
        }
    }
    while i < items.len()
        invariant
            i <= items@.len(),
            all == constants(binds.env(), items@, 0, *col_type),
            all == (match constants(binds.env(), items@, i as int, *col_type) {
                Ok(rest) => Ok(value_views(vs@) + rest),
                Err(e) => Err(e),
            }),
        decreases items@.len() - i,
    {
        let v: Value = match constant_of(&items[i], col_type, binds) {
            Ok(v) => v,
            Err(e) => return Err(e),
        };
        proof {
            lemma_value_views_push(vs@, v);
            if let Ok(rest) = constants(binds.env(), items@, i + 1, *col_type) {
                assert(value_views(vs@) + (seq![v@] + rest) =~= value_views(vs@).push(v@) + rest);
            }
        }
        vs.push(v);
        i += 1;
    }
    assert(value_views(vs@) + Seq::<ValueView>::empty() =~= value_views(vs@));
    Ok(vs)
}

fn constant_pairs_of(
    items: &Vec<(String, String)>,
    k: &ColumnType,
    t: &ColumnType,
    binds: &Binds,
) -> (r: Result<Vec<(Value, Value)>, QueryError>)
    ensures
        match r {
            Ok(es) => constant_pairs(binds.env(), items@, 0, *k, *t) == Ok::<
                Seq<(ValueView, ValueView)>,
                ErrorView,
            >(pair_views(es@)),
            Err(e) => constant_pairs(binds.env(), items@, 0, *k, *t) == Err::<
                Seq<(ValueView, ValueView)>,
                ErrorView,
            >(e@),
        },
{
    let mut es: Vec<(Value, Value)> = Vec::new();
    let ghost all = constant_pairs(binds.env(), items@, 0, *k, *t);
    let mut i: usize = 0;
    proof {
        assert(pair_views(es@) =~= Seq::<(ValueView, ValueView)>::empty());
        if let Ok(rest) = all {
            assert(pair_views(es@) + rest =~= rest);
        }
    }
    while i < items.len()
        invariant
            i <= items@.len(),
            all == constant_pairs(binds.env(), items@, 0, *k, *t),
            all == (match constant_pairs(binds.env(), items@, i as int, *k, *t) {
                Ok(rest) => Ok(pair_views(es@) + rest),
                Err(e) => Err(e),
            }),
        decreases items@.len() - i,
    {
        let a: Value = match constant_of(&items[i].0, k, binds) {
            Ok(v) => v,
            Err(e) => return Err(e),
        };
        let b: Value = match constant_of(&items[i].1, t, binds) {
            Ok(v) => v,
            Err(e) => return Err(e),
        };
        proof {
            lemma_pair_views_push(es@, (a, b));
            if let Ok(rest) = constant_pairs(binds.env(), items@, i + 1, *k, *t) {
                assert(pair_views(es@) + (seq![(a@, b@)] + rest) =~= pair_views(es@).push((a@, b@))
                    + rest);
            }
        }
        es.push((a, b));
        i += 1;
    }
    assert(pair_views(es@) + Seq::<(ValueView, ValueView)>::empty() =~= pair_views(es@));
    Ok(es)
}

/// The value of an operand for a column type.
pub fn operand_to_value(operand: &Operand, col_type: &ColumnType, binds: &mut Binds) -> (r: Result<
    Value,
    QueryError,
>)
    requires
        old(binds).wf(),
    ensures
        final(binds).wf(),
        final(binds).env() == old(binds).env(),
        match operand_value(old(binds).env(), old(binds).taken(), *operand, *col_type) {
            Ok((v, next)) => r matches Ok(x) && x@ == v && final(binds).taken() == next,
            Err(e) => r matches Err(x) && x@ == e,
        },
{
    match operand {
        Operand::Null => Ok(Value::Null),
        Operand::Const(text) => constant_of(text, col_type, binds),
        Operand::Param(_) => binds.take(col_type),
        Operand::Set(items) => match col_type {
            ColumnType::SetOf(e) => match constants_of(items, e, binds) {
                Ok(vs) => Ok(Value::SetOf(vs)),
                Err(e) => Err(e),
            },
            _ => Err(invalid_err("Collection type mismatch in values")),
        },
        Operand::List(items) => match col_type {
            ColumnType::List(e) => match constants_of(items, e, binds) {
                Ok(vs) => Ok(Value::List(vs)),
                Err(e) => Err(e),
            },
            _ => Err(invalid_err("Collection type mismatch in values")),
        },
        Operand::Map(items) => match col_type {
            ColumnType::MapOf(k, e) => match constant_pairs_of(items, k, e, binds) {
                Ok(es) => Ok(Value::MapOf(es)),
                Err(e) => Err(e),
            },
            _ => Err(invalid_err("Collection type mismatch in values")),
        },
        _ => Err(invalid_err("Only literal values are supported (no bind markers)")),
    }
}

/// A restriction on a column.
#[derive(Debug)]
pub enum Filter {
    /// The column has the value.
    Eq(String, Value),
    /// The column has one of the values.
    In(String, Vec<Value>),
}

/// What a restriction says.
pub enum FilterView {
    Eq(Seq<char>, ValueView),
    In(Seq<char>, Seq<ValueView>),
}

impl View for Filter {
    type V = FilterView;

    open spec fn view(&self) -> FilterView {
        match self {
            Filter::Eq(name, v) => FilterView::Eq(name@, v@),
            Filter::In(name, vs) => FilterView::In(name@, value_views(vs@)),
        }
    }
}

pub open spec fn filter_views(filters: Seq<Filter>) -> Seq<FilterView> {
    filters.map_values(|f: Filter| f@)
}

pub open spec fn not_a_column() -> ErrorView {
    invalid("Only column restrictions are supported in WHERE"@)
}

pub open spec fn not_a_literal() -> ErrorView {
    invalid("Only literal values are supported in WHERE"@)
}

/// The value of an operand of a restriction: a literal or a bound value.
pub open spec fn restricting_value(env: Env, next: nat, operand: Operand, t: ColumnType) -> Taken {
    match operand {
        Operand::Const(text) => match constant(env, text@, t) {
            Ok(v) => Ok((v, next)),
            Err(e) => Err(e),
        },
        Operand::Param(_) => bind_value(env, next, t),
        _ => Err(not_a_literal()),
    }
}

/// The values of the operands of a restriction from the `i`-th on.
pub open spec fn restricting_values(
    env: Env,
    next: nat,
    items: Seq<Operand>,
    i: int,
    t: ColumnType,
) -> Result<(Seq<ValueView>, nat), ErrorView>
    decreases items.len() - i,
{
    if i >= items.len() {
        Ok((Seq::empty(), next))
    } else {
        match restricting_value(env, next, items[i], t) {
            Err(e) => Err(e),
            Ok((v, after)) => match restricting_values(env, after, items, i + 1, t) {
                Err(e) => Err(e),
                Ok((vs, end)) => Ok((seq![v] + vs, end)),
            },
        }
    }
}

/// The restriction that a relation states.
pub open spec fn filter_of(env: Env, next: nat, rel: RelationElement, table: TableView) -> Result<
    (FilterView, nat),
    ErrorView,
> {
    match rel.obj {
        Operand::Column(col) => {
            let name = id_text(col);
            match table.index_of(name) {
                None => Err(undefined_column(name)),
                Some(c) => {
                    let t = table.columns[c].col_type;
                    match rel.oper {
                        RelationOperator::Equal => match rel.value {
                            Operand::Null => Ok((FilterView::Eq(name, ValueView::Null), next)),
                            _ => match restricting_value(env, next, rel.value, t) {
                                Ok((v, after)) => Ok((FilterView::Eq(name, v), after)),
                                Err(e) => Err(e),
                            },
                        },
                        RelationOperator::In => match rel.value {
                            Operand::Tuple(items) => match restricting_values(
                                env,
                                next,
                                items@,
                                0,
                                t,
                            ) {
                                Ok((vs, after)) => Ok((FilterView::In(name, vs), after)),
                                Err(e) => Err(e),
                            },
                            _ => match restricting_value(env, next, rel.value, t) {
                                Ok((v, after)) => Ok((FilterView::In(name, seq![v]), after)),
                                Err(e) => Err(e),
                            },
                        },
                        _ => Err(
                            invalid("Only '=' and 'IN' restrictions are supported in WHERE"@),
                        ),
                    }
                },
            }
        },
        _ => Err(not_a_column()),
    }
}

/// The restrictions that the relations from the `i`-th on state.
pub open spec fn filters_of(
    env: Env,
    next: nat,
    rels: Seq<RelationElement>,
    i: int,
    table: TableView,
) -> Result<(Seq<FilterView>, nat), ErrorView>
    decreases rels.len() - i,
{
    if i >= rels.len() {
        Ok((Seq::empty(), next))
    } else {
        match filter_of(env, next, rels[i], table) {
            Err(e) => Err(e),
            Ok((f, after)) => match filters_of(env, after, rels, i + 1, table) {
                Err(e) => Err(e),
                Ok((fs, end)) => Ok((seq![f] + fs, end)),
            },
        }
    }
}

fn restricting_value_of(operand: &Operand, col_type: &ColumnType, binds: &mut Binds) -> (r: Result<
    Value,
    QueryError,
>)
    requires
        old(binds).wf(),
    ensures
        final(binds).wf(),
        final(binds).env() == old(binds).env(),
        match restricting_value(old(binds).env(), old(binds).taken(), *operand, *col_type) {
            Ok((v, next)) => r matches Ok(x) && x@ == v && final(binds).taken() == next,
            Err(e) => r matches Err(x) && x@ == e,
        },
{
    match operand {
        Operand::Const(text) => constant_of(text, col_type, binds),
        Operand::Param(_) => binds.take(col_type),
        _ => Err(invalid_err("Only literal values are supported in WHERE")),
    }
}

fn restricting_values_of(items: &Vec<Operand>, col_type: &ColumnType, binds: &mut Binds) -> (r:
    Result<Vec<Value>, QueryError>)
    requires
        old(binds).wf(),
    ensures
        final(binds).wf(),
        final(binds).env() == old(binds).env(),
        match restricting_values(old(binds).env(), old(binds).taken(), items@, 0, *col_type) {
            Ok((vs, next)) => r matches Ok(x) && value_views(x@) == vs && final(binds).taken()
                == next,
            Err(e) => r matches Err(x) && x@ == e,
        },
{
    let ghost env = binds.env();
    let ghost all = restricting_values(env, binds.taken(), items@, 0, *col_type);
    let mut vs: Vec<Value> = Vec::new();
    let mut i: usize = 0;
    proof {
        assert(value_views(vs@) =~= Seq::<ValueView>::empty());
        if let Ok((rest, _)) = all {
            assert(value_views(vs@) + rest =~= rest);
        }
    }
    while i < items.len()
        invariant
            i <= items@.len(),
            binds.wf(),
            binds.env() == env,
            env == old(binds).env(),
            all == restricting_values(env, old(binds).taken(), items@, 0, *col_type),
            all == (match restricting_values(env, binds.taken(), items@, i as int, *col_type) {
                Ok((rest, end)) => Ok((value_views(vs@) + rest, end)),
                Err(e) => Err(e),
            }),
        decreases items@.len() - i,
    {
        let v: Value = match restricting_value_of(&items[i], col_type, binds) {
            Ok(v) => v,
            Err(e) => return Err(e),
        };
        proof {
            lemma_value_views_push(vs@, v);
            if let Ok((rest, _)) = restricting_values(
                env,
                binds.taken(),
                items@,
                i + 1,
                *col_type,
            ) {
                assert(value_views(vs@) + (seq![v@] + rest) =~= value_views(vs@).push(v@) + rest);
            }
        }
        vs.push(v);
        i += 1;
    }
    assert(value_views(vs@) + Seq::<ValueView>::empty() =~= value_views(vs@));
    Ok(vs)
}

fn parse_filter(table: &TableDef, rel: &RelationElement, binds: &mut Binds) -> (r: Result<
    Filter,
    QueryError,
>)
    requires
        old(binds).wf(),
    ensures
        final(binds).wf(),
        final(binds).env() == old(binds).env(),
        match filter_of(old(binds).env(), old(binds).taken(), *rel, table@) {
            Ok((f, next)) => r matches Ok(x) && x@ == f && final(binds).taken() == next,
            Err(e) => r matches Err(x) && x@ == e,
        },
{
    let name: String = match &rel.obj {
        Operand::Column(col) => norm_id(col),
        _ => return Err(invalid_err("Only column restrictions are supported in WHERE")),
    };
    let col_type: &ColumnType = match table.column(&name) {
        Some(c) => &c.col_type,
        None => return Err(undefined_column_err(&name)),
    };
    match &rel.oper {
        RelationOperator::Equal => match &rel.value {
            Operand::Null => Ok(Filter::Eq(name, Value::Null)),
            other => match restricting_value_of(other, col_type, binds) {
                Ok(v) => Ok(Filter::Eq(name, v)),
                Err(e) => Err(e),
            },
        },
        RelationOperator::In => match &rel.value {
            Operand::Tuple(items) => match restricting_values_of(items, col_type, binds) {
                Ok(vs) => Ok(Filter::In(name, vs)),
                Err(e) => Err(e),
            },
            other => match restricting_value_of(other, col_type, binds) {
                Ok(v) => {
                    let vs: Vec<Value> = vec![v];
                    proof {
                        lemma_value_views(vs@);
                        assert(value_views(vs@) =~= seq![v@]);
                    }
                    Ok(Filter::In(name, vs))
                },
                Err(e) => Err(e),
            },
        },
        _ => Err(invalid_err("Only '=' and 'IN' restrictions are supported in WHERE")),
    }
}

/// The restrictions that a `WHERE` clause states.
pub fn parse_filters(
    table: &TableDef,
    where_clause: &[RelationElement],
    binds: &mut Binds,
) -> (r: Result<Vec<Filter>, QueryError>)
    requires
        old(binds).wf(),
    ensures
        final(binds).wf(),
        final(binds).env() == old(binds).env(),
        match filters_of(old(binds).env(), old(binds).taken(), where_clause@, 0, table@) {
            Ok((fs, next)) => r matches Ok(x) && filter_views(x@) == fs && final(binds).taken()
                == next,
            Err(e) => r matches Err(x) && x@ == e,
        },
{
    let ghost env = binds.env();
    let ghost all = filters_of(env, binds.taken(), where_clause@, 0, table@);
    let mut filters: Vec<Filter> = Vec::new();
    let mut i: usize = 0;
    proof {
        assert(filter_views(filters@) =~= Seq::<FilterView>::empty());
        if let Ok((rest, _)) = all {
            assert(filter_views(filters@) + rest =~= rest);
        }
    }
    while i < where_clause.len()
        invariant
            i <= where_clause@.len(),
            binds.wf(),
            binds.env() == env,
            env == old(binds).env(),
            all == filters_of(env, old(binds).taken(), where_clause@, 0, table@),
            all == (match filters_of(env, binds.taken(), where_clause@, i as int, table@) {
                Ok((rest, end)) => Ok((filter_views(filters@) + rest, end)),
                Err(e) => Err(e),
            }),
        decreases where_clause@.len() - i,
    {
        let f: Filter = match parse_filter(table, &where_clause[i], binds) {
            Ok(f) => f,
            Err(e) => return Err(e),
        };
        let ghost before = filter_views(filters@);
        filters.push(f);
        proof {
            assert(filter_views(filters@) =~= before.push(f@));
            if let Ok((rest, _)) = filters_of(env, binds.taken(), where_clause@, i + 1, table@) {
                assert(before + (seq![f@] + rest) =~= filter_views(filters@) + rest);
            }
        }
        i += 1;
    }
    assert(filter_views(filters@) + Seq::<FilterView>::empty() =~= filter_views(filters@));
    Ok(filters)
}

/// The value to which the first `=` restriction on a column binds it.
pub open spec fn fixed_value(filters: Seq<FilterView>, name: Seq<char>) -> Option<ValueView>
    decreases filters.len(),
{
    if filters.len() == 0 {
        None
    } else {
        match fixed_value(filters.drop_last(), name) {
            Some(v) => Some(v),
            None => match filters.last() {
                FilterView::Eq(n, v) => if n == name {
                    Some(v)
                } else {
                    None
                },
                FilterView::In(_, _) => None,
            },
        }
    }
}

/// The key parts that restrictions fix, from the `i`-th name on.
pub open spec fn fixed_parts(filters: Seq<FilterView>, names: Seq<Seq<char>>, i: int) -> Result<
    Seq<Seq<u8>>,
    ErrorView,
>
    decreases names.len() - i,
{
    if i >= names.len() {
        Ok(Seq::empty())
    } else {
        match fixed_value(filters, names[i]) {
            None => Err(invalid("Restrictions are incomplete for key part "@ + names[i])),
            Some(ValueView::Null) => Err(invalid("Invalid null value for key part "@ + names[i])),
            Some(v) => match fixed_parts(filters, names, i + 1) {
                Err(e) => Err(e),
                Ok(parts) => Ok(seq![raw(v)] + parts),
            },
        }
    }
}

fn find_fixed<'a>(filters: &'a [Filter], name: &str) -> (r: Option<&'a Value>)
    ensures
        match fixed_value(filter_views(filters@), name@) {
            Some(v) => r matches Some(x) && x@ == v,
            None => r is None,
        },
{
    let ghost views = filter_views(filters@);
    let mut i: usize = 0;
    assert(views.take(0) =~= Seq::<FilterView>::empty());
    while i < filters.len()
        invariant
            i <= filters@.len(),
            views == filter_views(filters@),
            fixed_value(views.take(i as int), name@) is None,
        decreases filters@.len() - i,
    {
        proof {
            assert(views.take(i + 1).drop_last() =~= views.take(i as int));
            assert(views.take(i + 1).last() == filters@[i as int]@);
        }
        if let Filter::Eq(n, v) = &filters[i] {
            if same_text(n, name) {
                proof {
                    lemma_fixed_value_stays(views, name@, i + 1);
                }
                return Some(v);
            }
        }
        i += 1;
    }
    assert(views.take(i as int) =~= views);
    None
}

proof fn lemma_fixed_value_stays(filters: Seq<FilterView>, name: Seq<char>, i: int)
    requires
        0 <= i <= filters.len(),
        fixed_value(filters.take(i), name) is Some,
    ensures
        fixed_value(filters, name) == fixed_value(filters.take(i), name),
    decreases filters.len() - i,
{
    if i < filters.len() {
        assert(filters.take(i + 1).drop_last() =~= filters.take(i));
        lemma_fixed_value_stays(filters, name, i + 1);
    } else {
        assert(filters.take(i) =~= filters);
    }
}

/// The key that the restrictions of a statement fix.
pub fn key_parts_from_filters(table: &TableDef, filters: &[Filter]) -> (r: Result<
    Vec<Vec<u8>>,
    QueryError,
>)
    ensures
        match fixed_parts(filter_views(filters@), table@.key_names(), 0) {
            Ok(parts) => r matches Ok(x) && part_views(x@) == parts,
            Err(e) => r matches Err(x) && x@ == e,
        },
{
    let ghost views = filter_views(filters@);
    let ghost names = table@.key_names();
    let ghost all = fixed_parts(views, names, 0);
    let columns: Vec<String> = table.key_columns();
    let mut parts: Vec<Vec<u8>> = Vec::new();
    let mut i: usize = 0;
    proof {
        assert(part_views(parts@) =~= Seq::<Seq<u8>>::empty());
        if let Ok(rest) = all {
            assert(part_views(parts@) + rest =~= rest);
        }
    }
    while i < columns.len()
        invariant
            i <= columns@.len(),
            names == table@.key_names(),
            texts(columns@) == names,
            views == filter_views(filters@),
            all == fixed_parts(views, names, 0),
            all == (match fixed_parts(views, names, i as int) {
                Ok(rest) => Ok(part_views(parts@) + rest),
                Err(e) => Err(e),
            }),
        decreases columns@.len() - i,
    {
        let name: &String = &columns[i];
        assert(names[i as int] == name@);
        let v: &Value = match find_fixed(filters, name) {
            Some(v) => v,
            None => return Err(
                invalid_err(&join2("Restrictions are incomplete for key part ", name)),
            ),
        };
        if v.is_null() {
            return Err(invalid_err(&join2("Invalid null value for key part ", name)));
        }
        let ghost before = part_views(parts@);
        let bytes: Vec<u8> = v.raw_bytes();
        parts.push(bytes);
        proof {
            assert(part_views(parts@) =~= before.push(bytes@));
            if let Ok(rest) = fixed_parts(views, names, i + 1) {
                assert(before + (seq![bytes@] + rest) =~= part_views(parts@) + rest);
            }
        }
        i += 1;
    }
    assert(part_views(parts@) + Seq::<Seq<u8>>::empty() =~= part_views(parts@));
    Ok(parts)
}

/// A column as results and metadata name it.
pub type NamedType = (Seq<char>, ColumnType);

pub open spec fn named_types(cols: Seq<(String, ColumnType)>) -> Seq<NamedType> {
    cols.map_values(|c: (String, ColumnType)| (c.0@, c.1))
}

/// The bind markers among operands, each with the column that they restrict.
pub open spec fn marker_specs(items: Seq<Operand>, i: int, col: NamedType) -> Seq<NamedType>
    decreases items.len() - i,
{
    if i >= items.len() {
        Seq::empty()
    } else if items[i] is Param {
        seq![col] + marker_specs(items, i + 1, col)
    } else {
        marker_specs(items, i + 1, col)
    }
}

/// The bind markers of a relation.
pub open spec fn relation_specs(rel: RelationElement, table: TableView) -> Result<
    Seq<NamedType>,
    ErrorView,
> {
    match rel.obj {
        Operand::Column(col) => {
            let name = id_text(col);
            match table.index_of(name) {
                None => Err(undefined_column(name)),
                Some(c) => {
                    let spec = (name, table.columns[c].col_type);
                    match rel.value {
                        Operand::Param(_) => Ok(seq![spec]),
                        Operand::Tuple(items) => Ok(marker_specs(items@, 0, spec)),
                        _ => Ok(Seq::empty()),
                    }
                },
            }
        },
        _ => Err(not_a_column()),
    }
}

/// The bind markers of the relations from the `i`-th on.
pub open spec fn where_specs(rels: Seq<RelationElement>, i: int, table: TableView) -> Result<
    Seq<NamedType>,
    ErrorView,
>
    decreases rels.len() - i,
{
    if i >= rels.len() {
        Ok(Seq::empty())
    } else {
        match relation_specs(rels[i], table) {
            Err(e) => Err(e),
            Ok(a) => match where_specs(rels, i + 1, table) {
                Err(e) => Err(e),
                Ok(b) => Ok(a + b),
            },
        }
    }
}

fn push_named(out: &mut Vec<(String, ColumnType)>, name: &str, col_type: &ColumnType)
    ensures
        named_types(final(out)@) == named_types(old(out)@).push((name@, *col_type)),
{
    out.push((name.to_owned(), col_type.clone()));
    assert(named_types(out@) =~= named_types(old(out)@).push((name@, *col_type)));
}

fn collect_markers(
    items: &Vec<Operand>,
    name: &str,
    col_type: &ColumnType,
    out: &mut Vec<(String, ColumnType)>,
)
    ensures
        named_types(final(out)@) == named_types(old(out)@) + marker_specs(
            items@,
            0,
            (name@, *col_type),
        ),
{
    let ghost col = (name@, *col_type);
    let ghost all = named_types(out@) + marker_specs(items@, 0, col);
    let mut i: usize = 0;
    while i < items.len()
        invariant
            i <= items@.len(),
            col == (name@, *col_type),
            all == named_types(out@) + marker_specs(items@, i as int, col),
        decreases items@.len() - i,
    {
        if let Operand::Param(_) = &items[i] {
            let ghost before = named_types(out@);
            push_named(out, name, col_type);
            assert(before + (seq![col] + marker_specs(items@, i + 1, col)) =~= before.push(col)
                + marker_specs(items@, i + 1, col));
        }
        i += 1;
    }
    assert(named_types(out@) + Seq::<NamedType>::empty() =~= named_types(out@));
}

/// Appends the bind markers of a `WHERE` clause.
pub fn collect_where_binds(
    table: &TableDef,
    where_clause: &[RelationElement],
    out: &mut Vec<(String, ColumnType)>,
) -> (r: Result<(), QueryError>)
    ensures
        match where_specs(where_clause@, 0, table@) {
            Ok(specs) => r is Ok && named_types(final(out)@) == named_types(old(out)@) + specs,
            Err(e) => r matches Err(x) && x@ == e,
        },
{
    let ghost start = named_types(out@);
    let ghost all = where_specs(where_clause@, 0, table@);
    let mut i: usize = 0;
    let ghost mut done: Seq<NamedType> = Seq::empty();
    proof {
        assert(start + done =~= start);
        if let Ok(rest) = all {
            assert(done + rest =~= rest);
        }
    }
    while i < where_clause.len()
        invariant
            i <= where_clause@.len(),
            named_types(out@) == start + done,
            all == where_specs(where_clause@, 0, table@),
            all == (match where_specs(where_clause@, i as int, table@) {
                Ok(rest) => Ok(done + rest),
                Err(e) => Err(e),
            }),
        decreases where_clause@.len() - i,
    {
        let rel: &RelationElement = &where_clause[i];
        let name: String = match &rel.obj {
            Operand::Column(col) => norm_id(col),
            _ => return Err(invalid_err("Only column restrictions are supported in WHERE")),
        };
        let col_type: &ColumnType = match table.column(&name) {
            Some(c) => &c.col_type,
            None => return Err(undefined_column_err(&name)),
        };
        let ghost here = relation_specs(*rel, table@);
        match &rel.value {
            Operand::Param(_) => {
                push_named(out, &name, col_type);
                assert(named_types(out@) =~= start + (done + seq![(name@, *col_type)]));
            },
            Operand::Tuple(items) => {
                collect_markers(items, &name, col_type, out);
                assert(named_types(out@) =~= start + (done + marker_specs(
                    items@,
                    0,
                    (name@, *col_type),
                )));
            },
            _ => {
                assert(done + Seq::<NamedType>::empty() =~= done);
            },
        }
        proof {
            let added = here->Ok_0;
            assert(named_types(out@) == start + (done + added));
            if let Ok(rest) = where_specs(where_clause@, i + 1, table@) {
                assert(done + (added + rest) =~= (done + added) + rest);
            }
            done = done + added;
        }
        i += 1;
    }
    assert(done + Seq::<NamedType>::empty() =~= done);
    Ok(())
}

/// The identifier by which a selected column is called in the result.
pub open spec fn result_name(named: Named) -> Identifier {
    match named.alias {
        Some(alias) => alias,
        None => named.name,
    }
}

/// The named columns among the selected elements from the `i`-th on.
pub open spec fn named_columns(elems: Seq<SelectElement>, i: int, table: TableView) -> Result<
    Seq<NamedType>,
    ErrorView,
>
    decreases elems.len() - i,
{
    if i >= elems.len() {
        Ok(Seq::empty())
    } else {
        match elems[i] {
            SelectElement::Star => named_columns(elems, i + 1, table),
            SelectElement::Column(named) => match table.index_of(id_text(named.name)) {
                None => Err(undefined_column(id_text(named.name))),
                Some(c) => match named_columns(elems, i + 1, table) {
                    Err(e) => Err(e),
                    Ok(rest) => Ok(
                        seq![(id_text(result_name(named)), table.columns[c].col_type)] + rest,
                    ),
                },
            },
            SelectElement::Function(_) => Err(
                invalid("Functions in SELECT are not supported"@),
            ),
        }
    }
}

/// Every column of a table.
pub open spec fn all_columns(table: TableView) -> Seq<NamedType> {
    table.columns.map_values(|c: ColumnView| (c.name, c.col_type))
}

/// Whether `*` is selected.
pub open spec fn selects_all(elems: Seq<SelectElement>) -> bool {
    exists|i: int| 0 <= i < elems.len() && #[trigger] elems[i] is Star
}

/// The columns of the result of a selection.
pub open spec fn selected_columns(elems: Seq<SelectElement>, table: TableView) -> Result<
    Seq<NamedType>,
    ErrorView,
> {
    match named_columns(elems, 0, table) {
        Err(e) => Err(e),
        Ok(cols) => if selects_all(elems) {
            Ok(all_columns(table))
        } else {
            Ok(cols)
        },
    }
}

/// The columns of the result of a selection.
pub fn select_columns(table: &TableDef, elems: &[SelectElement]) -> (r: Result<
    Vec<(String, ColumnType)>,
    QueryError,
>)
    ensures
        match selected_columns(elems@, table@) {
            Ok(cols) => r matches Ok(x) && named_types(x@) == cols,
            Err(e) => r matches Err(x) && x@ == e,
        },
{
    let ghost named = named_columns(elems@, 0, table@);
    let mut star: bool = false;
    let mut selected: Vec<(String, ColumnType)> = Vec::new();
    let mut i: usize = 0;
    proof {
        assert(named_types(selected@) =~= Seq::<NamedType>::empty());
        if let Ok(rest) = named {
            assert(named_types(selected@) + rest =~= rest);
        }
    }
    while i < elems.len()
        invariant
            i <= elems@.len(),
            star == exists|j: int| 0 <= j < i && #[trigger] elems@[j] is Star,
            named == named_columns(elems@, 0, table@),
            named == (match named_columns(elems@, i as int, table@) {
                Ok(rest) => Ok(named_types(selected@) + rest),
                Err(e) => Err(e),
            }),
        decreases elems@.len() - i,
    {
        match &elems[i] {
            SelectElement::Star => {
                star = true;
                assert(elems@[i as int] is Star);
            },
            SelectElement::Column(named_column) => {
                let name: String = norm_id(&named_column.name);
                let col_type: &ColumnType = match table.column(&name) {
                    Some(c) => &c.col_type,
                    None => return Err(undefined_column_err(&name)),
                };
                let result: String = match &named_column.alias {
                    Some(alias) => norm_id(alias),
                    None => norm_id(&named_column.name),
                };
                let ghost before = named_types(selected@);
                push_named(&mut selected, &result, col_type);
                proof {
                    if let Ok(rest) = named_columns(elems@, i + 1, table@) {
                        assert(before + (seq![(result@, *col_type)] + rest) =~= named_types(
                            selected@,
                        ) + rest);
                    }
                }
            },
            SelectElement::Function(_) => return Err(
                invalid_err("Functions in SELECT are not supported"),
            ),
        }
        i += 1;
    }
    assert(named_types(selected@) + Seq::<NamedType>::empty() =~= named_types(selected@));
    if star {
        return Ok(table_columns(table));
    }
    Ok(selected)
}

/// Every column of a table.
fn table_columns(table: &TableDef) -> (r: Vec<(String, ColumnType)>)
    ensures
        named_types(r@) == all_columns(table@),
{
    let ghost all = all_columns(table@);
    let mut r: Vec<(String, ColumnType)> = Vec::new();
    let mut i: usize = 0;
    assert(named_types(r@) =~= all.take(0));
    while i < table.columns.len()
        invariant
            i <= table.columns@.len(),
            all == all_columns(table@),
            named_types(r@) == all.take(i as int),
        decreases table.columns@.len() - i,
    {
        let c: &ColumnDef = &table.columns[i];
        assert(all[i as int] == (c.name@, c.col_type));
        push_named(&mut r, &c.name, &c.col_type);
        i += 1;
        assert(named_types(r@) =~= all.take(i as int));
    }
    assert(all.take(i as int) =~= all);
    r
}

} // verus!
