//! Bind markers in the assignments of an `UPDATE`.
//!
//! The grammar of the parser has no place for a bind marker behind `SET`, so
//! that `UPDATE t SET v = ? WHERE k = ?` is an error to it. Such a text is read
//! with a constant in the place of each of these markers. The markers are put
//! back into the statement.

use crate::text::{chars_of, lower_ascii, push_text, same_text, text_of, to_lower_ascii};
use cql3_parser::common::Operand;
use cql3_parser::update::{AssignmentElement, Update};
use vstd::prelude::*;
use vstd::string::*;

verus! {

/// The character that a constant in the place of a marker holds. A text that
/// holds it too is left as it is.
pub const SUBSTITUTE: char = '\u{1a}';

/// The constant that stands in the place of a marker.
pub open spec fn stand_in() -> Seq<char> {
    "'\u{1a}'"@
}

pub open spec fn is_word_char(c: char) -> bool {
    'a' <= c <= 'z' || 'A' <= c <= 'Z' || '0' <= c <= '9' || c == '_'
}

pub open spec fn is_space(c: char) -> bool {
    c == ' ' || c == '\t' || c == '\n' || c == '\r'
}

/// Whether the keyword `WHERE` stands at a place.
pub open spec fn where_at(s: Seq<char>, i: int) -> bool {
    &&& 0 <= i && i + 5 <= s.len()
    &&& lower_ascii(s[i]) == 'w'
    &&& lower_ascii(s[i + 1]) == 'h'
    &&& lower_ascii(s[i + 2]) == 'e'
    &&& lower_ascii(s[i + 3]) == 'r'
    &&& lower_ascii(s[i + 4]) == 'e'
    &&& i == 0 || !is_word_char(s[i - 1])
    &&& i + 5 == s.len() || !is_word_char(s[i + 5])
}

/// The text from a place on, with a constant for each marker that follows an
/// `=` before the keyword `WHERE`. `quote` is the quote that the place stands
/// within, and `assigns` whether only spaces part it from an `=`.
pub open spec fn stood_in_from(
    s: Seq<char>,
    i: int,
    quote: Option<char>,
    assigns: bool,
) -> Seq<char>
    decreases s.len() - i,
{
    if i < 0 || i >= s.len() {
        Seq::empty()
    } else if quote is Some {
        seq![s[i]] + stood_in_from(
            s,
            i + 1,
            if quote == Some(s[i]) {
                None
            } else {
                quote
            },
            false,
        )
    } else if where_at(s, i) {
        s.skip(i)
    } else if s[i] == '?' && assigns {
        stand_in() + stood_in_from(s, i + 1, None, false)
    } else {
        seq![s[i]] + stood_in_from(
            s,
            i + 1,
            if s[i] == '\'' || s[i] == '"' {
                Some(s[i])
            } else {
                None
            },
            s[i] == '=' || (assigns && is_space(s[i])),
        )
    }
}

/// The text of a statement with constants in the place of the markers among
/// its assignments.
pub open spec fn stood_in(s: Seq<char>) -> Seq<char> {
    if s.contains(SUBSTITUTE) {
        s
    } else {
        stood_in_from(s, 0, None, false)
    }
}

/// A text without a `?` is left as it is.
pub proof fn law_text_without_markers_is_kept(s: Seq<char>)
    requires
        !s.contains('?'),
    ensures
        stood_in(s) == s,
{
    lemma_kept_from(s, 0, None, false);
    assert(s.skip(0) =~= s);
}

/// A text with a marker in the place of each stand-in.
pub open spec fn with_markers(t: Seq<char>) -> Seq<char>
    decreases t.len(),
{
    if t.len() == 0 {
        Seq::empty()
    } else if t.len() >= 3 && t[0] == '\'' && t[1] == SUBSTITUTE && t[2] == '\'' {
        seq!['?'] + with_markers(t.skip(3))
    } else {
        seq![t[0]] + with_markers(t.drop_first())
    }
}

proof fn lemma_with_markers_kept(t: Seq<char>)
    requires
        !t.contains(SUBSTITUTE),
    ensures
        with_markers(t) == t,
    decreases t.len(),
{
    if t.len() > 0 {
        let rest = t.drop_first();
        if t.len() >= 2 {
            assert(t.contains(t[1]));
        }
        assert forall|i: int| 0 <= i < rest.len() implies #[trigger] rest[i] != SUBSTITUTE by {
            assert(t.contains(t[i + 1]));
        }
        lemma_with_markers_kept(rest);
        assert(seq![t[0]] + rest =~= t);
    }
}

proof fn lemma_with_markers_step(c: char, rest: Seq<char>)
    requires
        rest.len() > 0 ==> rest[0] != SUBSTITUTE,
    ensures
        with_markers(seq![c] + rest) == seq![c] + with_markers(rest),
{
    let t = seq![c] + rest;
    assert(t.drop_first() =~= rest);
    if t.len() >= 3 {
        assert(t[1] == rest[0]);
    }
}

proof fn lemma_stood_in_back(s: Seq<char>, i: int, quote: Option<char>, assigns: bool)
    requires
        !s.contains(SUBSTITUTE),
        0 <= i <= s.len(),
    ensures
        with_markers(stood_in_from(s, i, quote, assigns)) == s.skip(i),
        stood_in_from(s, i, quote, assigns).len() > 0 ==> stood_in_from(s, i, quote, assigns)[0]
            != SUBSTITUTE,
    decreases s.len() - i,
{
    reveal_strlit("'\u{1a}'");
    if i < s.len() {
        assert(s.contains(s[i]));
        assert(s.skip(i) =~= seq![s[i]] + s.skip(i + 1));
        let after = if quote is Some {
            if quote == Some(s[i]) {
                None
            } else {
                quote
            }
        } else if s[i] == '\'' || s[i] == '"' {
            Some(s[i])
        } else {
            None
        };
        let next = quote is None && (s[i] == '=' || (assigns && is_space(s[i])));
        if quote is None && where_at(s, i) {
            assert forall|k: int| 0 <= k < s.skip(i).len() implies #[trigger] s.skip(i)[k]
                != SUBSTITUTE by {
                assert(s.contains(s[i + k]));
            }
            lemma_with_markers_kept(s.skip(i));
        } else if quote is None && s[i] == '?' && assigns {
            lemma_stood_in_back(s, i + 1, None, false);
            let t = stand_in() + stood_in_from(s, i + 1, None, false);
            assert(stand_in().len() == 3);
            assert(t[0] == '\'' && t[1] == SUBSTITUTE && t[2] == '\'');
            assert(t.skip(3) =~= stood_in_from(s, i + 1, None, false));
        } else {
            lemma_stood_in_back(s, i + 1, after, next);
            lemma_with_markers_step(s[i], stood_in_from(s, i + 1, after, next));
        }
    } else {
        assert(s.skip(i) =~= Seq::empty());
    }
}

/// Stand-ins take the places of markers and change nothing else: with the markers
/// back in their places the text is what it was.
pub proof fn law_stand_ins_replace_markers(s: Seq<char>)
    requires
        !s.contains(SUBSTITUTE),
    ensures
        with_markers(stood_in(s)) == s,
{
    lemma_stood_in_back(s, 0, None, false);
    assert(s.skip(0) =~= s);
}

/// Whether a stretch of a text is outside quotes, holds no marker and comes before
/// the `WHERE`.
pub open spec fn is_plain(s: Seq<char>, from: int, to: int) -> bool {
    forall|j: int|
        from <= j < to ==> (#[trigger] s[j]) != '\'' && s[j] != '"' && s[j] != '?' && !where_at(
            s,
            j,
        )
}

proof fn lemma_plain_run(s: Seq<char>, i: int, k: int, assigns: bool) -> (after: bool)
    requires
        0 <= i <= k <= s.len(),
        is_plain(s, i, k),
    ensures
        stood_in_from(s, i, None, assigns) == s.subrange(i, k) + stood_in_from(s, k, None, after),
        assigns && (forall|j: int| i <= j < k ==> is_space(#[trigger] s[j])) ==> after,
    decreases k - i,
{
    if i < k {
        let c = s[i];
        let next = c == '=' || (assigns && is_space(c));
        let after = lemma_plain_run(s, i + 1, k, next);
        assert(s.subrange(i, k) =~= seq![c] + s.subrange(i + 1, k));
        assert(stood_in_from(s, i, None, assigns) =~= s.subrange(i, k) + stood_in_from(
            s,
            k,
            None,
            after,
        ));
        after
    } else {
        assert(s.subrange(i, k) =~= Seq::empty());
        assert(stood_in_from(s, i, None, assigns) =~= s.subrange(i, k) + stood_in_from(
            s,
            k,
            None,
            assigns,
        ));
        assigns
    }
}

proof fn lemma_quoted_run(s: Seq<char>, i: int, k: int, q: char)
    requires
        0 <= i <= k <= s.len(),
        forall|j: int| i <= j < k ==> (#[trigger] s[j]) != q,
    ensures
        stood_in_from(s, i, Some(q), false) == s.subrange(i, k) + stood_in_from(
            s,
            k,
            Some(q),
            false,
        ),
    decreases k - i,
{
    if i < k {
        lemma_quoted_run(s, i + 1, k, q);
        assert(s.subrange(i, k) =~= seq![s[i]] + s.subrange(i + 1, k));
        assert(stood_in_from(s, i, Some(q), false) =~= s.subrange(i, k) + stood_in_from(
            s,
            k,
            Some(q),
            false,
        ));
    } else {
        assert(s.subrange(i, k) =~= Seq::empty());
        assert(stood_in_from(s, i, Some(q), false) =~= s.subrange(i, k) + stood_in_from(
            s,
            k,
            Some(q),
            false,
        ));
    }
}

/// The first marker of an assignment, behind `=` and white space, gets a stand-in.
pub proof fn law_assigned_markers_get_stand_ins(
    before: Seq<char>,
    gap: Seq<char>,
    rest: Seq<char>,
)
    requires
        ({
            let s = before + seq!['='] + gap + seq!['?'] + rest;
            &&& !s.contains(SUBSTITUTE)
            &&& is_plain(s, 0, (before.len() + 1 + gap.len()) as int)
            &&& forall|j: int| 0 <= j < gap.len() ==> is_space(#[trigger] gap[j])
        }),
    ensures
        (before + seq!['='] + gap + stand_in()).is_prefix_of(
            stood_in(before + seq!['='] + gap + seq!['?'] + rest),
        ),
{
    let s = before + seq!['='] + gap + seq!['?'] + rest;
    let k = before.len() as int;
    let m = (k + 1 + gap.len()) as int;
    let a = lemma_plain_run(s, 0, k, false);
    assert(s[k] == '=');
    assert(!where_at(s, k));
    assert(stood_in_from(s, k, None, a) == seq!['='] + stood_in_from(s, k + 1, None, true));
    assert forall|j: int| k + 1 <= j < m implies is_space(#[trigger] s[j]) by {
        assert(s[j] == gap[j - (k + 1)]);
    }
    let b = lemma_plain_run(s, k + 1, m, true);
    assert(s[m] == '?');
    assert(!where_at(s, m));
    let tail = stood_in_from(s, m + 1, None, false);
    assert(stood_in_from(s, m, None, b) == stand_in() + tail);
    let out = stood_in(s);
    let front = before + seq!['='] + gap + stand_in();
    assert(s.subrange(0, k) =~= before);
    assert(s.subrange(k + 1, m) =~= gap);
    assert(out =~= front + tail);
    assert(out.subrange(0, front.len() as int) =~= front);
}

/// What is in quotes is kept, whatever it holds.
pub proof fn law_quoted_texts_get_no_stand_ins(
    before: Seq<char>,
    quote: char,
    quoted: Seq<char>,
    rest: Seq<char>,
)
    requires
        quote == '\'' || quote == '"',
        !quoted.contains(quote),
        ({
            let s = before + seq![quote] + quoted + seq![quote] + rest;
            is_plain(s, 0, before.len() as int)
        }),
    ensures
        (before + seq![quote] + quoted + seq![quote]).is_prefix_of(
            stood_in(before + seq![quote] + quoted + seq![quote] + rest),
        ),
{
    let s = before + seq![quote] + quoted + seq![quote] + rest;
    let front = before + seq![quote] + quoted + seq![quote];
    let k = before.len() as int;
    let m = (k + 1 + quoted.len()) as int;
    let a = lemma_plain_run(s, 0, k, false);
    assert(s[k] == quote);
    assert(!where_at(s, k));
    assert(stood_in_from(s, k, None, a) == seq![quote] + stood_in_from(
        s,
        k + 1,
        Some(quote),
        false,
    ));
    assert forall|j: int| k + 1 <= j < m implies (#[trigger] s[j]) != quote by {
        assert(s[j] == quoted[j - (k + 1)]);
        assert(quoted.contains(quoted[j - (k + 1)]));
    }
    lemma_quoted_run(s, k + 1, m, quote);
    assert(s[m] == quote);
    let tail = stood_in_from(s, m + 1, None, false);
    assert(stood_in_from(s, m, Some(quote), false) == seq![quote] + tail);
    assert(s.subrange(0, k) =~= before);
    assert(s.subrange(k + 1, m) =~= quoted);
    let out = stood_in(s);
    if s.contains(SUBSTITUTE) {
        assert(s.subrange(0, front.len() as int) =~= front);
    } else {
        assert(out =~= front + tail);
        assert(out.subrange(0, front.len() as int) =~= front);
    }
}

proof fn lemma_kept_from(s: Seq<char>, i: int, quote: Option<char>, assigns: bool)
    requires
        !s.contains('?'),
        0 <= i <= s.len(),
    ensures
        stood_in_from(s, i, quote, assigns) == s.skip(i),
    decreases s.len() - i,
{
    if i < s.len() {
        assert(s.contains(s[i]));
        assert(s.skip(i) =~= seq![s[i]] + s.skip(i + 1));
        if quote is Some {
            lemma_kept_from(
                s,
                i + 1,
                if quote == Some(s[i]) {
                    None
                } else {
                    quote
                },
                false,
            );
        } else if !where_at(s, i) {
            lemma_kept_from(
                s,
                i + 1,
                if s[i] == '\'' || s[i] == '"' {
                    Some(s[i])
                } else {
                    None
                },
                s[i] == '=' || (assigns && is_space(s[i])),
            );
        }
    }
}

fn word_char(c: char) -> (r: bool)
    ensures
        r == is_word_char(c),
{
    ('a' <= c && c <= 'z') || ('A' <= c && c <= 'Z') || ('0' <= c && c <= '9') || c == '_'
}

fn stands_where(chars: &[char], i: usize) -> (r: bool)
    requires
        i < chars@.len(),
    ensures
        r == where_at(chars@, i as int),
{
    let n: usize = chars.len();
    n - i >= 5 && to_lower_ascii(chars[i]) == 'w' && to_lower_ascii(chars[i + 1]) == 'h'
        && to_lower_ascii(chars[i + 2]) == 'e' && to_lower_ascii(chars[i + 3]) == 'r'
        && to_lower_ascii(chars[i + 4]) == 'e' && (i == 0 || !word_char(chars[i - 1])) && (n - i
        == 5 || !word_char(chars[i + 5]))
}

fn holds_substitute(chars: &[char]) -> (r: bool)
    ensures
        r == chars@.contains(SUBSTITUTE),
{
    let mut i: usize = 0;
    while i < chars.len()
        invariant
            i <= chars@.len(),
            forall|k: int| 0 <= k < i ==> chars@[k] != SUBSTITUTE,
        decreases chars@.len() - i,
    {
        if chars[i] == SUBSTITUTE {
            assert(chars@[i as int] == SUBSTITUTE);
            return true;
        }
        i += 1;
    }
    false
}

/// The text of a statement with constants in the place of the markers among
/// its assignments.
pub fn with_stand_ins(query: &str) -> (r: String)
    ensures
        r@ == stood_in(query@),
{
    let chars: Vec<char> = chars_of(query);
    if holds_substitute(&chars) {
        return query.to_owned();
    }
    let mut out: String = String::new();
    let mut quote: Option<char> = None;
    let mut assigns: bool = false;
    let mut i: usize = 0;
    let ghost all = stood_in(query@);
    assert(out@ + all =~= all);
    while i < chars.len()
        invariant
            i <= chars@.len(),
            chars@ == query@,
            all == stood_in(query@),
            all == out@ + stood_in_from(query@, i as int, quote, assigns),
        decreases chars@.len() - i,
    {
        let c: char = chars[i];
        let ghost before = out@;
        match quote {
            Some(q) => {
                out.push(c);
                if c == q {
                    quote = None;
                }
                assigns = false;
                proof {
                    let rest = stood_in_from(query@, i + 1, quote, assigns);
                    assert(before + (seq![c] + rest) =~= out@ + rest);
                }
            },
            None => {
                if stands_where(&chars, i) {
                    push_text(&mut out, &text_of(&chars, i, chars.len()));
                    assert(query@.subrange(i as int, query@.len() as int) =~= query@.skip(i as int));
                    return out;
                }
                if c == '?' && assigns {
                    push_text(&mut out, "'\u{1a}'");
                    assigns = false;
                    proof {
                        let rest = stood_in_from(query@, i + 1, quote, assigns);
                        assert(before + (stand_in() + rest) =~= out@ + rest);
                    }
                } else {
                    out.push(c);
                    assigns = c == '=' || (assigns && (c == ' ' || c == '\t' || c == '\n' || c
                        == '\r'));
                    if c == '\'' || c == '"' {
                        quote = Some(c);
                    }
                    proof {
                        let rest = stood_in_from(query@, i + 1, quote, assigns);
                        assert(before + (seq![c] + rest) =~= out@ + rest);
                    }
                }
            },
        }
        i += 1;
    }
    assert(out@ + Seq::<char>::empty() =~= out@);
    out
}

/// An assignment with its marker put back.
pub open spec fn assignment_restored(a: AssignmentElement, b: AssignmentElement) -> bool {
    &&& b.name == a.name
    &&& b.operator == a.operator
    &&& match a.value {
        Operand::Const(c) if c@ == stand_in() => b.value matches Operand::Param(p) && p@ == "?"@,
        _ => b.value == a.value,
    }
}

/// A statement with the markers put back into its assignments.
pub open spec fn update_restored(u: Update, v: Update) -> bool {
    &&& v.begin_batch == u.begin_batch
    &&& v.table_name == u.table_name
    &&& v.using_ttl == u.using_ttl
    &&& v.where_clause == u.where_clause
    &&& v.if_clause == u.if_clause
    &&& v.if_exists == u.if_exists
    &&& v.assignments@.len() == u.assignments@.len()
    &&& forall|i: int|
        0 <= i < u.assignments@.len() ==> #[trigger] assignment_restored(
            u.assignments@[i],
            v.assignments@[i],
        )
}

fn is_stand_in(value: &Operand) -> (r: bool)
    ensures
        r == (*value matches Operand::Const(c) && c@ == stand_in()),
{
    match value {
        Operand::Const(c) => same_text(c, "'\u{1a}'"),
        _ => false,
    }
}

/// Puts the markers back into the assignments of a statement.
pub fn restore_markers(u: Update) -> (v: Update)
    ensures
        update_restored(u, v),
{
    let mut v: Update = u;
    let mut i: usize = 0;
    while i < v.assignments.len()
        invariant
            i <= v.assignments@.len(),
            v.begin_batch == u.begin_batch,
            v.table_name == u.table_name,
            v.using_ttl == u.using_ttl,
            v.where_clause == u.where_clause,
            v.if_clause == u.if_clause,
            v.if_exists == u.if_exists,
            v.assignments@.len() == u.assignments@.len(),
            forall|k: int|
                0 <= k < i ==> #[trigger] assignment_restored(
                    u.assignments@[k],
                    v.assignments@[k],
                ),
            forall|k: int| i <= k < u.assignments@.len() ==> v.assignments@[k] == u.assignments@[k],
        decreases v.assignments@.len() - i,
    {
        if is_stand_in(&v.assignments[i].value) {
            v.assignments[i].value = Operand::Param("?".to_owned());
        }
        assert(assignment_restored(u.assignments@[i as int], v.assignments@[i as int]));
        i += 1;
    }
    v
}

/// An update that is read with stand-ins is the update that was written: every
/// assignment that has a stand-in gets its marker back, and all else is kept.
pub proof fn law_restored_update_has_its_markers(u: Update, v: Update, i: int)
    requires
        update_restored(u, v),
        0 <= i < u.assignments@.len(),
    ensures
        v.table_name == u.table_name,
        v.where_clause@ == u.where_clause@,
        v.assignments@.len() == u.assignments@.len(),
        v.assignments@[i].name == u.assignments@[i].name,
        v.assignments@[i].operator == u.assignments@[i].operator,
        (u.assignments@[i].value matches Operand::Const(c) && c@ == seq!['\'', '\u{1a}', '\''])
            ==> v.assignments@[i].value is Param,
        !(u.assignments@[i].value matches Operand::Const(c) && c@ == seq!['\'', '\u{1a}', '\''])
            ==> v.assignments@[i].value == u.assignments@[i].value,
{
    reveal_strlit("'\u{1a}'");
    assert(stand_in() =~= seq!['\'', '\u{1a}', '\'']);
    assert(assignment_restored(u.assignments@[i], v.assignments@[i]));
}

} // verus!
