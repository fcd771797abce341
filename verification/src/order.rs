//! Entries in the order of their keys: the bytewise order of keys is total, and
//! what several engines hold is put into it.

use crate::keys::before;
use crate::select::entry_views;
use vstd::prelude::*;
use vstd::relations::total_ordering;
use vstd::seq_lib::{group_to_multiset_ensures, lemma_sorted_unique};

verus! {

/// No key comes before itself.
pub proof fn law_key_order_is_irreflexive(a: Seq<u8>)
    ensures
        !before(a, a),
    decreases a.len(),
{
    if a.len() > 0 {
        law_key_order_is_irreflexive(a.drop_first());
    }
}

/// A key that comes before a second comes before every third that the second
/// comes before.
pub proof fn law_key_order_is_transitive(a: Seq<u8>, b: Seq<u8>, c: Seq<u8>)
    requires
        before(a, b),
        before(b, c),
    ensures
        before(a, c),
    decreases a.len(),
{
    if a.len() > 0 && a[0] == b[0] && b[0] == c[0] {
        law_key_order_is_transitive(a.drop_first(), b.drop_first(), c.drop_first());
    }
}

/// Of two different keys one comes before the other.
pub proof fn law_key_order_is_total(a: Seq<u8>, b: Seq<u8>)
    ensures
        a == b || before(a, b) || before(b, a),
    decreases a.len(),
{
    if a.len() > 0 && b.len() > 0 && a[0] == b[0] {
        law_key_order_is_total(a.drop_first(), b.drop_first());
        if a.drop_first() == b.drop_first() {
            assert(a =~= seq![a[0]] + a.drop_first());
            assert(b =~= seq![b[0]] + b.drop_first());
        }
    } else if a.len() == 0 && b.len() == 0 {
        assert(a =~= b);
    }
}

/// Whether an entry does not come after another: by its key, then by its value.
pub open spec fn not_after(a: (Seq<u8>, Seq<u8>), b: (Seq<u8>, Seq<u8>)) -> bool {
    before(a.0, b.0) || (a.0 == b.0 && !before(b.1, a.1))
}

/// The order of entries.
pub open spec fn entry_order() -> spec_fn((Seq<u8>, Seq<u8>), (Seq<u8>, Seq<u8>)) -> bool {
    |a: (Seq<u8>, Seq<u8>), b: (Seq<u8>, Seq<u8>)| not_after(a, b)
}

/// The entries in the order of their keys.
pub open spec fn in_key_order(entries: Seq<(Seq<u8>, Seq<u8>)>) -> Seq<(Seq<u8>, Seq<u8>)> {
    entries.sort_by(entry_order())
}

proof fn lemma_not_after_total(a: (Seq<u8>, Seq<u8>), b: (Seq<u8>, Seq<u8>))
    ensures
        not_after(a, a),
        not_after(a, b) || not_after(b, a),
        not_after(a, b) && not_after(b, a) ==> a == b,
{
    law_key_order_is_irreflexive(a.0);
    law_key_order_is_irreflexive(a.1);
    law_key_order_is_irreflexive(b.1);
    law_key_order_is_total(a.0, b.0);
    law_key_order_is_total(a.1, b.1);
    if before(a.0, b.0) && before(b.0, a.0) {
        law_key_order_is_transitive(a.0, b.0, a.0);
    }
    if before(a.1, b.1) && before(b.1, a.1) {
        law_key_order_is_transitive(a.1, b.1, a.1);
    }
}

proof fn lemma_not_after_transitive(
    a: (Seq<u8>, Seq<u8>),
    b: (Seq<u8>, Seq<u8>),
    c: (Seq<u8>, Seq<u8>),
)
    requires
        not_after(a, b),
        not_after(b, c),
    ensures
        not_after(a, c),
{
    if before(a.0, b.0) {
        if before(b.0, c.0) {
            law_key_order_is_transitive(a.0, b.0, c.0);
        }
    } else if a.0 == c.0 && before(c.1, a.1) {
        law_key_order_is_total(a.1, b.1);
        law_key_order_is_irreflexive(a.0);
        if before(a.1, b.1) {
            law_key_order_is_transitive(c.1, a.1, b.1);
        }
    }
}

/// The order of entries is a total one.
pub proof fn law_entry_order_is_total()
    ensures
        total_ordering(entry_order()),
{
    let leq = entry_order();
    assert forall|a: (Seq<u8>, Seq<u8>), b: (Seq<u8>, Seq<u8>)| #[trigger]
        leq(a, b) && #[trigger] leq(b, a) implies a == b by {
        lemma_not_after_total(a, b);
    }
    assert forall|a: (Seq<u8>, Seq<u8>)| #[trigger] leq(a, a) by {
        lemma_not_after_total(a, a);
    }
    assert forall|a: (Seq<u8>, Seq<u8>), b: (Seq<u8>, Seq<u8>)| #[trigger]
        leq(a, b) || #[trigger] leq(b, a) by {
        lemma_not_after_total(a, b);
    }
    assert forall|a: (Seq<u8>, Seq<u8>), b: (Seq<u8>, Seq<u8>), c: (Seq<u8>, Seq<u8>)| #[trigger]
        leq(a, b) && #[trigger] leq(b, c) implies leq(a, c) by {
        lemma_not_after_transitive(a, b, c);
    }
}

/// Putting entries into order keeps each of them as often as it was there, and
/// none comes after the next.
pub proof fn law_key_order_keeps_entries(entries: Seq<(Seq<u8>, Seq<u8>)>)
    ensures
        in_key_order(entries).to_multiset() == entries.to_multiset(),
        forall|i: int, j: int|
            0 <= i < j < in_key_order(entries).len() ==> not_after(
                #[trigger] in_key_order(entries)[i],
                #[trigger] in_key_order(entries)[j],
            ),
{
    law_entry_order_is_total();
    entries.lemma_sort_by_ensures(entry_order());
    let leq = entry_order();
    let sorted = in_key_order(entries);
    assert forall|i: int, j: int| 0 <= i < j < sorted.len() implies not_after(
        #[trigger] sorted[i],
        #[trigger] sorted[j],
    ) by {
        assert(leq(sorted[i], sorted[j]));
    }
}

/// Whether two keys are alike before a place, and the first has the smaller byte
/// there or ends there.
pub open spec fn parts_at(a: Seq<u8>, b: Seq<u8>, k: int) -> bool {
    &&& 0 <= k <= a.len() && k < b.len()
    &&& a.take(k) == b.take(k)
    &&& k == a.len() || a[k] < b[k]
}

/// Keys come in the order of their bytes, the first that differs, and a key before
/// those that go on where it ends.
pub proof fn law_key_order_is_by_bytes(a: Seq<u8>, b: Seq<u8>)
    ensures
        before(a, b) <==> exists|k: int| #[trigger] parts_at(a, b, k),
    decreases a.len(),
{
    if b.len() > 0 {
        assert(a.take(0) =~= b.take(0));
        if a.len() == 0 || a[0] < b[0] {
            assert(parts_at(a, b, 0));
        } else if a[0] == b[0] {
            let x = a.drop_first();
            let y = b.drop_first();
            law_key_order_is_by_bytes(x, y);
            if before(a, b) {
                let k = choose|k: int| #[trigger] parts_at(x, y, k);
                assert(a.take(k + 1) =~= seq![a[0]] + x.take(k));
                assert(b.take(k + 1) =~= seq![b[0]] + y.take(k));
                assert(parts_at(a, b, k + 1));
            }
            if exists|k: int| #[trigger] parts_at(a, b, k) {
                let k = choose|k: int| #[trigger] parts_at(a, b, k);
                assert(k > 0);
                assert(x.take(k - 1) =~= a.take(k).drop_first());
                assert(y.take(k - 1) =~= b.take(k).drop_first());
                assert(parts_at(x, y, k - 1));
            }
        } else {
            if exists|k: int| #[trigger] parts_at(a, b, k) {
                let k = choose|k: int| #[trigger] parts_at(a, b, k);
                if k > 0 {
                    assert(a.take(k)[0] == a[0]);
                    assert(b.take(k)[0] == b[0]);
                }
            }
        }
    }
}

/// A list of the same entries in which none comes after the next is the entries
/// in order: there is no other.
pub proof fn law_key_order_is_unique(
    entries: Seq<(Seq<u8>, Seq<u8>)>,
    ordered: Seq<(Seq<u8>, Seq<u8>)>,
)
    requires
        ordered.to_multiset() == entries.to_multiset(),
        forall|i: int, j: int|
            0 <= i < j < ordered.len() ==> not_after(#[trigger] ordered[i], #[trigger] ordered[j]),
    ensures
        in_key_order(entries) == ordered,
{
    let leq = entry_order();
    law_entry_order_is_total();
    entries.lemma_sort_by_ensures(leq);
    assert forall|i: int, j: int| 0 <= i < j < ordered.len() implies #[trigger] leq(
        ordered[i],
        ordered[j],
    ) by {
        assert(not_after(ordered[i], ordered[j]));
    }
    lemma_sorted_unique(ordered, in_key_order(entries), leq);
}

/// An entry is among the entries put into order exactly if it is among them.
pub proof fn lemma_key_order_contains(
    entries: Seq<(Seq<u8>, Seq<u8>)>,
    entry: (Seq<u8>, Seq<u8>),
)
    ensures
        in_key_order(entries).contains(entry) == entries.contains(entry),
{
    broadcast use group_to_multiset_ensures;

    law_key_order_keeps_entries(entries);
    assert(entries.to_multiset().count(entry) > 0 <==> entries.contains(entry));
    assert(in_key_order(entries).to_multiset().count(entry) > 0 <==> in_key_order(
        entries,
    ).contains(entry));
}

/// Whether a key comes before another, byte by byte.
pub fn key_before(a: &[u8], b: &[u8]) -> (r: bool)
    ensures
        r == before(a@, b@),
{
    let mut i: usize = 0;
    assert(a@.skip(0) =~= a@ && b@.skip(0) =~= b@);
    while i < a.len() && i < b.len()
        invariant
            i <= a@.len(),
            i <= b@.len(),
            before(a@, b@) == before(a@.skip(i as int), b@.skip(i as int)),
        decreases a@.len() - i,
    {
        if a[i] != b[i] {
            return a[i] < b[i];
        }
        assert(a@.skip(i as int).drop_first() =~= a@.skip(i + 1));
        assert(b@.skip(i as int).drop_first() =~= b@.skip(i + 1));
        i += 1;
    }
    i < b.len()
}

fn entry_not_after(a: &(Vec<u8>, Vec<u8>), b: &(Vec<u8>, Vec<u8>)) -> (r: bool)
    ensures
        r == not_after((a.0@, a.1@), (b.0@, b.1@)),
{
    proof {
        law_key_order_is_total(a.0@, b.0@);
        if before(a.0@, b.0@) && before(b.0@, a.0@) {
            law_key_order_is_transitive(a.0@, b.0@, a.0@);
        }
        law_key_order_is_irreflexive(a.0@);
    }
    if key_before(&a.0, &b.0) {
        true
    } else if key_before(&b.0, &a.0) {
        false
    } else {
        !key_before(&b.1, &a.1)
    }
}

/// Whether no entry comes after a later one.
spec fn ascending(s: Seq<(Seq<u8>, Seq<u8>)>) -> bool {
    forall|i: int, j: int| 0 <= i < j < s.len() ==> not_after(#[trigger] s[i], #[trigger] s[j])
}

/// Whether no entry of one list comes after one of another.
spec fn all_not_after(s: Seq<(Seq<u8>, Seq<u8>)>, t: Seq<(Seq<u8>, Seq<u8>)>) -> bool {
    forall|i: int, j: int|
        0 <= i < s.len() && 0 <= j < t.len() ==> not_after(#[trigger] s[i], #[trigger] t[j])
}

/// Turns a list of entries round.
fn reversed(entries: Vec<(Vec<u8>, Vec<u8>)>) -> (r: Vec<(Vec<u8>, Vec<u8>)>)
    ensures
        r@ == entries@.reverse(),
{
    let ghost all = entries@;
    let mut rest: Vec<(Vec<u8>, Vec<u8>)> = entries;
    let mut r: Vec<(Vec<u8>, Vec<u8>)> = Vec::new();
    assert(r@ =~= all.reverse().take(0));
    while rest.len() > 0
        invariant
            rest@.len() + r@.len() == all.len(),
            rest@ == all.take(rest@.len() as int),
            r@ == all.reverse().take(r@.len() as int),
        decreases rest@.len(),
    {
        let ghost done = r@;
        let ghost last = rest@.last();
        match rest.pop() {
            Some(e) => r.push(e),
            None => {},
        }
        assert(rest@ =~= all.take(rest@.len() as int));
        assert(last == all.reverse()[done.len() as int]);
        assert(r@ =~= all.reverse().take(r@.len() as int));
    }
    assert(r@ =~= all.reverse());
    r
}

/// Moving the last of a list, where none of the other list comes after it, to
/// the front of those that were moved before keeps them in order.
proof fn lemma_moved(
    x: Seq<(Seq<u8>, Seq<u8>)>,
    y: Seq<(Seq<u8>, Seq<u8>)>,
    done: Seq<(Seq<u8>, Seq<u8>)>,
)
    requires
        x.len() > 0,
        ascending(x),
        ascending(y),
        ascending(done.reverse()),
        all_not_after(x, done),
        all_not_after(y, done),
        y.len() == 0 || not_after(y.last(), x.last()),
    ensures
        ascending(x.drop_last()),
        ascending(done.push(x.last()).reverse()),
        all_not_after(x.drop_last(), done.push(x.last())),
        all_not_after(y, done.push(x.last())),
        x.drop_last().to_multiset().add(y.to_multiset()).add(done.push(x.last()).to_multiset())
            == x.to_multiset().add(y.to_multiset()).add(done.to_multiset()),
{
    broadcast use group_to_multiset_ensures;

    let e = x.last();
    let moved = done.push(e);
    assert(x =~= x.drop_last().push(e));
    assert(x.to_multiset() =~= x.drop_last().to_multiset().insert(e));
    assert(moved.to_multiset() =~= done.to_multiset().insert(e));
    assert(x.drop_last().to_multiset().add(y.to_multiset()).add(moved.to_multiset())
        =~= x.to_multiset().add(y.to_multiset()).add(done.to_multiset()));
    assert(moved.reverse() =~= seq![e] + done.reverse());
    assert forall|i: int, j: int| 0 <= i < j < moved.reverse().len() implies not_after(
        #[trigger] moved.reverse()[i],
        #[trigger] moved.reverse()[j],
    ) by {
        assert(moved.reverse()[j] == done.reverse()[j - 1]);
        if i == 0 {
            assert(done.reverse()[j - 1] == done[done.len() - j]);
            assert(x[x.len() - 1] == e);
        } else {
            assert(moved.reverse()[i] == done.reverse()[i - 1]);
        }
    }
    assert forall|i: int, j: int|
        0 <= i < x.drop_last().len() && 0 <= j < moved.len() implies not_after(
        #[trigger] x.drop_last()[i],
        #[trigger] moved[j],
    ) by {
        assert(x.drop_last()[i] == x[i]);
        if j < done.len() {
            assert(moved[j] == done[j]);
        } else {
            assert(moved[j] == x[x.len() - 1]);
        }
    }
    assert forall|i: int, j: int| 0 <= i < y.len() && 0 <= j < moved.len() implies not_after(
        #[trigger] y[i],
        #[trigger] moved[j],
    ) by {
        if j < done.len() {
            assert(moved[j] == done[j]);
        } else {
            let last = y[y.len() - 1];
            if i < y.len() - 1 {
                assert(not_after(y[i], last));
                lemma_not_after_transitive(y[i], last, e);
            }
        }
    }
    assert forall|i: int, j: int| 0 <= i < j < x.drop_last().len() implies not_after(
        #[trigger] x.drop_last()[i],
        #[trigger] x.drop_last()[j],
    ) by {
        assert(not_after(x[i], x[j]));
    }
}

/// Two lists in order as one in order.
fn merged(
    a: Vec<(Vec<u8>, Vec<u8>)>,
    b: Vec<(Vec<u8>, Vec<u8>)>,
) -> (r: Vec<(Vec<u8>, Vec<u8>)>)
    requires
        ascending(entry_views(a@)),
        ascending(entry_views(b@)),
    ensures
        ascending(entry_views(r@)),
        entry_views(r@).to_multiset() == entry_views(a@).to_multiset().add(
            entry_views(b@).to_multiset(),
        ),
{
    broadcast use group_to_multiset_ensures;

    let ghost total = entry_views(a@).to_multiset().add(entry_views(b@).to_multiset());
    let mut a: Vec<(Vec<u8>, Vec<u8>)> = a;
    let mut b: Vec<(Vec<u8>, Vec<u8>)> = b;
    let mut back: Vec<(Vec<u8>, Vec<u8>)> = Vec::new();
    assert(entry_views(back@).to_multiset() =~= vstd::multiset::Multiset::empty());
    assert(total.add(entry_views(back@).to_multiset()) =~= total);
    while a.len() > 0 || b.len() > 0
        invariant
            ascending(entry_views(a@)),
            ascending(entry_views(b@)),
            ascending(entry_views(back@).reverse()),
            all_not_after(entry_views(a@), entry_views(back@)),
            all_not_after(entry_views(b@), entry_views(back@)),
            entry_views(a@).to_multiset().add(entry_views(b@).to_multiset()).add(
                entry_views(back@).to_multiset(),
            ) == total,
        decreases a@.len() + b@.len(),
    {
        let ghost x = entry_views(a@);
        let ghost y = entry_views(b@);
        let ghost done = entry_views(back@);
        let first: bool = if a.len() == 0 {
            false
        } else if b.len() == 0 {
            true
        } else {
            entry_not_after(&b[b.len() - 1], &a[a.len() - 1])
        };
        if first {
            proof {
                lemma_moved(x, y, done);
            }
            match a.pop() {
                Some(e) => back.push(e),
                None => {},
            }
            assert(entry_views(a@) =~= x.drop_last());
            assert(entry_views(back@) =~= done.push(x.last()));
        } else {
            proof {
                if x.len() > 0 {
                    lemma_not_after_total(x.last(), y.last());
                }
                lemma_moved(y, x, done);
                assert(y.to_multiset().add(x.to_multiset()) =~= x.to_multiset().add(
                    y.to_multiset(),
                ));
                assert(y.drop_last().to_multiset().add(x.to_multiset()) =~= x.to_multiset().add(
                    y.drop_last().to_multiset(),
                ));
            }
            match b.pop() {
                Some(e) => back.push(e),
                None => {},
            }
            assert(entry_views(b@) =~= y.drop_last());
            assert(entry_views(back@) =~= done.push(y.last()));
        }
    }
    let ghost done = entry_views(back@);
    let r: Vec<(Vec<u8>, Vec<u8>)> = reversed(back);
    proof {
        assert(entry_views(r@) =~= done.reverse());
        done.lemma_reverse_to_multiset();
        assert(entry_views(a@).to_multiset().add(entry_views(b@).to_multiset()).add(
            done.to_multiset(),
        ) =~= done.to_multiset());
    }
    r
}

fn merge_sorted(entries: Vec<(Vec<u8>, Vec<u8>)>) -> (r: Vec<(Vec<u8>, Vec<u8>)>)
    ensures
        ascending(entry_views(r@)),
        entry_views(r@).to_multiset() == entry_views(entries@).to_multiset(),
    decreases entries@.len(),
{
    if entries.len() <= 1 {
        return entries;
    }
    let ghost all = entry_views(entries@);
    let mut front: Vec<(Vec<u8>, Vec<u8>)> = entries;
    let half: usize = front.len() / 2;
    let back: Vec<(Vec<u8>, Vec<u8>)> = front.split_off(half);
    proof {
        assert(all =~= entry_views(front@) + entry_views(back@));
        vstd::seq_lib::lemma_multiset_commutative(entry_views(front@), entry_views(back@));
    }
    merged(merge_sorted(front), merge_sorted(back))
}

/// Puts entries into the order of their keys.
pub fn sort_entries(entries: Vec<(Vec<u8>, Vec<u8>)>) -> (r: Vec<(Vec<u8>, Vec<u8>)>)
    ensures
        entry_views(r@) == in_key_order(entry_views(entries@)),
{
    let ghost all = entry_views(entries@);
    let r: Vec<(Vec<u8>, Vec<u8>)> = merge_sorted(entries);
    proof {
        law_key_order_is_unique(all, entry_views(r@));
    }
    r
}

} // verus!
