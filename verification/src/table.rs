//! Sorted association tables keyed by outpoint bytes.
//!
//! The store keeps withdrawals and refunds in vectors of `(key, value)` pairs,
//! strictly sorted by the lexicographic order of the keys.  `tinsert` and
//! `tremove` are the mathematical meaning of the two mutations; connecting a
//! block inserts a batch and disconnecting removes it again, and the lemmas
//! here show that the second exactly undoes the first.

use vstd::prelude::*;
use crate::order::{lex_lt, lemma_lex_trans, lemma_lex_connex, bytes_cmp};

verus! {

/// Whether the table holds an entry with key `k`.
pub open spec fn tbl_contains<V>(s: Seq<(Seq<u8>, V)>, k: Seq<u8>) -> bool {
    exists|i: int| 0 <= i < s.len() && (#[trigger] s[i]).0 == k
}

/// Whether the entries are strictly sorted by key.
pub open spec fn tbl_sorted<V>(s: Seq<(Seq<u8>, V)>) -> bool {
    forall|i: int, j: int|
        0 <= i < j < s.len() ==> lex_lt((#[trigger] s[i]).0, (#[trigger] s[j]).0)
}

/// The table with `(k, v)` inserted at its sorted position.
pub open spec fn tinsert<V>(s: Seq<(Seq<u8>, V)>, k: Seq<u8>, v: V) -> Seq<(Seq<u8>, V)>
    decreases s.len(),
{
    if s.len() == 0 {
        seq![(k, v)]
    } else if lex_lt(k, s[0].0) {
        seq![(k, v)] + s
    } else {
        seq![s[0]] + tinsert(s.drop_first(), k, v)
    }
}

/// The table with the entry keyed `k` removed (unchanged if there is none).
pub open spec fn tremove<V>(s: Seq<(Seq<u8>, V)>, k: Seq<u8>) -> Seq<(Seq<u8>, V)>
    decreases s.len(),
{
    if s.len() == 0 {
        s
    } else if s[0].0 == k {
        s.drop_first()
    } else {
        seq![s[0]] + tremove(s.drop_first(), k)
    }
}

/// The table after inserting every entry of `items`, in order.
pub open spec fn tinsert_all<V>(s: Seq<(Seq<u8>, V)>, items: Seq<(Seq<u8>, V)>) -> Seq<
    (Seq<u8>, V),
>
    decreases items.len(),
{
    if items.len() == 0 {
        s
    } else {
        tinsert(tinsert_all(s, items.drop_last()), items.last().0, items.last().1)
    }
}

/// The table after removing every key of `ks`, last first.
pub open spec fn tremove_all<V>(s: Seq<(Seq<u8>, V)>, ks: Seq<Seq<u8>>) -> Seq<(Seq<u8>, V)>
    decreases ks.len(),
{
    if ks.len() == 0 {
        s
    } else {
        tremove_all(tremove(s, ks.last()), ks.drop_last())
    }
}

/// Every entry of `tinsert(s, k, v)` is `(k, v)` or an entry of `s`, and the
/// length grows by one.
pub proof fn lemma_tinsert_elems<V>(s: Seq<(Seq<u8>, V)>, k: Seq<u8>, v: V)
    ensures
        tinsert(s, k, v).len() == s.len() + 1,
        forall|i: int|
            0 <= i < tinsert(s, k, v).len() ==> ((#[trigger] tinsert(s, k, v)[i]) == (k, v)
                || exists|j: int| 0 <= j < s.len() && tinsert(s, k, v)[i] == s[j]),
    decreases s.len(),
{
    if s.len() == 0 {
    } else if lex_lt(k, s[0].0) {
    } else {
        lemma_tinsert_elems(s.drop_first(), k, v);
        let t = tinsert(s, k, v);
        let t1 = tinsert(s.drop_first(), k, v);
        assert forall|i: int| 0 <= i < t.len() implies ((#[trigger] t[i]) == (k, v) || exists|j: int|
            0 <= j < s.len() && t[i] == s[j]) by {
            if i == 0 {
                assert(t[0] == s[0]);
            } else {
                assert(t[i] == t1[i - 1]);
                if t1[i - 1] == (k, v) {
                } else {
                    let j = choose|j: int| 0 <= j < s.drop_first().len() && t1[i - 1]
                        == s.drop_first()[j];
                    assert(s.drop_first()[j] == s[j + 1]);
                }
            }
        }
    }
}

/// Membership in an inserted table: the new key and the old ones.
pub proof fn lemma_tinsert_contains<V>(s: Seq<(Seq<u8>, V)>, k: Seq<u8>, v: V, x: Seq<u8>)
    ensures
        tbl_contains(tinsert(s, k, v), x) <==> (tbl_contains(s, x) || x == k),
    decreases s.len(),
{
    let t = tinsert(s, k, v);
    if s.len() == 0 {
        assert(t[0] == (k, v));
    } else if lex_lt(k, s[0].0) {
        assert(t[0] == (k, v));
        assert(forall|i: int| 0 <= i < s.len() ==> #[trigger] t[i + 1] == s[i]);
        if tbl_contains(s, x) {
            let i = choose|i: int| 0 <= i < s.len() && (#[trigger] s[i]).0 == x;
            assert(t[i + 1].0 == x);
        }
        if tbl_contains(t, x) && x != k {
            let i = choose|i: int| 0 <= i < t.len() && (#[trigger] t[i]).0 == x;
            assert(i >= 1 && s[i - 1].0 == x);
        }
    } else {
        lemma_tinsert_contains(s.drop_first(), k, v, x);
        let t1 = tinsert(s.drop_first(), k, v);
        assert(t[0] == s[0]);
        assert(forall|i: int| 0 <= i < t1.len() ==> #[trigger] t[i + 1] == t1[i]);
        if tbl_contains(s, x) {
            let i = choose|i: int| 0 <= i < s.len() && (#[trigger] s[i]).0 == x;
            if i == 0 {
                assert(t[0].0 == x);
            } else {
                assert(s.drop_first()[i - 1].0 == x);
                assert(tbl_contains(s.drop_first(), x));
                let j = choose|j: int| 0 <= j < t1.len() && (#[trigger] t1[j]).0 == x;
                assert(t[j + 1].0 == x);
            }
        }
        if x == k {
            let j = choose|j: int| 0 <= j < t1.len() && (#[trigger] t1[j]).0 == x;
            assert(t[j + 1].0 == x);
        }
        if tbl_contains(t, x) {
            let i = choose|i: int| 0 <= i < t.len() && (#[trigger] t[i]).0 == x;
            if i == 0 {
                assert(s[0].0 == x);
            } else {
                assert(t1[i - 1].0 == x);
                if x != k {
                    assert(tbl_contains(s.drop_first(), x));
                    let j = choose|j: int|
                        0 <= j < s.drop_first().len() && (#[trigger] s.drop_first()[j]).0 == x;
                    assert(s[j + 1].0 == x);
                }
            }
        }
    }
}

/// Inserting a fresh key keeps the table strictly sorted.
pub proof fn lemma_tinsert_sorted<V>(s: Seq<(Seq<u8>, V)>, k: Seq<u8>, v: V)
    requires
        tbl_sorted(s),
        !tbl_contains(s, k),
    ensures
        tbl_sorted(tinsert(s, k, v)),
    decreases s.len(),
{
    let t = tinsert(s, k, v);
    if s.len() == 0 {
    } else if lex_lt(k, s[0].0) {
        assert forall|i: int, j: int| 0 <= i < j < t.len() implies lex_lt(
            (#[trigger] t[i]).0,
            (#[trigger] t[j]).0,
        ) by {
            if i == 0 {
                assert(t[j] == s[j - 1]);
                if j == 1 {
                } else {
                    lemma_lex_trans(k, s[0].0, s[j - 1].0);
                }
            } else {
                assert(t[i] == s[i - 1] && t[j] == s[j - 1]);
            }
        }
    } else {
        assert(k != s[0].0);
        lemma_lex_connex(k, s[0].0);
        assert(lex_lt(s[0].0, k));
        assert(tbl_sorted(s.drop_first())) by {
            assert(forall|i: int|
                0 <= i < s.drop_first().len() ==> #[trigger] s.drop_first()[i] == s[i + 1]);
        }
        assert(!tbl_contains(s.drop_first(), k)) by {
            if tbl_contains(s.drop_first(), k) {
                let i = choose|i: int|
                    0 <= i < s.drop_first().len() && (#[trigger] s.drop_first()[i]).0 == k;
                assert(s[i + 1].0 == k);
            }
        }
        lemma_tinsert_sorted(s.drop_first(), k, v);
        lemma_tinsert_elems(s.drop_first(), k, v);
        let t1 = tinsert(s.drop_first(), k, v);
        assert forall|i: int, j: int| 0 <= i < j < t.len() implies lex_lt(
            (#[trigger] t[i]).0,
            (#[trigger] t[j]).0,
        ) by {
            if i == 0 {
                assert(t[0] == s[0]);
                assert(t[j] == t1[j - 1]);
                if t1[j - 1] == (k, v) {
                } else {
                    let m = choose|m: int|
                        0 <= m < s.drop_first().len() && t1[j - 1] == s.drop_first()[m];
                    assert(s.drop_first()[m] == s[m + 1]);
                }
            } else {
                assert(t[i] == t1[i - 1] && t[j] == t1[j - 1]);
            }
        }
    }
}

/// Removing the key just inserted restores the table exactly.
pub proof fn lemma_tremove_tinsert<V>(s: Seq<(Seq<u8>, V)>, k: Seq<u8>, v: V)
    requires
        !tbl_contains(s, k),
    ensures
        tremove(tinsert(s, k, v), k) == s,
    decreases s.len(),
{
    let t = tinsert(s, k, v);
    if s.len() == 0 {
        assert(t[0].0 == k);
        assert(t.drop_first() =~= s);
    } else if lex_lt(k, s[0].0) {
        assert(t[0].0 == k);
        assert(t.drop_first() =~= s);
    } else {
        assert(s[0].0 != k);
        assert(t[0] == s[0]);
        assert(t[0].0 != k);
        assert(!tbl_contains(s.drop_first(), k)) by {
            if tbl_contains(s.drop_first(), k) {
                let i = choose|i: int|
                    0 <= i < s.drop_first().len() && (#[trigger] s.drop_first()[i]).0 == k;
                assert(s[i + 1].0 == k);
            }
        }
        lemma_tremove_tinsert(s.drop_first(), k, v);
        assert(t.drop_first() =~= tinsert(s.drop_first(), k, v));
        assert(tremove(t, k) == seq![t[0]] + tremove(t.drop_first(), k));
        assert(seq![s[0]] + s.drop_first() =~= s);
    }
}

/// Membership in a table with one key removed, when keys are unique.
pub proof fn lemma_tremove_contains<V>(s: Seq<(Seq<u8>, V)>, k: Seq<u8>, x: Seq<u8>)
    requires
        tbl_sorted(s),
    ensures
        tbl_contains(tremove(s, k), x) <==> (tbl_contains(s, x) && x != k),
        tbl_contains(s, k) ==> tremove(s, k).len() == s.len() - 1,
        !tbl_contains(s, k) ==> tremove(s, k) == s,
    decreases s.len(),
{
    let t = tremove(s, k);
    if s.len() == 0 {
    } else if s[0].0 == k {
        assert(t =~= s.drop_first());
        assert(forall|i: int| 0 <= i < t.len() ==> #[trigger] t[i] == s[i + 1]);
        if tbl_contains(t, x) {
            let i = choose|i: int| 0 <= i < t.len() && (#[trigger] t[i]).0 == x;
            assert(s[i + 1].0 == x);
            if x == k {
                crate::order::lemma_lex_asym(s[0].0, s[i + 1].0);
                assert(lex_lt(s[0].0, s[i + 1].0));
                assert(false);
            }
        }
        if tbl_contains(s, x) && x != k {
            let i = choose|i: int| 0 <= i < s.len() && (#[trigger] s[i]).0 == x;
            assert(i >= 1);
            assert(t[i - 1].0 == x);
        }
        assert(s[0].0 == k);
    } else {
        assert(tbl_sorted(s.drop_first())) by {
            assert(forall|i: int|
                0 <= i < s.drop_first().len() ==> #[trigger] s.drop_first()[i] == s[i + 1]);
        }
        lemma_tremove_contains(s.drop_first(), k, x);
        let t1 = tremove(s.drop_first(), k);
        assert(t[0] == s[0]);
        assert(forall|i: int| 0 <= i < t1.len() ==> #[trigger] t[i + 1] == t1[i]);
        assert(forall|i: int|
            0 <= i < s.drop_first().len() ==> #[trigger] s.drop_first()[i] == s[i + 1]);
        if tbl_contains(s, x) && x != k {
            let i = choose|i: int| 0 <= i < s.len() && (#[trigger] s[i]).0 == x;
            if i == 0 {
                assert(t[0].0 == x);
            } else {
                assert(s.drop_first()[i - 1].0 == x);
                let j = choose|j: int| 0 <= j < t1.len() && (#[trigger] t1[j]).0 == x;
                assert(t[j + 1].0 == x);
            }
        }
        if tbl_contains(t, x) {
            let i = choose|i: int| 0 <= i < t.len() && (#[trigger] t[i]).0 == x;
            if i == 0 {
                assert(s[0].0 == x);
            } else {
                assert(t1[i - 1].0 == x);
                assert(tbl_contains(s.drop_first(), x));
                let j = choose|j: int|
                    0 <= j < s.drop_first().len() && (#[trigger] s.drop_first()[j]).0 == x;
                assert(s[j + 1].0 == x);
            }
        }
        if tbl_contains(s, k) {
            let i = choose|i: int| 0 <= i < s.len() && (#[trigger] s[i]).0 == k;
            assert(i >= 1);
            assert(s.drop_first()[i - 1].0 == k);
        }
        if !tbl_contains(s, k) {
            assert(t =~= seq![s[0]] + t1);
            assert(t1 == s.drop_first());
            assert(t =~= s);
        }
    }
}

/// Removing any key keeps the table strictly sorted.
pub proof fn lemma_tremove_sorted<V>(s: Seq<(Seq<u8>, V)>, k: Seq<u8>)
    requires
        tbl_sorted(s),
    ensures
        tbl_sorted(tremove(s, k)),
    decreases s.len(),
{
    let t = tremove(s, k);
    if s.len() == 0 {
    } else if s[0].0 == k {
        assert(forall|i: int| 0 <= i < t.len() ==> #[trigger] t[i] == s[i + 1]);
    } else {
        assert(tbl_sorted(s.drop_first())) by {
            assert(forall|i: int|
                0 <= i < s.drop_first().len() ==> #[trigger] s.drop_first()[i] == s[i + 1]);
        }
        lemma_tremove_sorted(s.drop_first(), k);
        lemma_tremove_contains(s.drop_first(), k, k);
        let t1 = tremove(s.drop_first(), k);
        assert forall|i: int, j: int| 0 <= i < j < t.len() implies lex_lt(
            (#[trigger] t[i]).0,
            (#[trigger] t[j]).0,
        ) by {
            assert(forall|m: int| 0 <= m < t1.len() ==> #[trigger] t[m + 1] == t1[m]);
            if i == 0 {
                assert(t[0] == s[0]);
                assert(tbl_contains(t1, t1[j - 1].0));
                lemma_tremove_contains(s.drop_first(), k, t1[j - 1].0);
                assert(tbl_contains(s.drop_first(), t[j].0));
                let m = choose|m: int|
                    0 <= m < s.drop_first().len() && (#[trigger] s.drop_first()[m]).0 == t[j].0;
                assert(s.drop_first()[m] == s[m + 1]);
            } else {
                assert(t[i] == t1[i - 1] && t[j] == t1[j - 1]);
            }
        }
    }
}

/// The keys of a batch of entries, in batch order.
pub open spec fn batch_keys<V>(items: Seq<(Seq<u8>, V)>) -> Seq<Seq<u8>> {
    items.map_values(|p: (Seq<u8>, V)| p.0)
}

/// Whether the keys of a batch are pairwise distinct.
pub open spec fn batch_distinct<V>(items: Seq<(Seq<u8>, V)>) -> bool {
    forall|i: int, j: int|
        0 <= i < j < items.len() ==> (#[trigger] items[i]).0 != (#[trigger] items[j]).0
}

/// Membership after inserting a whole batch.
pub proof fn lemma_tinsert_all_contains<V>(s: Seq<(Seq<u8>, V)>, items: Seq<(Seq<u8>, V)>, x: Seq<u8>)
    ensures
        tbl_contains(tinsert_all(s, items), x) <==> (tbl_contains(s, x) || tbl_contains(items, x)),
    decreases items.len(),
{
    if items.len() == 0 {
    } else {
        lemma_tinsert_all_contains(s, items.drop_last(), x);
        lemma_tinsert_contains(tinsert_all(s, items.drop_last()), items.last().0, items.last().1, x);
        assert(forall|i: int|
            0 <= i < items.len() - 1 ==> #[trigger] items.drop_last()[i] == items[i]);
        if tbl_contains(items, x) && x != items.last().0 {
            let i = choose|i: int| 0 <= i < items.len() && (#[trigger] items[i]).0 == x;
            assert(i < items.len() - 1);
            assert(items.drop_last()[i].0 == x);
        }
        if tbl_contains(items.drop_last(), x) {
            let i = choose|i: int|
                0 <= i < items.drop_last().len() && (#[trigger] items.drop_last()[i]).0 == x;
            assert(items[i].0 == x);
        }
    }
}

/// Inserting a batch of fresh, distinct keys keeps the table sorted.
pub proof fn lemma_tinsert_all_sorted<V>(s: Seq<(Seq<u8>, V)>, items: Seq<(Seq<u8>, V)>)
    requires
        tbl_sorted(s),
        batch_distinct(items),
        forall|i: int| 0 <= i < items.len() ==> !tbl_contains(s, (#[trigger] items[i]).0),
    ensures
        tbl_sorted(tinsert_all(s, items)),
    decreases items.len(),
{
    if items.len() == 0 {
    } else {
        assert(forall|i: int|
            0 <= i < items.len() - 1 ==> #[trigger] items.drop_last()[i] == items[i]);
        lemma_tinsert_all_sorted(s, items.drop_last());
        lemma_tinsert_all_contains(s, items.drop_last(), items.last().0);
        assert(!tbl_contains(items.drop_last(), items.last().0)) by {
            if tbl_contains(items.drop_last(), items.last().0) {
                let i = choose|i: int|
                    0 <= i < items.drop_last().len() && (#[trigger] items.drop_last()[i]).0
                        == items.last().0;
                assert(items[i].0 == items[items.len() - 1].0);
            }
        }
        lemma_tinsert_sorted(tinsert_all(s, items.drop_last()), items.last().0, items.last().1);
    }
}

/// Removing a connected batch's keys, last first, undoes inserting the batch.
pub proof fn lemma_tremove_all_tinsert_all<V>(s: Seq<(Seq<u8>, V)>, items: Seq<(Seq<u8>, V)>)
    requires
        batch_distinct(items),
        forall|i: int| 0 <= i < items.len() ==> !tbl_contains(s, (#[trigger] items[i]).0),
    ensures
        tremove_all(tinsert_all(s, items), batch_keys(items)) == s,
    decreases items.len(),
{
    if items.len() == 0 {
    } else {
        let ks = batch_keys(items);
        assert(ks.last() == items.last().0);
        assert(forall|i: int|
            0 <= i < items.len() - 1 ==> #[trigger] items.drop_last()[i] == items[i]);
        let t1 = tinsert_all(s, items.drop_last());
        lemma_tinsert_all_contains(s, items.drop_last(), items.last().0);
        assert(!tbl_contains(items.drop_last(), items.last().0)) by {
            if tbl_contains(items.drop_last(), items.last().0) {
                let i = choose|i: int|
                    0 <= i < items.drop_last().len() && (#[trigger] items.drop_last()[i]).0
                        == items.last().0;
                assert(items[i].0 == items[items.len() - 1].0);
            }
        }
        lemma_tremove_tinsert(t1, items.last().0, items.last().1);
        assert(ks.drop_last() =~= batch_keys(items.drop_last()));
        lemma_tremove_all_tinsert_all(s, items.drop_last());
    }
}

/// A property of every entry survives `tremove`.
pub proof fn lemma_tremove_entry_prop<V>(
    s: Seq<(Seq<u8>, V)>,
    k: Seq<u8>,
    p: spec_fn((Seq<u8>, V)) -> bool,
)
    requires
        forall|i: int| 0 <= i < s.len() ==> p(#[trigger] s[i]),
    ensures
        forall|i: int| 0 <= i < tremove(s, k).len() ==> p(#[trigger] tremove(s, k)[i]),
    decreases s.len(),
{
    let t = tremove(s, k);
    if s.len() == 0 {
    } else if s[0].0 == k {
        assert(forall|i: int| 0 <= i < t.len() ==> #[trigger] t[i] == s[i + 1]);
    } else {
        assert(forall|i: int|
            0 <= i < s.drop_first().len() ==> #[trigger] s.drop_first()[i] == s[i + 1]);
        lemma_tremove_entry_prop(s.drop_first(), k, p);
        let t1 = tremove(s.drop_first(), k);
        assert forall|i: int| 0 <= i < t.len() implies p(#[trigger] t[i]) by {
            if i == 0 {
                assert(t[0] == s[0]);
            } else {
                assert(t[i] == t1[i - 1]);
            }
        }
    }
}

/// A property of every entry of the table and of the batch holds of every
/// entry after inserting one batch entry.
pub proof fn lemma_tinsert_entry_prop<V>(
    s: Seq<(Seq<u8>, V)>,
    k: Seq<u8>,
    v: V,
    p: spec_fn((Seq<u8>, V)) -> bool,
)
    requires
        forall|i: int| 0 <= i < s.len() ==> p(#[trigger] s[i]),
        p((k, v)),
    ensures
        forall|i: int| 0 <= i < tinsert(s, k, v).len() ==> p(#[trigger] tinsert(s, k, v)[i]),
    decreases s.len(),
{
    let t = tinsert(s, k, v);
    if s.len() == 0 {
        assert(t[0] == (k, v));
    } else if lex_lt(k, s[0].0) {
        assert forall|i: int| 0 <= i < t.len() implies p(#[trigger] t[i]) by {
            if i == 0 {
                assert(t[0] == (k, v));
            } else {
                assert(t[i] == s[i - 1]);
            }
        }
    } else {
        assert(forall|i: int|
            0 <= i < s.drop_first().len() ==> #[trigger] s.drop_first()[i] == s[i + 1]);
        lemma_tinsert_entry_prop(s.drop_first(), k, v, p);
        let t1 = tinsert(s.drop_first(), k, v);
        assert forall|i: int| 0 <= i < t.len() implies p(#[trigger] t[i]) by {
            if i == 0 {
                assert(t[0] == s[0]);
            } else {
                assert(t[i] == t1[i - 1]);
            }
        }
    }
}

/// A property of every entry of the table and of the batch holds of every
/// entry after inserting the whole batch.
pub proof fn lemma_tinsert_all_entry_prop<V>(
    s: Seq<(Seq<u8>, V)>,
    items: Seq<(Seq<u8>, V)>,
    p: spec_fn((Seq<u8>, V)) -> bool,
)
    requires
        forall|i: int| 0 <= i < s.len() ==> p(#[trigger] s[i]),
        forall|i: int| 0 <= i < items.len() ==> p(#[trigger] items[i]),
    ensures
        forall|i: int|
            0 <= i < tinsert_all(s, items).len() ==> p(#[trigger] tinsert_all(s, items)[i]),
    decreases items.len(),
{
    if items.len() == 0 {
    } else {
        assert(forall|i: int|
            0 <= i < items.len() - 1 ==> #[trigger] items.drop_last()[i] == items[i]);
        lemma_tinsert_all_entry_prop(s, items.drop_last(), p);
        assert(p((items.last().0, items.last().1))) by {
            assert(items.last() == items[items.len() - 1]);
        }
        lemma_tinsert_entry_prop(tinsert_all(s, items.drop_last()), items.last().0, items.last().1, p);
    }
}

/// Membership, sortedness and entry properties after removing a key list.
pub proof fn lemma_tremove_all_facts<V>(s: Seq<(Seq<u8>, V)>, ks: Seq<Seq<u8>>, x: Seq<u8>)
    requires
        tbl_sorted(s),
    ensures
        tbl_sorted(tremove_all(s, ks)),
        tbl_contains(tremove_all(s, ks), x) <==> (tbl_contains(s, x) && !ks.contains(x)),
    decreases ks.len(),
{
    if ks.len() == 0 {
        if ks.contains(x) {
            let i = choose|i: int| 0 <= i < ks.len() && ks[i] == x;
        }
    } else {
        let s1 = tremove(s, ks.last());
        lemma_tremove_sorted(s, ks.last());
        lemma_tremove_contains(s, ks.last(), x);
        lemma_tremove_all_facts(s1, ks.drop_last(), x);
        assert(forall|i: int| 0 <= i < ks.len() - 1 ==> #[trigger] ks.drop_last()[i] == ks[i]);
        if ks.contains(x) {
            let i = choose|i: int| 0 <= i < ks.len() && ks[i] == x;
            if i < ks.len() - 1 {
                assert(ks.drop_last().contains(x)) by {
                    assert(ks.drop_last()[i] == x);
                }
            } else {
                assert(ks.last() == x);
            }
        }
        if ks.drop_last().contains(x) {
            let i = choose|i: int| 0 <= i < ks.drop_last().len() && ks.drop_last()[i] == x;
            assert(ks[i] == x);
        }
    }
}

/// A property of every entry survives removing a whole key list.
pub proof fn lemma_tremove_all_entry_prop<V>(
    s: Seq<(Seq<u8>, V)>,
    ks: Seq<Seq<u8>>,
    p: spec_fn((Seq<u8>, V)) -> bool,
)
    requires
        forall|i: int| 0 <= i < s.len() ==> p(#[trigger] s[i]),
    ensures
        forall|i: int| 0 <= i < tremove_all(s, ks).len() ==> p(#[trigger] tremove_all(s, ks)[i]),
    decreases ks.len(),
{
    if ks.len() == 0 {
        assert forall|i: int| 0 <= i < tremove_all(s, ks).len() implies p(
            #[trigger] tremove_all(s, ks)[i],
        ) by {
            assert(tremove_all(s, ks)[i] == s[i]);
        }
    } else {
        let s1 = tremove(s, ks.last());
        lemma_tremove_entry_prop(s, ks.last(), p);
        lemma_tremove_all_entry_prop(s1, ks.drop_last(), p);
        assert forall|i: int| 0 <= i < tremove_all(s, ks).len() implies p(
            #[trigger] tremove_all(s, ks)[i],
        ) by {
            assert(tremove_all(s, ks)[i] == tremove_all(s1, ks.drop_last())[i]);
        }
    }
}

/// The view of an executable table: each pair viewed.
pub open spec fn tbl_view<V: View>(s: Seq<(Vec<u8>, V)>) -> Seq<(Seq<u8>, V::V)> {
    s.map_values(|p: (Vec<u8>, V)| (p.0@, p.1@))
}

/// `tinsert` splices the new entry in at the first fitting index.
proof fn lemma_tinsert_splice<V>(s: Seq<(Seq<u8>, V)>, k: Seq<u8>, v: V, idx: int)
    requires
        0 <= idx <= s.len(),
        forall|m: int| 0 <= m < idx ==> !lex_lt(k, (#[trigger] s[m]).0),
        idx == s.len() || lex_lt(k, s[idx].0),
    ensures
        tinsert(s, k, v) == s.take(idx) + seq![(k, v)] + s.skip(idx),
    decreases idx,
{
    if idx == 0 {
        if s.len() == 0 {
            assert(tinsert(s, k, v) =~= s.take(0) + seq![(k, v)] + s.skip(0));
        } else {
            assert(lex_lt(k, s[0].0));
            assert(tinsert(s, k, v) =~= s.take(0) + seq![(k, v)] + s.skip(0));
        }
    } else {
        assert(!lex_lt(k, s[0].0));
        let d = s.drop_first();
        assert(forall|m: int| 0 <= m < idx - 1 ==> #[trigger] d[m] == s[m + 1]);
        lemma_tinsert_splice(d, k, v, idx - 1);
        assert(tinsert(s, k, v) == seq![s[0]] + tinsert(d, k, v));
        assert(seq![s[0]] + (d.take(idx - 1) + seq![(k, v)] + d.skip(idx - 1)) =~= s.take(idx)
            + seq![(k, v)] + s.skip(idx));
    }
}

/// `tremove` deletes exactly the first entry carrying the key.
proof fn lemma_tremove_splice<V>(s: Seq<(Seq<u8>, V)>, k: Seq<u8>, idx: int)
    requires
        0 <= idx < s.len(),
        forall|m: int| 0 <= m < idx ==> (#[trigger] s[m]).0 != k,
        s[idx].0 == k,
    ensures
        tremove(s, k) == s.take(idx) + s.skip(idx + 1),
    decreases idx,
{
    if idx == 0 {
        assert(tremove(s, k) =~= s.take(0) + s.skip(1));
    } else {
        let d = s.drop_first();
        assert(forall|m: int| 0 <= m < d.len() ==> #[trigger] d[m] == s[m + 1]);
        lemma_tremove_splice(d, k, idx - 1);
        assert(tremove(s, k) == seq![s[0]] + tremove(d, k));
        assert(seq![s[0]] + (d.take(idx - 1) + d.skip(idx)) =~= s.take(idx) + s.skip(idx + 1));
    }
}

/// Index of the first entry keyed `k`, if any.
pub fn tbl_find<V: View>(t: &Vec<(Vec<u8>, V)>, k: &Vec<u8>) -> (r: Option<usize>)
    ensures
        r matches Some(i) ==> i < t@.len() && tbl_view(t@)[i as int].0 == k@ && forall|m: int|
            0 <= m < i ==> (#[trigger] tbl_view(t@)[m]).0 != k@,
        r is None ==> !tbl_contains(tbl_view(t@), k@),
{
    let mut i: usize = 0;
    while i < t.len()
        invariant
            0 <= i <= t@.len(),
            forall|m: int| 0 <= m < i ==> (#[trigger] tbl_view(t@)[m]).0 != k@,
        decreases t@.len() - i,
    {
        let c = bytes_cmp(&t[i].0, k);
        if c == 1 {
            proof {
                assert(tbl_view(t@)[i as int].0 == t@[i as int].0@);
            }
            return Some(i);
        }
        proof {
            assert(tbl_view(t@)[i as int].0 == t@[i as int].0@);
        }
        i += 1;
    }
    proof {
        if tbl_contains(tbl_view(t@), k@) {
            let j = choose|j: int|
                0 <= j < tbl_view(t@).len() && (#[trigger] tbl_view(t@)[j]).0 == k@;
            assert(false);
        }
    }
    None
}

/// Whether the table holds the key.
pub fn tbl_has<V: View>(t: &Vec<(Vec<u8>, V)>, k: &Vec<u8>) -> (r: bool)
    ensures
        r == tbl_contains(tbl_view(t@), k@),
{
    match tbl_find(t, k) {
        Some(i) => {
            proof {
                assert(tbl_contains(tbl_view(t@), k@));
            }
            true
        },
        None => false,
    }
}

/// Insert a fresh key at its sorted position.
pub fn tbl_insert<V: View>(t: &mut Vec<(Vec<u8>, V)>, k: Vec<u8>, v: V)
    requires
        !tbl_contains(tbl_view(old(t)@), k@),
    ensures
        tbl_view(final(t)@) == tinsert(tbl_view(old(t)@), k@, v@),
{
    let ghost s0 = tbl_view(t@);
    let mut i: usize = 0;
    let mut stop = false;
    while !stop && i < t.len()
        invariant
            0 <= i <= t@.len(),
            t@ == old(t)@,
            forall|m: int| 0 <= m < i ==> !lex_lt(k@, (#[trigger] s0[m]).0),
            stop ==> i < t@.len() && lex_lt(k@, s0[i as int].0),
            s0 == tbl_view(t@),
            !tbl_contains(s0, k@),
        decreases t@.len() - i, if stop { 0int } else { 1int },
    {
        let c = bytes_cmp(&t[i].0, &k);
        proof {
            assert(s0[i as int].0 == t@[i as int].0@);
        }
        if c == 0 {
            proof {
                crate::order::lemma_lex_asym(t@[i as int].0@, k@);
            }
            i += 1;
        } else if c == 1 {
            proof {
                assert(s0[i as int].0 == k@);
                assert(tbl_contains(s0, k@));
                assert(false);
            }
            stop = true;
        } else {
            stop = true;
        }
    }
    proof {
        lemma_tinsert_splice(s0, k@, v@, i as int);
    }
    let ghost kv = (k@, v@);
    t.insert(i, (k, v));
    proof {
        assert(tbl_view(t@) =~= s0.take(i as int) + seq![kv] + s0.skip(i as int));
    }
}

/// Remove the entry keyed `k`.
pub fn tbl_remove<V: View>(t: &mut Vec<(Vec<u8>, V)>, k: &Vec<u8>)
    requires
        tbl_contains(tbl_view(old(t)@), k@),
    ensures
        tbl_view(final(t)@) == tremove(tbl_view(old(t)@), k@),
{
    let ghost s0 = tbl_view(t@);
    let r = tbl_find(t, k);
    proof {
        if r is None {
            assert(false);
        }
    }
    let i = match r {
        Some(i) => i,
        None => 0,
    };
    proof {
        lemma_tremove_splice(s0, k@, i as int);
    }
    t.remove(i);
    proof {
        assert(tbl_view(t@) =~= s0.take(i as int) + s0.skip(i as int + 1));
    }
}

} // verus!
