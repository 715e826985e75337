//! The order the names of an object's members sort in, and what ordering
//! a list of members by them does: it keeps every member, puts the names in
//! order where no two are alike, leaves a list already in order as it is,
//! and orders two lists with the same names alike.

use vstd::prelude::*;
use crate::form::{least, lemma_least, order, sorts_before};

verus! {

/// No name sorts before itself.
pub proof fn lemma_sorts_irreflexive(a: Seq<u8>)
    ensures
        !sorts_before(a, a),
    decreases a.len(),
{
    if a.len() > 0 {
        lemma_sorts_irreflexive(a.drop_first());
    }
}

/// Of two names, at most one sorts before the other.
pub proof fn lemma_sorts_asymmetric(a: Seq<u8>, b: Seq<u8>)
    ensures
        sorts_before(a, b) ==> !sorts_before(b, a),
    decreases a.len(),
{
    if a.len() > 0 && b.len() > 0 && a[0] == b[0] {
        lemma_sorts_asymmetric(a.drop_first(), b.drop_first());
    }
}

/// Sorting before is transitive.
pub proof fn lemma_sorts_transitive(a: Seq<u8>, b: Seq<u8>, c: Seq<u8>)
    ensures
        sorts_before(a, b) && sorts_before(b, c) ==> sorts_before(a, c),
    decreases a.len(),
{
    if a.len() > 0 && b.len() > 0 && c.len() > 0 && a[0] == b[0] && b[0] == c[0] {
        lemma_sorts_transitive(a.drop_first(), b.drop_first(), c.drop_first());
    }
}

/// Of two different names, one sorts before the other.
pub proof fn lemma_sorts_total(a: Seq<u8>, b: Seq<u8>)
    ensures
        a != b ==> sorts_before(a, b) || sorts_before(b, a),
    decreases a.len(),
{
    if a.len() > 0 && b.len() > 0 && a[0] == b[0] {
        lemma_sorts_total(a.drop_first(), b.drop_first());
        if a.drop_first() == b.drop_first() {
            assert(a =~= seq![a[0]] + a.drop_first());
            assert(b =~= seq![b[0]] + b.drop_first());
        }
    } else if a.len() == 0 && b.len() == 0 {
        assert(a =~= b);
    }
}

/// The first of `ps` whose name no other name sorts before is one no name
/// sorts before.
pub proof fn lemma_least_is_least<T>(ps: Seq<(Seq<u8>, T)>)
    requires
        ps.len() > 0,
    ensures
        0 <= least(ps) < ps.len(),
        forall|j: int| 0 <= j < ps.len() ==> !sorts_before(#[trigger] ps[j].0, ps[least(ps)].0),
    decreases ps.len(),
{
    lemma_least(ps);
    if ps.len() == 1 {
        lemma_sorts_irreflexive(ps[0].0);
    } else {
        let rest = ps.drop_last();
        lemma_least_is_least(rest);
        let k = least(rest);
        if sorts_before(ps.last().0, ps[k].0) {
            assert forall|j: int| 0 <= j < ps.len() implies !sorts_before(
                #[trigger] ps[j].0,
                ps[least(ps)].0,
            ) by {
                if j < ps.len() - 1 {
                    assert(ps[j] == rest[j]);
                    lemma_sorts_transitive(ps[j].0, ps.last().0, ps[k].0);
                } else {
                    lemma_sorts_irreflexive(ps.last().0);
                }
            }
        } else {
            assert forall|j: int| 0 <= j < ps.len() implies !sorts_before(
                #[trigger] ps[j].0,
                ps[least(ps)].0,
            ) by {
                if j < ps.len() - 1 {
                    assert(ps[j] == rest[j]);
                }
            }
        }
    }
}

/// Whether the names of `ps` are in the order they sort in, each before the
/// next, so no two are the same.
pub open spec fn strictly_sorted<T>(ps: Seq<(Seq<u8>, T)>) -> bool {
    forall|i: int, j: int| 0 <= i < j < ps.len() ==> sorts_before(#[trigger] ps[i].0, #[trigger] ps[j].0)
}

/// Whether no two of `ps` have the same name.
pub open spec fn distinct_names<T>(ps: Seq<(Seq<u8>, T)>) -> bool {
    forall|i: int, j: int| 0 <= i < j < ps.len() ==> #[trigger] ps[i].0 != #[trigger] ps[j].0
}

/// Where the names are in order, the first is the least.
proof fn lemma_least_of_sorted<T>(ps: Seq<(Seq<u8>, T)>)
    requires
        ps.len() > 0,
        strictly_sorted(ps),
    ensures
        least(ps) == 0,
    decreases ps.len(),
{
    if ps.len() > 1 {
        let rest = ps.drop_last();
        assert(strictly_sorted(rest)) by {
            assert forall|i: int, j: int| 0 <= i < j < rest.len() implies sorts_before(
                #[trigger] rest[i].0,
                #[trigger] rest[j].0,
            ) by {
                assert(rest[i] == ps[i] && rest[j] == ps[j]);
            }
        }
        lemma_least_of_sorted(rest);
        assert(sorts_before(ps[0].0, ps[ps.len() - 1].0));
        lemma_sorts_asymmetric(ps[0].0, ps.last().0);
    }
}

/// Names already in order are left in that order.
pub proof fn lemma_order_of_sorted<T>(ps: Seq<(Seq<u8>, T)>)
    requires
        strictly_sorted(ps),
    ensures
        order(ps) == ps,
    decreases ps.len(),
{
    if ps.len() > 0 {
        lemma_least_of_sorted(ps);
        let rest = ps.remove(0);
        assert(rest =~= ps.drop_first());
        assert(strictly_sorted(rest)) by {
            assert forall|i: int, j: int| 0 <= i < j < rest.len() implies sorts_before(
                #[trigger] rest[i].0,
                #[trigger] rest[j].0,
            ) by {
                assert(rest[i] == ps[i + 1] && rest[j] == ps[j + 1]);
            }
        }
        lemma_order_of_sorted(rest);
        assert(order(ps) == seq![ps[0]] + order(rest));
        assert(seq![ps[0]] + rest =~= ps);
    }
}

/// Ordering keeps every item: each item of the result is an item of the
/// list, and the two are as long.
pub proof fn lemma_order_keeps<T>(ps: Seq<(Seq<u8>, T)>)
    ensures
        order(ps).len() == ps.len(),
        forall|i: int|
            0 <= i < order(ps).len() ==> exists|j: int|
                0 <= j < ps.len() && #[trigger] order(ps)[i] == ps[j],
    decreases ps.len(),
{
    if ps.len() > 0 {
        lemma_least(ps);
        let k = least(ps);
        let rest = ps.remove(k);
        lemma_order_keeps(rest);
        assert(order(ps) == seq![ps[k]] + order(rest));
        assert forall|i: int| 0 <= i < order(ps).len() implies exists|j: int|
            0 <= j < ps.len() && #[trigger] order(ps)[i] == ps[j] by {
            if i == 0 {
                assert(order(ps)[0] == ps[k]);
            } else {
                assert(order(ps)[i] == order(rest)[i - 1]);
                let j0 = choose|j: int| 0 <= j < rest.len() && order(rest)[i - 1] == rest[j];
                if j0 < k {
                    assert(rest[j0] == ps[j0]);
                } else {
                    assert(rest[j0] == ps[j0 + 1]);
                }
            }
        }
    }
}

/// Where no two names are the same, ordering puts them in the order they
/// sort in.
pub proof fn lemma_order_sorts<T>(ps: Seq<(Seq<u8>, T)>)
    requires
        distinct_names(ps),
    ensures
        strictly_sorted(order(ps)),
    decreases ps.len(),
{
    if ps.len() > 0 {
        lemma_least_is_least(ps);
        let k = least(ps);
        let rest = ps.remove(k);
        assert(distinct_names(rest)) by {
            assert forall|i: int, j: int| 0 <= i < j < rest.len() implies #[trigger] rest[i].0
                != #[trigger] rest[j].0 by {
                let a = if i < k {
                    i
                } else {
                    i + 1
                };
                let b = if j < k {
                    j
                } else {
                    j + 1
                };
                assert(rest[i] == ps[a] && rest[j] == ps[b]);
            }
        }
        lemma_order_sorts(rest);
        lemma_order_keeps(rest);
        let o = order(ps);
        assert(o == seq![ps[k]] + order(rest));
        assert forall|i: int, j: int| 0 <= i < j < o.len() implies sorts_before(
            #[trigger] o[i].0,
            #[trigger] o[j].0,
        ) by {
            assert(o[j] == order(rest)[j - 1]);
            if i == 0 {
                let m = choose|m: int| 0 <= m < rest.len() && order(rest)[j - 1] == rest[m];
                let b = if m < k {
                    m
                } else {
                    m + 1
                };
                assert(rest[m] == ps[b]);
                assert(b != k);
                assert(ps[b].0 != ps[k].0);
                assert(!sorts_before(ps[b].0, ps[k].0));
                lemma_sorts_total(ps[k].0, ps[b].0);
            } else {
                assert(o[i] == order(rest)[i - 1]);
            }
        }
    }
}

/// Two lists with the same names, in the same places, are ordered alike:
/// the item at each place of the one ordering and the item at that place of
/// the other come from the same place.
pub proof fn lemma_order_alike<A, B>(ps: Seq<(Seq<u8>, A)>, qs: Seq<(Seq<u8>, B)>)
    requires
        ps.len() == qs.len(),
        forall|i: int| 0 <= i < ps.len() ==> #[trigger] ps[i].0 == qs[i].0,
    ensures
        order(ps).len() == ps.len(),
        order(qs).len() == qs.len(),
        forall|i: int|
            0 <= i < ps.len() ==> exists|j: int|
                0 <= j < ps.len() && #[trigger] order(ps)[i] == ps[j] && order(qs)[i] == qs[j],
    decreases ps.len(),
{
    lemma_order_keeps(ps);
    lemma_order_keeps(qs);
    if ps.len() > 0 {
        lemma_least_alike(ps, qs);
        lemma_least(ps);
        let k = least(ps);
        let pr = ps.remove(k);
        let qr = qs.remove(k);
        assert forall|i: int| 0 <= i < pr.len() implies #[trigger] pr[i].0 == qr[i].0 by {
            if i < k {
                assert(pr[i] == ps[i] && qr[i] == qs[i]);
            } else {
                assert(pr[i] == ps[i + 1] && qr[i] == qs[i + 1]);
            }
        }
        lemma_order_alike(pr, qr);
        assert(order(ps) == seq![ps[k]] + order(pr));
        assert(order(qs) == seq![qs[k]] + order(qr));
        assert forall|i: int| 0 <= i < ps.len() implies exists|j: int|
            0 <= j < ps.len() && #[trigger] order(ps)[i] == ps[j] && order(qs)[i] == qs[j] by {
            if i == 0 {
                assert(order(ps)[0] == ps[k] && order(qs)[0] == qs[k]);
            } else {
                assert(order(ps)[i] == order(pr)[i - 1]);
                assert(order(qs)[i] == order(qr)[i - 1]);
                let m = choose|m: int|
                    0 <= m < pr.len() && #[trigger] order(pr)[i - 1] == pr[m] && order(qr)[i - 1]
                        == qr[m];
                if m < k {
                    assert(pr[m] == ps[m] && qr[m] == qs[m]);
                } else {
                    assert(pr[m] == ps[m + 1] && qr[m] == qs[m + 1]);
                }
            }
        }
    }
}

proof fn lemma_least_alike<A, B>(ps: Seq<(Seq<u8>, A)>, qs: Seq<(Seq<u8>, B)>)
    requires
        ps.len() == qs.len(),
        forall|i: int| 0 <= i < ps.len() ==> #[trigger] ps[i].0 == qs[i].0,
    ensures
        least(ps) == least(qs),
    decreases ps.len(),
{
    if ps.len() > 1 {
        let pr = ps.drop_last();
        let qr = qs.drop_last();
        assert forall|i: int| 0 <= i < pr.len() implies #[trigger] pr[i].0 == qr[i].0 by {
            assert(pr[i] == ps[i] && qr[i] == qs[i]);
        }
        lemma_least_alike(pr, qr);
        lemma_least(pr);
        assert(ps.last().0 == qs.last().0);
        assert(ps[least(pr)].0 == qs[least(pr)].0);
    }
}

} // verus!
