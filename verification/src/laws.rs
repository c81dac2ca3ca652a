//! Properties of runs of table operations, stated over the mapping
//! model that the operation contracts of `store` use.

use vstd::prelude::*;

verus! {

use crate::store::lists_values_of;

/// The table after a run of create operations, each inserting its
/// price under its identifier in turn.
pub open spec fn apply_creates(m0: Map<u128, u64>, ops: Seq<(u128, u64)>) -> Map<u128, u64>
    decreases ops.len(),
{
    if ops.len() == 0 {
        m0
    } else {
        apply_creates(m0, ops.drop_last()).insert(ops.last().0, ops.last().1)
    }
}

/// Each create in the run hands out an identifier that is absent from
/// the table at its point, exactly what `PriceStore::create` ensures
/// of every call.
pub open spec fn creates_fresh(m0: Map<u128, u64>, ops: Seq<(u128, u64)>) -> bool {
    forall|i: int|
        0 <= i < ops.len() ==> !apply_creates(m0, #[trigger] ops.take(i)).contains_key(ops[i].0)
}

/// A run of creates hands out pairwise-distinct identifiers; when the
/// run is over, each identifier still holds exactly the price supplied
/// at its creation, and the table has grown by one record per create.
pub proof fn lemma_creates_distinct(m0: Map<u128, u64>, ops: Seq<(u128, u64)>)
    requires
        creates_fresh(m0, ops),
        m0.dom().finite(),
    ensures
        forall|i: int, j: int| 0 <= i < j < ops.len() ==> ops[i].0 != ops[j].0,
        forall|i: int|
            0 <= i < ops.len() ==> apply_creates(m0, ops).contains_key(#[trigger] ops[i].0)
                && apply_creates(m0, ops)[ops[i].0] == ops[i].1,
        apply_creates(m0, ops).dom().finite(),
        apply_creates(m0, ops).dom().len() == m0.dom().len() + ops.len(),
    decreases ops.len(),
{
    if ops.len() > 0 {
        let o0 = ops.drop_last();
        assert forall|i: int| 0 <= i < o0.len() implies !apply_creates(
            m0,
            #[trigger] o0.take(i),
        ).contains_key(o0[i].0) by {
            assert(o0.take(i) =~= ops.take(i));
            assert(o0[i] == ops[i]);
        }
        lemma_creates_distinct(m0, o0);
        assert(ops.take(ops.len() - 1) =~= o0);
        let last = ops.last();
        assert(!apply_creates(m0, o0).contains_key(last.0));
        assert forall|i: int, j: int| 0 <= i < j < ops.len() implies ops[i].0 != ops[j].0 by {
            if j < ops.len() - 1 {
                assert(o0[i] == ops[i] && o0[j] == ops[j]);
            } else {
                assert(o0[i] == ops[i]);
                assert(apply_creates(m0, o0).contains_key(o0[i].0));
            }
        }
        assert forall|i: int| 0 <= i < ops.len() implies apply_creates(m0, ops).contains_key(
            #[trigger] ops[i].0,
        ) && apply_creates(m0, ops)[ops[i].0] == ops[i].1 by {
            if i < ops.len() - 1 {
                assert(o0[i] == ops[i]);
                assert(apply_creates(m0, o0).contains_key(ops[i].0));
                assert(ops[i].0 != last.0);
            }
        }
    }
}

proof fn lemma_apply_creates_dom(m0: Map<u128, u64>, ops: Seq<(u128, u64)>, k: u128)
    ensures
        apply_creates(m0, ops).contains_key(k) <==> m0.contains_key(k) || exists|i: int|
            0 <= i < ops.len() && ops[i].0 == k,
    decreases ops.len(),
{
    if ops.len() > 0 {
        let o0 = ops.drop_last();
        lemma_apply_creates_dom(m0, o0, k);
        if apply_creates(m0, ops).contains_key(k) && ops.last().0 != k && !m0.contains_key(k) {
            let i = choose|i: int| 0 <= i < o0.len() && o0[i].0 == k;
            assert(ops[i].0 == k);
        }
        if exists|i: int| 0 <= i < ops.len() && ops[i].0 == k {
            let i = choose|i: int| 0 <= i < ops.len() && ops[i].0 == k;
            if i < ops.len() - 1 {
                assert(o0[i].0 == k);
            }
        }
    }
}

/// Mapping a function over two duplicate-free orderings of the same
/// key set yields the same multiset of results.
proof fn lemma_map_permuted(f: spec_fn(u128) -> u64, ks1: Seq<u128>, ks2: Seq<u128>)
    requires
        ks1.no_duplicates(),
        ks2.no_duplicates(),
        ks1.to_set() == ks2.to_set(),
    ensures
        ks1.map_values(f).to_multiset() == ks2.map_values(f).to_multiset(),
    decreases ks1.len(),
{
    broadcast use vstd::seq_lib::group_to_multiset_ensures;

    if ks1.len() == 0 {
        if ks2.len() > 0 {
            assert(ks2.contains(ks2[0]));
            assert(ks1.to_set().contains(ks2[0]));
        }
        assert(ks1.map_values(f) =~= Seq::<u64>::empty());
        assert(ks2.map_values(f) =~= Seq::<u64>::empty());
        assert(ks1.map_values(f).to_multiset() =~= ks2.map_values(f).to_multiset());
    } else {
        let k = ks1.last();
        assert(ks1.contains(k));
        assert(ks2.to_set().contains(k));
        assert(ks2.contains(k));
        let j = choose|j: int| 0 <= j < ks2.len() && ks2[j] == k;
        let ks1p = ks1.drop_last();
        let ks2p = ks2.remove(j);
        assert(forall|p: int, q: int| 0 <= p < q < ks1p.len() ==> ks1p[p] != ks1p[q]);
        assert(forall|p: int, q: int| 0 <= p < q < ks2p.len() ==> ks2p[p] != ks2p[q]);
        assert forall|x: u128| ks1p.to_set().contains(x) == ks2p.to_set().contains(x) by {
            if ks1p.to_set().contains(x) {
                let p = choose|p: int| 0 <= p < ks1p.len() && ks1p[p] == x;
                assert(ks1[p] == x);
                assert(x != k);
                assert(ks1.contains(x));
                assert(ks1.to_set().contains(x));
                assert(ks2.to_set().contains(x));
                assert(ks2.contains(x));
                let q = choose|q: int| 0 <= q < ks2.len() && ks2[q] == x;
                assert(q != j);
                if q < j {
                    assert(ks2p[q] == x);
                } else {
                    assert(ks2p[q - 1] == x);
                }
                assert(ks2p.contains(x));
            }
            if ks2p.to_set().contains(x) {
                let q = choose|q: int| 0 <= q < ks2p.len() && ks2p[q] == x;
                if q < j {
                    assert(ks2[q] == x);
                } else {
                    assert(ks2[q + 1] == x);
                }
                assert(x != k);
                assert(ks2.contains(x));
                assert(ks2.to_set().contains(x));
                assert(ks1.to_set().contains(x));
                assert(ks1.contains(x));
                let p = choose|p: int| 0 <= p < ks1.len() && ks1[p] == x;
                assert(p < ks1.len() - 1);
                assert(ks1p[p] == x);
                assert(ks1p.contains(x));
            }
        }
        assert(ks1p.to_set() =~= ks2p.to_set());
        lemma_map_permuted(f, ks1p, ks2p);
        assert(ks1.map_values(f) =~= ks1p.map_values(f).push(f(k)));
        assert(ks2p.map_values(f) =~= ks2.map_values(f).remove(j));
        assert(ks2.map_values(f)[j] == f(k));
        assert(ks2.map_values(f).remove(j).to_multiset() =~= ks2.map_values(f).to_multiset()
            .remove(f(k)));
        assert(ks2.map_values(f).to_multiset().count(f(k)) > 0) by {
            assert(ks2.map_values(f).contains(f(k)));
        }
        assert(ks2.map_values(f).to_multiset() =~= ks2.map_values(f).to_multiset().remove(
            f(k),
        ).insert(f(k)));
        assert(ks1p.map_values(f).push(f(k)).to_multiset() =~= ks1p.map_values(
            f,
        ).to_multiset().insert(f(k)));
    }
}

/// After a run of creates over an initially empty table, listing the
/// table yields one value per create: exactly the multiset of the
/// prices supplied, in some order.
pub proof fn lemma_list_after_creates(ops: Seq<(u128, u64)>, r: Seq<u64>)
    requires
        creates_fresh(Map::<u128, u64>::empty(), ops),
        lists_values_of(r, apply_creates(Map::<u128, u64>::empty(), ops)),
    ensures
        r.len() == ops.len(),
        r.to_multiset() == ops.map_values(|p: (u128, u64)| p.1).to_multiset(),
{
    let m0 = Map::<u128, u64>::empty();
    let m = apply_creates(m0, ops);
    lemma_creates_distinct(m0, ops);
    let ids = ops.map_values(|p: (u128, u64)| p.0);
    assert(ids.no_duplicates());
    assert forall|k: u128| m.dom().contains(k) == ids.to_set().contains(k) by {
        lemma_apply_creates_dom(m0, ops, k);
        if m.dom().contains(k) {
            let i = choose|i: int| 0 <= i < ops.len() && ops[i].0 == k;
            assert(ids[i] == k);
            assert(ids.contains(k));
        }
        if ids.to_set().contains(k) {
            let i = choose|i: int| 0 <= i < ids.len() && ids[i] == k;
            assert(ops[i].0 == k);
        }
    }
    assert(m.dom() =~= ids.to_set());
    let ks = choose|ks: Seq<u128>|
        #[trigger] ks.no_duplicates() && ks.to_set() == m.dom() && r == ks.map_values(
            |k: u128| m[k],
        );
    let f = |k: u128| m[k];
    lemma_map_permuted(f, ks, ids);
    assert forall|i: int| 0 <= i < ops.len() implies ids.map_values(f)[i] == ops.map_values(
        |p: (u128, u64)| p.1,
    )[i] by {
        assert(ids[i] == (#[trigger] ops[i]).0);
        assert(m.contains_key(ops[i].0) && m[ops[i].0] == ops[i].1);
    }
    assert(ids.map_values(f) =~= ops.map_values(|p: (u128, u64)| p.1));
    ks.unique_seq_to_set();
    assert(m0.dom() =~= Set::<u128>::empty());
    assert(r.len() == ks.len());
}

/// Updating an existing record and then reading that identifier yields
/// the price just written.
pub proof fn lemma_update_then_get(m: Map<u128, u64>, id: u128, price: u64)
    requires
        m.contains_key(id),
    ensures
        m.insert(id, price).contains_key(id),
        m.insert(id, price)[id] == price,
{
}

/// After a delete, a read of the same identifier finds nothing, and no
/// other record is touched.
pub proof fn lemma_delete_then_get(m: Map<u128, u64>, id: u128)
    ensures
        !m.remove(id).contains_key(id),
        forall|k: u128| k != id ==> m.remove(id).contains_key(k) == m.contains_key(k),
        forall|k: u128| k != id && m.contains_key(k) ==> m.remove(id)[k] == m[k],
{
}

} // verus!
