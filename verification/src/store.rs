//! The price table: a mapping from generated identifiers to price values.

use vstd::prelude::*;

verus! {

/// The mapping described by a sequence of key/value entries:
/// each entry in turn is inserted into an initially empty map.
pub open spec fn entries_map(s: Seq<(u128, u64)>) -> Map<u128, u64>
    decreases s.len(),
{
    if s.len() == 0 {
        Map::empty()
    } else {
        entries_map(s.drop_last()).insert(s.last().0, s.last().1)
    }
}

/// No identifier occurs twice in the entry sequence.
pub open spec fn keys_distinct(s: Seq<(u128, u64)>) -> bool {
    forall|i: int, j: int| 0 <= i < j < s.len() ==> s[i].0 != s[j].0
}

proof fn lemma_entries_map_contains(s: Seq<(u128, u64)>, k: u128)
    ensures
        entries_map(s).contains_key(k) <==> exists|i: int| 0 <= i < s.len() && s[i].0 == k,
    decreases s.len(),
{
    if s.len() > 0 {
        let s0 = s.drop_last();
        lemma_entries_map_contains(s0, k);
        if entries_map(s).contains_key(k) && s.last().0 != k {
            let i = choose|i: int| 0 <= i < s0.len() && s0[i].0 == k;
            assert(s[i].0 == k);
        }
        if exists|i: int| 0 <= i < s.len() && s[i].0 == k {
            let i = choose|i: int| 0 <= i < s.len() && s[i].0 == k;
            if i < s.len() - 1 {
                assert(s0[i].0 == k);
            }
        }
    }
}

proof fn lemma_entries_map_value(s: Seq<(u128, u64)>, i: int)
    requires
        keys_distinct(s),
        0 <= i < s.len(),
    ensures
        entries_map(s).contains_key(s[i].0),
        entries_map(s)[s[i].0] == s[i].1,
    decreases s.len(),
{
    if i < s.len() - 1 {
        let s0 = s.drop_last();
        assert(keys_distinct(s0));
        lemma_entries_map_value(s0, i);
        assert(s.last().0 != s[i].0);
    }
}

proof fn lemma_entries_map_push(s: Seq<(u128, u64)>, k: u128, v: u64)
    ensures
        entries_map(s.push((k, v))) == entries_map(s).insert(k, v),
{
    assert(s.push((k, v)).drop_last() =~= s);
}

proof fn lemma_entries_map_update(s: Seq<(u128, u64)>, i: int, v: u64)
    requires
        keys_distinct(s),
        0 <= i < s.len(),
    ensures
        entries_map(s.update(i, (s[i].0, v))) == entries_map(s).insert(s[i].0, v),
    decreases s.len(),
{
    let k = s[i].0;
    let t = s.update(i, (k, v));
    if i == s.len() - 1 {
        assert(t.drop_last() =~= s.drop_last());
        assert(entries_map(s.drop_last()).insert(k, s[i].1).insert(k, v) =~= entries_map(
            s.drop_last(),
        ).insert(k, v));
    } else {
        let s0 = s.drop_last();
        assert(keys_distinct(s0));
        lemma_entries_map_update(s0, i, v);
        assert(t.drop_last() =~= s0.update(i, (k, v)));
        assert(t.last() == s.last());
        assert(s.last().0 != k);
        assert(entries_map(s0).insert(k, v).insert(s.last().0, s.last().1) =~= entries_map(
            s0,
        ).insert(s.last().0, s.last().1).insert(k, v));
    }
}

proof fn lemma_entries_map_remove(s: Seq<(u128, u64)>, i: int)
    requires
        keys_distinct(s),
        0 <= i < s.len(),
    ensures
        entries_map(s.remove(i)) == entries_map(s).remove(s[i].0),
    decreases s.len(),
{
    let k = s[i].0;
    if i == s.len() - 1 {
        assert(s.remove(i) =~= s.drop_last());
        lemma_entries_map_contains(s.drop_last(), k);
        assert(forall|j: int|
            0 <= j < s.drop_last().len() ==> s.drop_last()[j].0 == s[j].0 && s[j].0 != k);
        assert(!entries_map(s.drop_last()).contains_key(k));
        assert(entries_map(s.drop_last()).insert(k, s[i].1).remove(k) =~= entries_map(
            s.drop_last(),
        ));
    } else {
        let s0 = s.drop_last();
        assert(keys_distinct(s0));
        lemma_entries_map_remove(s0, i);
        assert(s.remove(i).drop_last() =~= s0.remove(i));
        assert(s.remove(i).last() == s.last());
        assert(s.last().0 != k);
        assert(entries_map(s0).remove(k).insert(s.last().0, s.last().1) =~= entries_map(
            s0,
        ).insert(s.last().0, s.last().1).remove(k));
    }
}

/// With distinct keys, the mapping holds exactly one entry per key.
proof fn lemma_entries_map_dom(s: Seq<(u128, u64)>)
    requires
        keys_distinct(s),
    ensures
        entries_map(s).dom().finite(),
        entries_map(s).dom().len() == s.len(),
    decreases s.len(),
{
    if s.len() > 0 {
        let s0 = s.drop_last();
        assert(keys_distinct(s0));
        lemma_entries_map_dom(s0);
        lemma_entries_map_contains(s0, s.last().0);
        assert(forall|j: int| 0 <= j < s0.len() ==> s0[j].0 == s[j].0 && s[j].0 != s.last().0);
        assert(!entries_map(s0).contains_key(s.last().0));
    }
}

/// The identifiers strictly below a bound.
spec fn below_set(n: u128) -> Set<u128> {
    Set::new(|x: u128| x < n)
}

proof fn lemma_below_set_len(n: u128)
    ensures
        below_set(n).finite(),
        below_set(n).len() == n,
    decreases n,
{
    if n == 0 {
        assert(below_set(0) =~= Set::empty());
    } else {
        let m = (n - 1) as u128;
        lemma_below_set_len(m);
        assert(below_set(n) =~= below_set(m).insert(m));
    }
}

/// Pigeonhole: a table with at most `n` records leaves some identifier
/// no larger than `n` unused.
proof fn lemma_fresh_id_exists(m: Map<u128, u64>, n: u128)
    requires
        m.dom().finite(),
        m.dom().len() <= n,
        n < u128::MAX,
    ensures
        exists|x: u128| x <= n && !m.contains_key(x),
{
    if forall|x: u128| x <= n ==> m.contains_key(x) {
        let b = (n + 1) as u128;
        lemma_below_set_len(b);
        assert(below_set(b).subset_of(m.dom()));
        vstd::set_lib::lemma_len_subset(below_set(b), m.dom());
        assert(false);
    }
}

/// Relies on uuid::Uuid::new_v4 to draw a fresh random 128-bit
/// identifier; nothing is promised of the value that comes back.
#[verifier::external_body]
fn mint_id() -> u128 {
    uuid::Uuid::new_v4().as_u128()
}

/// What it means for a sequence of values to list a mapping: reading
/// the mapping along some ordering of its keys yields exactly these
/// values, so the sequence is the mapping's values in an unspecified
/// order.
pub open spec fn lists_values_of(r: Seq<u64>, m: Map<u128, u64>) -> bool {
    exists|ks: Seq<u128>|
        #[trigger] ks.no_duplicates() && ks.to_set() == m.dom() && r == ks.map_values(
            |k: u128| m[k],
        )
}

/// An in-memory table of price records: each record pairs a generated
/// 128-bit identifier with one non-negative price value.
pub struct PriceStore {
    entries: Vec<(u128, u64)>,
}

impl View for PriceStore {
    type V = Map<u128, u64>;

    closed spec fn view(&self) -> Map<u128, u64> {
        entries_map(self.entries@)
    }
}

impl PriceStore {
    #[verifier::type_invariant]
    spec fn inv(self) -> bool {
        keys_distinct(self.entries@)
    }

    /// A store that holds no records at all.
    pub fn new() -> (s: PriceStore)
        ensures
            s@ == Map::<u128, u64>::empty(),
    {
        PriceStore { entries: Vec::new() }
    }

    /// Whether a record with this identifier is present.
    pub fn contains(&self, id: u128) -> (r: bool)
        ensures
            r == self@.contains_key(id),
    {
        let n = self.entries.len();
        let mut i: usize = 0;
        while i < n
            invariant
                n == self.entries@.len(),
                0 <= i <= n,
                forall|j: int| 0 <= j < i ==> self.entries@[j].0 != id,
            decreases n - i,
        {
            if self.entries[i].0 == id {
                proof {
                    lemma_entries_map_contains(self.entries@, id);
                }
                return true;
            }
            i += 1;
        }
        proof {
            lemma_entries_map_contains(self.entries@, id);
        }
        false
    }

    /// The price recorded under this identifier, if any.
    pub fn get(&self, id: u128) -> (r: Option<u64>)
        ensures
            r == if self@.contains_key(id) {
                Some(self@[id])
            } else {
                None::<u64>
            },
    {
        proof {
            use_type_invariant(&*self);
        }
        let n = self.entries.len();
        let mut i: usize = 0;
        while i < n
            invariant
                n == self.entries@.len(),
                0 <= i <= n,
                forall|j: int| 0 <= j < i ==> self.entries@[j].0 != id,
                keys_distinct(self.entries@),
            decreases n - i,
        {
            if self.entries[i].0 == id {
                proof {
                    lemma_entries_map_value(self.entries@, i as int);
                }
                return Some(self.entries[i].1);
            }
            i += 1;
        }
        proof {
            lemma_entries_map_contains(self.entries@, id);
        }
        None
    }

    /// How many records the store holds.
    pub fn len(&self) -> (n: usize)
        ensures
            n == self@.dom().len(),
    {
        proof {
            use_type_invariant(&*self);
            lemma_entries_map_dom(self.entries@);
        }
        self.entries.len()
    }

    /// All current price values, read off in some key order.
    pub fn list(&self) -> (r: Vec<u64>)
        ensures
            lists_values_of(r@, self@),
            r@.len() == self@.dom().len(),
    {
        proof {
            use_type_invariant(&*self);
            lemma_entries_map_dom(self.entries@);
        }
        let n = self.entries.len();
        let mut r: Vec<u64> = Vec::new();
        let mut i: usize = 0;
        while i < n
            invariant
                n == self.entries@.len(),
                0 <= i <= n,
                r@ == self.entries@.take(i as int).map_values(|p: (u128, u64)| p.1),
            decreases n - i,
        {
            let v = self.entries[i].1;
            proof {
                let s = self.entries@;
                assert(s.take(i as int + 1) =~= s.take(i as int).push(s[i as int]));
                assert(s.take(i as int + 1).map_values(|p: (u128, u64)| p.1) =~= r@.push(v));
            }
            r.push(v);
            i += 1;
        }
        proof {
            let s = self.entries@;
            assert(s.take(n as int) =~= s);
            let ks = s.map_values(|p: (u128, u64)| p.0);
            assert(ks.no_duplicates());
            assert forall|k: u128| ks.to_set().contains(k) == self@.dom().contains(k) by {
                lemma_entries_map_contains(s, k);
                if ks.to_set().contains(k) {
                    let j = choose|j: int| 0 <= j < ks.len() && ks[j] == k;
                    assert(s[j].0 == k);
                }
                if self@.dom().contains(k) {
                    let j = choose|j: int| 0 <= j < s.len() && s[j].0 == k;
                    assert(ks[j] == k);
                    assert(ks.contains(k));
                }
            }
            assert(ks.to_set() =~= self@.dom());
            assert forall|j: int| 0 <= j < s.len() implies ks.map_values(|k: u128| self@[k])[j]
                == (#[trigger] s[j]).1 by {
                lemma_entries_map_value(s, j);
            }
            assert(r@ =~= ks.map_values(|k: u128| self@[k]));
            assert(lists_values_of(r@, self@));
        }
        r
    }

    /// An identifier that no current record carries. Every identifier
    /// handed out by `create` goes through here, so a freshly created
    /// record never displaces an existing one.
    fn fresh_id(&self) -> (id: u128)
        ensures
            !self@.contains_key(id),
    {
        let minted = mint_id();
        if !self.contains(minted) {
            return minted;
        }
        proof {
            use_type_invariant(&*self);
            lemma_entries_map_dom(self.entries@);
        }
        let n = self.entries.len();
        let bound: u128 = n as u128;
        proof {
            lemma_fresh_id_exists(self@, bound);
        }
        let mut c: u128 = 0;
        loop
            invariant
                c <= bound,
                forall|x: u128| x < c ==> self@.contains_key(x),
                exists|x: u128| x <= bound && !self@.contains_key(x),
            decreases bound - c,
        {
            if !self.contains(c) {
                return c;
            }
            proof {
                let f = choose|x: u128| x <= bound && !self@.contains_key(x);
                assert(c < f);
            }
            c = c + 1;
        }
    }

    /// Mint a fresh identifier and record a new price under it.
    pub fn create(&mut self, price: u64) -> (id: u128)
        ensures
            !old(self)@.contains_key(id),
            final(self)@ == old(self)@.insert(id, price),
    {
        proof {
            use_type_invariant(&*self);
        }
        let id = self.fresh_id();
        let mut es: Vec<(u128, u64)> = Vec::new();
        core::mem::swap(&mut es, &mut self.entries);
        proof {
            lemma_entries_map_contains(es@, id);
            lemma_entries_map_push(es@, id, price);
            assert(keys_distinct(es@.push((id, price))));
        }
        es.push((id, price));
        core::mem::swap(&mut es, &mut self.entries);
        id
    }

    /// Replace the price recorded under an identifier, if it is
    /// present; report whether it was.
    pub fn update(&mut self, id: u128, price: u64) -> (ok: bool)
        ensures
            ok == old(self)@.contains_key(id),
            ok ==> final(self)@ == old(self)@.insert(id, price),
            !ok ==> final(self)@ == old(self)@,
    {
        proof {
            use_type_invariant(&*self);
        }
        let n = self.entries.len();
        let mut i: usize = 0;
        while i < n
            invariant
                n == self.entries@.len(),
                0 <= i <= n,
                forall|j: int| 0 <= j < i ==> self.entries@[j].0 != id,
                keys_distinct(self.entries@),
                *self == *old(self),
            decreases n - i,
        {
            if self.entries[i].0 == id {
                let mut es: Vec<(u128, u64)> = Vec::new();
                core::mem::swap(&mut es, &mut self.entries);
                proof {
                    lemma_entries_map_value(es@, i as int);
                    lemma_entries_map_update(es@, i as int, price);
                    assert(keys_distinct(es@.update(i as int, (id, price))));
                }
                es.set(i, (id, price));
                core::mem::swap(&mut es, &mut self.entries);
                return true;
            }
            i += 1;
        }
        proof {
            lemma_entries_map_contains(self.entries@, id);
        }
        false
    }

    /// Erase the record under an identifier, if it is present; report
    /// whether it was.
    pub fn delete(&mut self, id: u128) -> (ok: bool)
        ensures
            ok == old(self)@.contains_key(id),
            ok ==> final(self)@ == old(self)@.remove(id),
            !ok ==> final(self)@ == old(self)@,
    {
        proof {
            use_type_invariant(&*self);
        }
        let n = self.entries.len();
        let mut i: usize = 0;
        while i < n
            invariant
                n == self.entries@.len(),
                0 <= i <= n,
                forall|j: int| 0 <= j < i ==> self.entries@[j].0 != id,
                keys_distinct(self.entries@),
                *self == *old(self),
            decreases n - i,
        {
            if self.entries[i].0 == id {
                let mut es: Vec<(u128, u64)> = Vec::new();
                core::mem::swap(&mut es, &mut self.entries);
                proof {
                    lemma_entries_map_value(es@, i as int);
                    lemma_entries_map_remove(es@, i as int);
                    let t = es@.remove(i as int);
                    assert(forall|p: int, q: int| 0 <= p < q < t.len() ==> t[p].0 != t[q].0);
                }
                es.remove(i);
                core::mem::swap(&mut es, &mut self.entries);
                return true;
            }
            i += 1;
        }
        proof {
            lemma_entries_map_contains(self.entries@, id);
        }
        false
    }
}

} // verus!
