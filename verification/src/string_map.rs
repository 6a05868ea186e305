//! A map from text keys to values, held in ascending key order.
//!
//! The catalog looks its entities up by identifier and writes them out in
//! identifier order. `StringMap` serves both: it stores its entries in one
//! vector, ascending by key, so that a lookup is a binary search, a walk
//! over the entries is already sorted, and two maps are joined in one pass
//! over both. That the keys ascend is the type's invariant; no caller can
//! break it.

use crate::text::{
    ascending, is_first_of, lemma_ascending_distinct, lemma_precedes_irreflexive,
    lemma_precedes_transitive, precedes, rank, Rank,
};
use vstd::pervasive::unreached;
use vstd::prelude::*;

verus! {

/// The map that takes `keys[i]` to `values[i]`.
pub open spec fn pairing<V>(keys: Seq<Seq<char>>, values: Seq<V>) -> Map<Seq<char>, V> {
    Map::new(|k: Seq<char>| keys.contains(k), |k: Seq<char>| values[keys.index_of(k)])
}

/// In a pairing over distinct keys, each key is bound to the value at its own
/// position.
pub proof fn lemma_pairing_entry<V>(keys: Seq<Seq<char>>, values: Seq<V>, i: int)
    requires
        keys.no_duplicates(),
        0 <= i < keys.len(),
    ensures
        pairing(keys, values).contains_key(keys[i]),
        pairing(keys, values)[keys[i]] == values[i],
{
    assert(keys.contains(keys[i]));
}

/// The domain of a pairing over distinct keys is the set of the keys, and has
/// as many members as there are keys.
pub proof fn lemma_pairing_domain<V>(keys: Seq<Seq<char>>, values: Seq<V>)
    requires
        keys.no_duplicates(),
    ensures
        pairing(keys, values).dom() == keys.to_set(),
        pairing(keys, values).dom().finite(),
        pairing(keys, values).dom().len() == keys.len(),
{
    assert(pairing(keys, values).dom() =~= keys.to_set());
    vstd::seq_lib::seq_to_set_is_finite(keys);
    keys.unique_seq_to_set();
}

/// Putting a new key and its value in at any position adds that binding and
/// changes no other.
pub proof fn lemma_pairing_insert<V>(
    keys: Seq<Seq<char>>,
    values: Seq<V>,
    p: int,
    key: Seq<char>,
    value: V,
)
    requires
        keys.no_duplicates(),
        keys.len() == values.len(),
        0 <= p <= keys.len(),
        !keys.contains(key),
    ensures
        keys.insert(p, key).no_duplicates(),
        pairing(keys.insert(p, key), values.insert(p, value)) == pairing(keys, values).insert(
            key,
            value,
        ),
{
    let keys2 = keys.insert(p, key);
    let values2 = values.insert(p, value);
    assert forall|i: int, j: int| 0 <= i < keys2.len() && 0 <= j < keys2.len() && i != j implies keys2[i]
        != keys2[j] by {
        let a = if i < p {
            i
        } else {
            i - 1
        };
        let b = if j < p {
            j
        } else {
            j - 1
        };
        if i != p {
            assert(keys2[i] == keys[a]);
        }
        if j != p {
            assert(keys2[j] == keys[b]);
        }
    }
    assert forall|k: Seq<char>| keys2.contains(k) <==> (k == key || keys.contains(k)) by {
        if keys2.contains(k) {
            let i = choose|i: int| 0 <= i < keys2.len() && keys2[i] == k;
            if i < p {
                assert(keys[i] == k);
            } else if i > p {
                assert(keys[i - 1] == k);
            }
        }
        if keys.contains(k) {
            let i = choose|i: int| 0 <= i < keys.len() && keys[i] == k;
            if i < p {
                assert(keys2[i] == k);
            } else {
                assert(keys2[i + 1] == k);
            }
        }
        if k == key {
            assert(keys2[p] == k);
        }
    }
    assert forall|k: Seq<char>| keys2.contains(k) implies #[trigger] pairing(keys2, values2)[k]
        == pairing(keys, values).insert(key, value)[k] by {
        let i = keys2.index_of(k);
        lemma_pairing_entry(keys2, values2, i);
        if i < p {
            lemma_pairing_entry(keys, values, i);
        } else if i > p {
            lemma_pairing_entry(keys, values, i - 1);
        }
    }
    assert(pairing(keys2, values2) =~= pairing(keys, values).insert(key, value));
}

/// Changing the value at one position rebinds that position's key and changes
/// no other binding.
pub proof fn lemma_pairing_update<V>(keys: Seq<Seq<char>>, values: Seq<V>, i: int, value: V)
    requires
        keys.no_duplicates(),
        keys.len() == values.len(),
        0 <= i < keys.len(),
    ensures
        pairing(keys, values.update(i, value)) == pairing(keys, values).insert(keys[i], value),
{
    let values2 = values.update(i, value);
    assert forall|k: Seq<char>| keys.contains(k) implies #[trigger] pairing(keys, values2)[k]
        == pairing(keys, values).insert(keys[i], value)[k] by {
        let j = keys.index_of(k);
        lemma_pairing_entry(keys, values2, j);
        lemma_pairing_entry(keys, values, j);
    }
    assert(keys.contains(keys[i]));
    assert(pairing(keys, values2) =~= pairing(keys, values).insert(keys[i], value));
}

/// The keys of some entries, in their order.
spec fn entry_keys<V>(entries: Seq<(String, V)>) -> Seq<Seq<char>> {
    Seq::new(entries.len(), |p: int| entries[p].0@)
}

/// The values of some entries, in their order.
spec fn entry_values<V>(entries: Seq<(String, V)>) -> Seq<V> {
    Seq::new(entries.len(), |p: int| entries[p].1)
}

/// One of the first `i` entries of a run binds `key` to `value`.
spec fn among<V>(a: Seq<Seq<char>>, av: Seq<V>, i: int, key: Seq<char>, value: V) -> bool {
    exists|x: int| 0 <= x < i && #[trigger] a[x] == key && av[x] == value
}

/// What holds while two ascending runs of entries are merged into one: the
/// entries `done` are the first `i` of the one run and the first `j` of the
/// other, in ascending order; none of them is in both runs; and what is left
/// of either run comes after them.
spec fn merged_so_far<V>(
    done: Seq<(String, V)>,
    a: Seq<Seq<char>>,
    av: Seq<V>,
    i: int,
    b: Seq<Seq<char>>,
    bv: Seq<V>,
    j: int,
) -> bool {
    let keys = entry_keys(done);
    &&& ascending(a)
    &&& ascending(b)
    &&& a.len() == av.len()
    &&& b.len() == bv.len()
    &&& 0 <= i <= a.len()
    &&& 0 <= j <= b.len()
    &&& ascending(keys)
    &&& forall|p: int|
        0 <= p < done.len() ==> among(a, av, i, #[trigger] keys[p], done[p].1) || among(
            b,
            bv,
            j,
            keys[p],
            done[p].1,
        )
    &&& forall|x: int| 0 <= x < i ==> keys.contains(#[trigger] a[x]) && !b.contains(a[x])
    &&& forall|y: int| 0 <= y < j ==> keys.contains(#[trigger] b[y]) && !a.contains(b[y])
    &&& forall|p: int| 0 <= p < done.len() && i < a.len() ==> precedes(#[trigger] keys[p], a[i])
    &&& forall|p: int| 0 <= p < done.len() && j < b.len() ==> precedes(#[trigger] keys[p], b[j])
}

/// Where the next key of the first run comes before the next of the second,
/// or the second has run out, its entry can be taken.
proof fn lemma_take_left<V>(
    done: Seq<(String, V)>,
    a: Seq<Seq<char>>,
    av: Seq<V>,
    i: int,
    b: Seq<Seq<char>>,
    bv: Seq<V>,
    j: int,
)
    requires
        merged_so_far(done, a, av, i, b, bv, j),
        i < a.len(),
        j < b.len() ==> precedes(a[i], b[j]),
    ensures
        forall|e: (String, V)|
            e.0@ == a[i] && e.1 == av[i] ==> merged_so_far(
                #[trigger] done.push(e),
                a,
                av,
                i + 1,
                b,
                bv,
                j,
            ),
{
    assert forall|e: (String, V)| e.0@ == a[i] && e.1 == av[i] implies merged_so_far(
        #[trigger] done.push(e),
        a,
        av,
        i + 1,
        b,
        bv,
        j,
    ) by {
        lemma_step(done, e, a, av, i, b, bv, j);
    }
}

/// Where the next key of the second run comes before the next of the first,
/// or the first has run out, its entry can be taken.
proof fn lemma_take_right<V>(
    done: Seq<(String, V)>,
    a: Seq<Seq<char>>,
    av: Seq<V>,
    i: int,
    b: Seq<Seq<char>>,
    bv: Seq<V>,
    j: int,
)
    requires
        merged_so_far(done, a, av, i, b, bv, j),
        j < b.len(),
        i < a.len() ==> precedes(b[j], a[i]),
    ensures
        forall|e: (String, V)|
            e.0@ == b[j] && e.1 == bv[j] ==> merged_so_far(
                #[trigger] done.push(e),
                a,
                av,
                i,
                b,
                bv,
                j + 1,
            ),
{
    assert forall|e: (String, V)| e.0@ == b[j] && e.1 == bv[j] implies merged_so_far(
        #[trigger] done.push(e),
        a,
        av,
        i,
        b,
        bv,
        j + 1,
    ) by {
        lemma_merged_swap(done, a, av, i, b, bv, j);
        lemma_step(done, e, b, bv, j, a, av, i);
        lemma_merged_swap(done.push(e), b, bv, j + 1, a, av, i);
    }
}

/// The two runs may change places.
proof fn lemma_merged_swap<V>(
    done: Seq<(String, V)>,
    a: Seq<Seq<char>>,
    av: Seq<V>,
    i: int,
    b: Seq<Seq<char>>,
    bv: Seq<V>,
    j: int,
)
    requires
        merged_so_far(done, a, av, i, b, bv, j),
    ensures
        merged_so_far(done, b, bv, j, a, av, i),
{
}

/// Taking the next entry of the first run keeps what holds of the merge.
proof fn lemma_step<V>(
    done: Seq<(String, V)>,
    e: (String, V),
    a: Seq<Seq<char>>,
    av: Seq<V>,
    i: int,
    b: Seq<Seq<char>>,
    bv: Seq<V>,
    j: int,
)
    requires
        merged_so_far(done, a, av, i, b, bv, j),
        i < a.len(),
        j < b.len() ==> precedes(a[i], b[j]),
        e.0@ == a[i],
        e.1 == av[i],
    ensures
        merged_so_far(done.push(e), a, av, i + 1, b, bv, j),
{
    let keys = entry_keys(done);
    let more = done.push(e);
    let keys2 = entry_keys(more);
    assert(keys2 =~= keys.push(a[i]));
    assert forall|p: int, q: int| 0 <= p < q < keys2.len() implies precedes(
        #[trigger] keys2[p],
        #[trigger] keys2[q],
    ) by {
        assert(keys2[p] == keys[p]);
        if q < keys.len() {
            assert(keys2[q] == keys[q]);
        }
    }
    assert forall|p: int| 0 <= p < more.len() implies among(
        a,
        av,
        i + 1,
        #[trigger] keys2[p],
        more[p].1,
    ) || among(b, bv, j, keys2[p], more[p].1) by {
        if p < done.len() {
            assert(keys2[p] == keys[p]);
            assert(more[p] == done[p]);
            if among(a, av, i, keys[p], done[p].1) {
                let x = choose|x: int| 0 <= x < i && #[trigger] a[x] == keys[p] && av[x] == done[p].1;
                assert(0 <= x < i + 1 && a[x] == keys2[p] && av[x] == more[p].1);
            }
        } else {
            assert(0 <= i < i + 1 && a[i] == keys2[p] && av[i] == more[p].1);
        }
    }
    assert forall|x: int| 0 <= x < i + 1 implies keys2.contains(#[trigger] a[x]) && !b.contains(
        a[x],
    ) by {
        if x < i {
            let p = choose|p: int| 0 <= p < keys.len() && keys[p] == a[x];
            assert(keys2[p] == a[x]);
        } else {
            assert(keys2[keys.len() as int] == a[i]);
            if b.contains(a[i]) {
                let y = choose|y: int| 0 <= y < b.len() && b[y] == a[i];
                if y < j {
                    assert(!a.contains(b[y]));
                    assert(a[i] == b[y]);
                } else {
                    lemma_precedes_irreflexive(a[i]);
                    if y > j {
                        lemma_precedes_transitive(a[i], b[j], b[y]);
                    }
                }
            }
        }
    }
    assert forall|y: int| 0 <= y < j implies keys2.contains(#[trigger] b[y]) && !a.contains(b[y]) by {
        let p = choose|p: int| 0 <= p < keys.len() && keys[p] == b[y];
        assert(keys2[p] == b[y]);
    }
    assert forall|p: int| 0 <= p < more.len() && i + 1 < a.len() implies precedes(
        #[trigger] keys2[p],
        a[i + 1],
    ) by {
        if p < done.len() {
            assert(keys2[p] == keys[p]);
            lemma_precedes_transitive(keys[p], a[i], a[i + 1]);
        }
    }
    assert forall|p: int| 0 <= p < more.len() && j < b.len() implies precedes(
        #[trigger] keys2[p],
        b[j],
    ) by {
        if p < done.len() {
            assert(keys2[p] == keys[p]);
        }
    }
}

/// Where the next keys of the two runs are the same, that key is the first
/// that both runs hold.
proof fn lemma_clash<V>(
    done: Seq<(String, V)>,
    a: Seq<Seq<char>>,
    av: Seq<V>,
    i: int,
    b: Seq<Seq<char>>,
    bv: Seq<V>,
    j: int,
)
    requires
        merged_so_far(done, a, av, i, b, bv, j),
        i < a.len(),
        j < b.len(),
        a[i] == b[j],
    ensures
        is_first_of(a[i], pairing(a, av).dom().intersect(pairing(b, bv).dom())),
{
    let shared = pairing(a, av).dom().intersect(pairing(b, bv).dom());
    assert(a.contains(a[i]));
    assert(b.contains(b[j]));
    assert forall|k: Seq<char>| shared.contains(k) && k != a[i] implies precedes(a[i], k) by {
        let x = choose|x: int| 0 <= x < a.len() && a[x] == k;
        if x < i {
            assert(!b.contains(a[x]));
        }
    }
}

/// When both runs are used up, the merge is the union of the two.
proof fn lemma_merged<V>(
    done: Seq<(String, V)>,
    a: Seq<Seq<char>>,
    av: Seq<V>,
    b: Seq<Seq<char>>,
    bv: Seq<V>,
)
    requires
        merged_so_far(done, a, av, a.len() as int, b, bv, b.len() as int),
    ensures
        ascending(entry_keys(done)),
        pairing(a, av).dom().disjoint(pairing(b, bv).dom()),
        pairing(entry_keys(done), entry_values(done)) == pairing(a, av).union_prefer_right(
            pairing(b, bv),
        ),
{
    let keys = entry_keys(done);
    let values = entry_values(done);
    let whole = pairing(keys, values);
    let union = pairing(a, av).union_prefer_right(pairing(b, bv));
    lemma_ascending_distinct(keys);
    lemma_ascending_distinct(a);
    lemma_ascending_distinct(b);
    assert forall|k: Seq<char>| !(a.contains(k) && b.contains(k)) by {
        if a.contains(k) {
            let x = choose|x: int| 0 <= x < a.len() && a[x] == k;
            assert(!b.contains(a[x]));
        }
    }
    assert forall|k: Seq<char>| whole.contains_key(k) <==> union.contains_key(k) by {
        if keys.contains(k) {
            let p = choose|p: int| 0 <= p < keys.len() && keys[p] == k;
            if among(a, av, a.len() as int, keys[p], done[p].1) {
                let x = choose|x: int|
                    0 <= x < a.len() && #[trigger] a[x] == keys[p] && av[x] == done[p].1;
                assert(a.contains(keys[p]));
            } else {
                let y = choose|y: int|
                    0 <= y < b.len() && #[trigger] b[y] == keys[p] && bv[y] == done[p].1;
                assert(b.contains(keys[p]));
            }
        }
        if a.contains(k) {
            let x = choose|x: int| 0 <= x < a.len() && a[x] == k;
            assert(keys.contains(a[x]));
        }
        if b.contains(k) {
            let y = choose|y: int| 0 <= y < b.len() && b[y] == k;
            assert(keys.contains(b[y]));
        }
    }
    assert forall|k: Seq<char>| whole.contains_key(k) implies #[trigger] whole[k] == union[k] by {
        let p = choose|p: int| 0 <= p < keys.len() && keys[p] == k;
        lemma_pairing_entry(keys, values, p);
        if among(a, av, a.len() as int, keys[p], done[p].1) {
            let x = choose|x: int|
                0 <= x < a.len() && #[trigger] a[x] == keys[p] && av[x] == done[p].1;
            lemma_pairing_entry(a, av, x);
            assert(!b.contains(a[x]));
        } else {
            let y = choose|y: int|
                0 <= y < b.len() && #[trigger] b[y] == keys[p] && bv[y] == done[p].1;
            lemma_pairing_entry(b, bv, y);
        }
    }
    assert(whole =~= union);
}

/// A map from text keys to values of type `V`, in ascending key order.
#[derive(Debug)]
pub struct StringMap<V> {
    entries: Vec<(String, V)>,
}

impl<V> View for StringMap<V> {
    type V = Map<Seq<char>, V>;

    open spec fn view(&self) -> Map<Seq<char>, V> {
        pairing(self.keys(), self.values())
    }
}

impl<V> StringMap<V> {
    /// The keys ascend. This holds of every map at all times.
    #[verifier::type_invariant]
    spec fn ordered(&self) -> bool {
        ascending(self.keys())
    }

    /// The keys, in the order in which the map holds them.
    pub closed spec fn keys(&self) -> Seq<Seq<char>> {
        entry_keys(self.entries@)
    }

    /// The values, each at the position of its key.
    pub closed spec fn values(&self) -> Seq<V> {
        entry_values(self.entries@)
    }

    /// What holds of every map: one value for each key, and the keys ascend.
    pub open spec fn well_formed(&self) -> bool {
        &&& self.keys().len() == self.values().len()
        &&& ascending(self.keys())
    }

    /// A map without entries.
    pub fn new() -> (m: Self)
        ensures
            m.keys() == Seq::<Seq<char>>::empty(),
            m.values() == Seq::<V>::empty(),
            m@ == Map::<Seq<char>, V>::empty(),
            m.well_formed(),
    {
        let m = StringMap { entries: Vec::new() };
        assert(m.keys() =~= Seq::<Seq<char>>::empty());
        assert(m.values() =~= Seq::<V>::empty());
        assert(m@ =~= Map::<Seq<char>, V>::empty());
        m
    }

    /// The number of entries.
    pub fn len(&self) -> (n: usize)
        ensures
            n == self.keys().len(),
            n == self@.len(),
            self@.dom().finite(),
            self.well_formed(),
    {
        proof {
            use_type_invariant(self);
            lemma_ascending_distinct(self.keys());
            lemma_pairing_domain(self.keys(), self.values());
        }
        self.entries.len()
    }

    /// The entry at position `i` in ascending key order, if there are that many.
    pub fn entry(&self, i: usize) -> (r: Option<(&String, &V)>)
        ensures
            self.well_formed(),
            r.is_some() == (i < self.keys().len()),
            r matches Some((k, v)) ==> {
                &&& k@ == self.keys()[i as int]
                &&& *v == self.values()[i as int]
                &&& self@.contains_key(k@)
                &&& self@[k@] == *v
            },
    {
        proof {
            use_type_invariant(self);
            lemma_ascending_distinct(self.keys());
        }
        if i < self.entries.len() {
            proof {
                lemma_pairing_entry(self.keys(), self.values(), i as int);
            }
            let e = &self.entries[i];
            Some((&e.0, &e.1))
        } else {
            None
        }
    }

    /// Finds `key` by binary search: its position where it is present, else
    /// the position at which it would have to be put in.
    fn search(&self, key: &str) -> (r: (bool, usize))
        ensures
            r.1 <= self.keys().len(),
            r.0 ==> r.1 < self.keys().len() && self.keys()[r.1 as int] == key@,
            !r.0 ==> !self.keys().contains(key@),
            !r.0 ==> forall|i: int| 0 <= i < r.1 ==> precedes(#[trigger] self.keys()[i], key@),
            !r.0 ==> forall|i: int|
                r.1 <= i < self.keys().len() ==> precedes(key@, #[trigger] self.keys()[i]),
    {
        proof {
            use_type_invariant(self);
        }
        let mut low: usize = 0;
        let mut high: usize = self.entries.len();
        while low < high
            invariant
                low <= high <= self.entries.len(),
                self.entries.len() == self.keys().len(),
                ascending(self.keys()),
                forall|i: int| 0 <= i < low ==> precedes(#[trigger] self.keys()[i], key@),
                forall|i: int| high <= i < self.keys().len() ==> precedes(key@, #[trigger] self.keys()[i]),
            decreases high - low,
        {
            let middle = low + (high - low) / 2;
            let ghost pivot = self.keys()[middle as int];
            match rank(self.entries[middle].0.as_str(), key) {
                Rank::Same => {
                    return (true, middle);
                },
                Rank::Before => {
                    assert forall|i: int| 0 <= i < middle + 1 implies precedes(
                        #[trigger] self.keys()[i],
                        key@,
                    ) by {
                        if i < middle {
                            lemma_precedes_transitive(self.keys()[i], pivot, key@);
                        }
                    }
                    low = middle + 1;
                },
                Rank::After => {
                    assert forall|i: int| middle <= i < self.keys().len() implies precedes(
                        key@,
                        #[trigger] self.keys()[i],
                    ) by {
                        if middle < i {
                            lemma_precedes_transitive(key@, pivot, self.keys()[i]);
                        }
                    }
                    high = middle;
                },
            }
        }
        proof {
            assert forall|i: int| 0 <= i < self.keys().len() implies self.keys()[i] != key@ by {
                lemma_precedes_irreflexive(key@);
            }
        }
        (false, low)
    }

    /// Gives the entries up, in ascending key order.
    pub fn into_entries(self) -> (r: Vec<(String, V)>)
        ensures
            self.well_formed(),
            r.len() == self.keys().len(),
            forall|i: int|
                0 <= i < r.len() ==> (#[trigger] r[i]).0@ == self.keys()[i] && r[i].1
                    == self.values()[i],
    {
        proof {
            use_type_invariant(&self);
        }
        self.entries
    }

    /// Gives the entries up, in descending key order: the last entry of the
    /// vector is the one with the first key.
    fn into_descending(self) -> (r: Vec<(String, V)>)
        ensures
            self.well_formed(),
            r.len() == self.keys().len(),
            forall|i: int|
                0 <= i < r.len() ==> (#[trigger] r[i]).0@ == self.keys()[r.len() - 1 - i] && r[i].1
                    == self.values()[r.len() - 1 - i],
    {
        let ghost keys = self.keys();
        let ghost values = self.values();
        let mut entries = self.into_entries();
        let ghost all = entries@;
        let mut r: Vec<(String, V)> = Vec::new();
        loop
            invariant
                self.well_formed(),
                keys == self.keys(),
                values == self.values(),
                entries.len() + r.len() == all.len(),
                all.len() == keys.len(),
                keys.len() == values.len(),
                entries@ == all.take(entries.len() as int),
                forall|i: int|
                    0 <= i < all.len() ==> (#[trigger] all[i]).0@ == keys[i] && all[i].1 == values[i],
                forall|i: int| 0 <= i < r.len() ==> (#[trigger] r[i]) == all[all.len() - 1 - i],
            decreases entries.len(),
        {
            match entries.pop() {
                None => {
                    return r;
                },
                Some(e) => {
                    assert(entries@ =~= all.take(entries.len() as int));
                    r.push(e);
                },
            }
        }
    }

    /// The two maps in one, where no key is bound in both. Where some are,
    /// the first of them is the failure.
    pub fn try_union(self, other: StringMap<V>) -> (r: Result<StringMap<V>, String>)
        ensures
            match r {
                Ok(m) => {
                    &&& self@.dom().disjoint(other@.dom())
                    &&& m@ == self@.union_prefer_right(other@)
                    &&& m.well_formed()
                },
                Err(key) => is_first_of(key@, self@.dom().intersect(other@.dom())),
            },
    {
        let ghost a = self.keys();
        let ghost av = self.values();
        let ghost b = other.keys();
        let ghost bv = other.values();
        let mut left = self.into_descending();
        let mut right = other.into_descending();
        let ghost la = a.len() as int;
        let ghost lb = b.len() as int;
        proof {
            lemma_ascending_distinct(a);
            lemma_ascending_distinct(b);
        }
        let mut entries: Vec<(String, V)> = Vec::new();
        loop
            invariant
                self.well_formed(),
                other.well_formed(),
                a == self.keys(),
                av == self.values(),
                b == other.keys(),
                bv == other.values(),
                la == a.len(),
                lb == b.len(),
                a.no_duplicates(),
                b.no_duplicates(),
                left.len() <= la,
                right.len() <= lb,
                forall|x: int|
                    0 <= x < left.len() ==> (#[trigger] left[x]).0@ == a[la - 1 - x] && left[x].1
                        == av[la - 1 - x],
                forall|x: int|
                    0 <= x < right.len() ==> (#[trigger] right[x]).0@ == b[lb - 1 - x] && right[x].1
                        == bv[lb - 1 - x],
                merged_so_far(entries@, a, av, la - left.len(), b, bv, lb - right.len()),
            decreases left.len() + right.len(),
        {
            let ghost i = la - left.len();
            let ghost j = lb - right.len();
            let ghost done = entries@;
            if left.len() == 0 && right.len() == 0 {
                proof {
                    lemma_merged(done, a, av, b, bv);
                }
                let m = StringMap { entries };
                proof {
                    assert(m.keys() =~= entry_keys(done));
                    assert(m.values() =~= entry_values(done));
                }
                return Ok(m);
            }
            let from_left = if left.len() == 0 {
                false
            } else if right.len() == 0 {
                true
            } else {
                match rank(left[left.len() - 1].0.as_str(), right[right.len() - 1].0.as_str()) {
                    Rank::Before => true,
                    Rank::After => false,
                    Rank::Same => {
                        proof {
                            lemma_clash(done, a, av, i, b, bv, j);
                        }
                        match left.pop() {
                            Some(e) => {
                                return Err(e.0);
                            },
                            None => {
                                unreached()
                            },
                        }
                    },
                }
            };
            if from_left {
                proof {
                    lemma_take_left(done, a, av, i, b, bv, j);
                }
                match left.pop() {
                    Some(e) => {
                        entries.push(e);
                    },
                    None => {
                        unreached::<()>();
                    },
                }
            } else {
                proof {
                    lemma_take_right(done, a, av, i, b, bv, j);
                }
                match right.pop() {
                    Some(e) => {
                        entries.push(e);
                    },
                    None => {
                        unreached::<()>();
                    },
                }
            }
        }
    }

    /// Whether `key` is bound.
    pub fn contains_key(&self, key: &str) -> (r: bool)
        ensures
            r == self@.contains_key(key@),
    {
        self.search(key).0
    }

    /// The value bound to `key`, if any.
    pub fn get(&self, key: &str) -> (r: Option<&V>)
        ensures
            r.is_some() == self@.contains_key(key@),
            r matches Some(v) ==> *v == self@[key@],
    {
        let (found, at) = self.search(key);
        if found {
            proof {
                use_type_invariant(self);
                lemma_ascending_distinct(self.keys());
                lemma_pairing_entry(self.keys(), self.values(), at as int);
            }
            Some(&self.entries[at].1)
        } else {
            None
        }
    }

    /// Binds `key` to `value`. A value that `key` was bound to before is
    /// returned; the new one takes its place.
    pub fn insert(&mut self, key: String, value: V) -> (r: Option<V>)
        ensures
            final(self)@ == old(self)@.insert(key@, value),
            r == if old(self)@.contains_key(key@) {
                Some(old(self)@[key@])
            } else {
                None::<V>
            },
            final(self).well_formed(),
    {
        proof {
            use_type_invariant(&*self);
            lemma_ascending_distinct(self.keys());
        }
        let (found, at) = self.search(key.as_str());
        let ghost keys = self.keys();
        let ghost values = self.values();
        let ghost fresh = value;
        let mut entries: Vec<(String, V)> = Vec::new();
        core::mem::swap(&mut self.entries, &mut entries);
        if found {
            proof {
                lemma_pairing_entry(keys, values, at as int);
                lemma_pairing_update(keys, values, at as int, value);
            }
            let ghost before = entries@;
            let mut value = value;
            core::mem::swap(&mut entries[at].1, &mut value);
            proof {
                let after = Seq::new(entries.len() as nat, |i: int| entries[i].0@);
                assert(entries@ == before.update(at as int, (before[at as int].0, fresh)));
                assert(after =~= keys);
            }
            core::mem::swap(&mut self.entries, &mut entries);
            assert(self.keys() =~= keys);
            assert(self.values() =~= values.update(at as int, fresh));
            Some(value)
        } else {
            proof {
                lemma_pairing_insert(keys, values, at as int, key@, value);
            }
            entries.insert(at, (key, value));
            proof {
                let after = Seq::new(entries.len() as nat, |i: int| entries[i].0@);
                assert(after =~= keys.insert(at as int, key@));
                assert forall|i: int, j: int| 0 <= i < j < after.len() implies precedes(
                    #[trigger] after[i],
                    #[trigger] after[j],
                ) by {
                    if i < at && j > at {
                        assert(after[i] == keys[i]);
                        assert(after[j] == keys[j - 1]);
                    } else if i < at && j < at {
                        assert(after[i] == keys[i]);
                        assert(after[j] == keys[j]);
                    } else if i > at {
                        assert(after[i] == keys[i - 1]);
                        assert(after[j] == keys[j - 1]);
                    } else if i == at {
                        assert(after[j] == keys[j - 1]);
                    } else {
                        assert(after[i] == keys[i]);
                    }
                }
            }
            core::mem::swap(&mut self.entries, &mut entries);
            assert(self.keys() =~= keys.insert(at as int, key@));
            assert(self.values() =~= values.insert(at as int, value));
            None
        }
    }

    /// Puts `value` in the place of the value that `key` is bound to, and
    /// returns the earlier one. Where `key` is not bound the map stays as it
    /// is, and `None` is returned.
    pub fn replace(&mut self, key: &str, value: V) -> (r: Option<V>)
        ensures
            final(self).keys() == old(self).keys(),
            final(self).well_formed(),
            old(self)@.contains_key(key@) ==> {
                &&& r == Some(old(self)@[key@])
                &&& final(self)@ == old(self)@.insert(key@, value)
            },
            !old(self)@.contains_key(key@) ==> {
                &&& r.is_none()
                &&& final(self)@ == old(self)@
                &&& final(self).values() == old(self).values()
            },
    {
        proof {
            use_type_invariant(&*self);
            lemma_ascending_distinct(self.keys());
        }
        let (found, at) = self.search(key);
        let ghost fresh = value;
        if found {
            let ghost keys = self.keys();
            let ghost values = self.values();
            proof {
                lemma_pairing_entry(keys, values, at as int);
                lemma_pairing_update(keys, values, at as int, value);
            }
            let mut entries: Vec<(String, V)> = Vec::new();
            core::mem::swap(&mut self.entries, &mut entries);
            let ghost before = entries@;
            let mut value = value;
            core::mem::swap(&mut entries[at].1, &mut value);
            proof {
                let after = Seq::new(entries.len() as nat, |i: int| entries[i].0@);
                assert(entries@ == before.update(at as int, (before[at as int].0, fresh)));
                assert(after =~= keys);
            }
            core::mem::swap(&mut self.entries, &mut entries);
            assert(self.keys() =~= keys);
            assert(self.values() =~= values.update(at as int, fresh));
            Some(value)
        } else {
            None
        }
    }
}

impl<V: Clone> Clone for StringMap<V> {
    /// A map with the same keys, each bound to a clone of its value.
    fn clone(&self) -> (r: Self)
        ensures
            r.keys() == self.keys(),
            r.values().len() == self.values().len(),
            forall|i: int|
                0 <= i < self.values().len() ==> cloned(
                    #[trigger] self.values()[i],
                    r.values()[i],
                ),
    {
        proof {
            use_type_invariant(self);
        }
        let mut entries: Vec<(String, V)> = Vec::new();
        let mut i: usize = 0;
        while i < self.entries.len()
            invariant
                i <= self.entries.len(),
                entries.len() == i,
                forall|j: int| 0 <= j < i ==> (#[trigger] entries[j]).0@ == self.entries[j].0@,
                forall|j: int| 0 <= j < i ==> cloned(self.entries[j].1, (#[trigger] entries[j]).1),
            decreases self.entries.len() - i,
        {
            let key = self.entries[i].0.clone();
            let value = self.entries[i].1.clone();
            entries.push((key, value));
            i = i + 1;
        }
        proof {
            let copied = Seq::new(entries.len() as nat, |j: int| entries[j].0@);
            assert(copied =~= self.keys());
        }
        let r = StringMap { entries };
        assert(r.keys() =~= self.keys());
        r
    }
}

} // verus!
