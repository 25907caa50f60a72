//! Frequency tallies of values.
use std::cmp::Ordering;
use std::collections::BTreeMap;
use vstd::laws_cmp::{obeys_cmp, obeys_cmp_ord, obeys_partial_cmp_spec_properties};
use vstd::multiset::Multiset;
use vstd::prelude::*;
use vstd::std_specs::btree::increasing_seq;
use vstd::std_specs::cmp::{OrdSpec, PartialOrdSpec};

verus! {

/// Direction of the histogram.
#[derive(Clone, Copy, Debug, PartialEq, Eq)]
pub enum Direction {
    /// Histogram goes up vertically.
    Vertical,
    /// Histogram goes up horizontally.
    Horizontal,
}

/// `counts` holds, for each value that occurs in `values`, the number of
/// its occurrences, and no other key.
pub open spec fn tallies<T>(counts: Map<T, u128>, values: Multiset<T>) -> bool {
    &&& counts.dom() =~= values.dom()
    &&& forall|k: T| #[trigger] counts.contains_key(k) ==> counts[k] == values.count(k)
}

/// No key of `counts` has a larger count than `c`.
pub open spec fn is_highest<T>(counts: Map<T, u128>, c: u128) -> bool {
    forall|k: T| #[trigger] counts.contains_key(k) ==> counts[k] <= c
}

/// No key of `counts` has a smaller count than `c`.
pub open spec fn is_lowest<T>(counts: Map<T, u128>, c: u128) -> bool {
    forall|k: T| #[trigger] counts.contains_key(k) ==> c <= counts[k]
}

/// Under a lawful order, `x < y` rules out `y < x`.
proof fn lemma_less_asymmetric<T: Ord>(x: T, y: T)
    requires
        obeys_cmp::<T>(),
    ensures
        x.cmp_spec(&y) == Ordering::Less ==> y.cmp_spec(&x) != Ordering::Less,
{
    reveal(obeys_cmp_ord);
    reveal(obeys_partial_cmp_spec_properties);
    assert(x.partial_cmp_spec(&y) == Some(x.cmp_spec(&y)));
    assert(y.partial_cmp_spec(&x) == Some(y.cmp_spec(&x)));
}

/// Counts the occurrences of each value of `data`.
fn tally<T: Ord>(data: Vec<T>) -> (r: BTreeMap<T, u128>)
    requires
        obeys_cmp::<T>(),
    ensures
        tallies(r@, data@.to_multiset()),
{
    broadcast use vstd::seq_lib::to_multiset_build;
    broadcast use vstd::seq_lib::to_multiset_len;
    broadcast use vstd::multiset::lemma_multiset_empty_len;

    let len = data.len();
    let ghost all = data@;
    let ghost mut seen: Multiset<T> = Multiset::empty();
    let mut rest = data;
    let mut map = BTreeMap::<T, u128>::new();
    while rest.len() > 0
        invariant
            obeys_cmp::<T>(),
            all.to_multiset() =~= rest@.to_multiset().add(seen),
            rest@.len() + seen.len() == all.len(),
            all.len() == len,
            tallies(map@, seen),
        decreases rest.len(),
    {
        let ghost before = rest@;
        let x = rest.pop().unwrap();
        proof {
            assert(before =~= rest@.push(x));
            vstd::seq_lib::to_multiset_build(rest@, x);
            assert(before.to_multiset() =~= rest@.to_multiset().insert(x));
            assert(all.to_multiset() =~= rest@.to_multiset().add(seen.insert(x)));
            seen = seen.insert(x);
        }
        let c = match map.get(&x) {
            Some(c) => *c,
            None => 0,
        };
        proof {
            assert(c == seen.count(x) - 1);
            assert(seen.count(x) <= seen.len());
        }
        map.insert(x, c + 1);
        assert(map@.dom() =~= seen.dom());
    }
    proof {
        assert(rest@.to_multiset().len() == 0);
        assert(all.to_multiset() =~= seen);
    }
    map
}

/// A structure that represents a Histogram.
pub struct Histogram<T: Ord> {
    data: BTreeMap<T, u128>,
}

impl<T: Ord> View for Histogram<T> {
    type V = Map<T, u128>;

    closed spec fn view(&self) -> Map<T, u128> {
        self.data@
    }
}

impl<T: Ord> Histogram<T> {
    /// Constructs a new Histogram using a BTreeMap.
    ///
    /// Each of the entry represents the number of occurances
    /// of the key.
    pub fn new(data: BTreeMap<T, u128>) -> (r: Self)
        ensures
            r@ == data@,
    {
        Self { data }
    }

    /// Constructs a new Histogram from a vector of data.
    pub fn from_vec(data: Vec<T>) -> (r: Self)
        requires
            obeys_cmp::<T>(),
        ensures
            tallies(r@, data@.to_multiset()),
    {
        Self::new(tally(data))
    }

    /// Gets the entry with the highest count; of several such entries, the
    /// one with the lowest key.
    pub fn get_highest(&self) -> (r: (&T, &u128))
        requires
            obeys_cmp::<T>(),
            self@.dom().len() > 0,
        ensures
            self@.contains_key(*r.0),
            self@[*r.0] == *r.1,
            is_highest(self@, *r.1),
            forall|k: T|
                #[trigger] self@.contains_key(k) && k.cmp_spec(r.0) == Ordering::Less ==> self@[k]
                    < *r.1,
    {
        let ghost m = self.data@;
        let mut best: Option<(&T, &u128)> = None;
        let ghost mut bi: int = 0;
        for item in it: self.data.iter()
            invariant
                m == self.data@,
                obeys_cmp::<T>(),
                increasing_seq(it.seq().map_values(|kv: (&T, &u128)| *kv.0)),
                best is None <==> it.index() == 0,
                best matches Some(b) ==> {
                    &&& 0 <= bi < it.index()
                    &&& b == it.seq()[bi]
                    &&& forall|j: int|
                        0 <= j < it.index() ==> *(#[trigger] it.seq()[j]).1 <= *b.1
                    &&& forall|j: int|
                        0 <= j < it.index() && (#[trigger] it.seq()[j]).0.cmp_spec(b.0)
                            == Ordering::Less ==> *it.seq()[j].1 < *b.1
                },
        {
            proof {
                broadcast use vstd::std_specs::btree::axiom_increasing_seq_meaning;

                lemma_less_asymmetric(*item.0, *item.0);
                let keys = it.seq().map_values(|kv: (&T, &u128)| *kv.0);
                if best is Some {
                    assert(keys[bi] == *it.seq()[bi].0);
                    assert(keys[it.index()] == *item.0);
                }
            }
            match best {
                None => {
                    best = Some(item);
                    proof {
                        bi = it.index();
                    }
                },
                Some(b) => {
                    proof {
                        if item.0.cmp_spec(b.0) == Ordering::Less {
                            lemma_less_asymmetric(*b.0, *item.0);
                        }
                    }
                    if *item.1 > *b.1 {
                        best = Some(item);
                        proof {
                            bi = it.index();
                        }
                    }
                },
            }
        }
        best.unwrap()
    }

    /// Gets the entry with the lowest count; of several such entries, the
    /// one with the lowest key.
    pub fn get_lowest(&self) -> (r: (&T, &u128))
        requires
            obeys_cmp::<T>(),
            self@.dom().len() > 0,
        ensures
            self@.contains_key(*r.0),
            self@[*r.0] == *r.1,
            is_lowest(self@, *r.1),
            forall|k: T|
                #[trigger] self@.contains_key(k) && k.cmp_spec(r.0) == Ordering::Less ==> *r.1
                    < self@[k],
    {
        let ghost m = self.data@;
        let mut best: Option<(&T, &u128)> = None;
        let ghost mut bi: int = 0;
        for item in it: self.data.iter()
            invariant
                m == self.data@,
                obeys_cmp::<T>(),
                increasing_seq(it.seq().map_values(|kv: (&T, &u128)| *kv.0)),
                best is None <==> it.index() == 0,
                best matches Some(b) ==> {
                    &&& 0 <= bi < it.index()
                    &&& b == it.seq()[bi]
                    &&& forall|j: int|
                        0 <= j < it.index() ==> *b.1 <= *(#[trigger] it.seq()[j]).1
                    &&& forall|j: int|
                        0 <= j < it.index() && (#[trigger] it.seq()[j]).0.cmp_spec(b.0)
                            == Ordering::Less ==> *b.1 < *it.seq()[j].1
                },
        {
            proof {
                broadcast use vstd::std_specs::btree::axiom_increasing_seq_meaning;

                lemma_less_asymmetric(*item.0, *item.0);
                let keys = it.seq().map_values(|kv: (&T, &u128)| *kv.0);
                if best is Some {
                    assert(keys[bi] == *it.seq()[bi].0);
                    assert(keys[it.index()] == *item.0);
                }
            }
            match best {
                None => {
                    best = Some(item);
                    proof {
                        bi = it.index();
                    }
                },
                Some(b) => {
                    proof {
                        if item.0.cmp_spec(b.0) == Ordering::Less {
                            lemma_less_asymmetric(*b.0, *item.0);
                        }
                    }
                    if *item.1 < *b.1 {
                        best = Some(item);
                        proof {
                            bi = it.index();
                        }
                    }
                },
            }
        }
        best.unwrap()
    }

    /// Gets the data currently stored.
    pub fn data(&self) -> (r: &BTreeMap<T, u128>)
        ensures
            r@ == self@,
    {
        &self.data
    }

    /// Gets the mutable data currently stored.
    pub fn data_mut(&mut self) -> (r: &mut BTreeMap<T, u128>)
        ensures
            r@ == old(self)@,
            final(self)@ == final(r)@,
    {
        &mut self.data
    }

    /// Sets the data currently stored.
    pub fn set_data(&mut self, data: BTreeMap<T, u128>)
        ensures
            final(self)@ == data@,
    {
        self.data = data;
    }

    /// Sets the data currently stored to the tally of `data`.
    pub fn set_data_list(&mut self, data: Vec<T>)
        requires
            obeys_cmp::<T>(),
        ensures
            tallies(final(self)@, data@.to_multiset()),
    {
        self.data = tally(data);
    }
}

} // verus!
