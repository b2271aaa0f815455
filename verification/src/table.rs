//! The variable table: a mapping from keys to values.

use vstd::prelude::*;
use vstd::hash_map::StringHashMap;
use crate::key_value::{pair_views, PairBuf};

verus! {

/// Whether a text can be a key: it is not empty and holds neither `=` nor NUL.
pub open spec fn is_valid_key(key: Seq<char>) -> bool {
    &&& key.len() > 0
    &&& forall|i: int| 0 <= i < key.len() ==> key[i] != '=' && key[i] != '\0'
}

/// Tells whether a text can be a key.
pub fn valid_key(key: &str) -> (valid: bool)
    ensures
        valid == is_valid_key(key@),
{
    let mut any = false;
    for c in it: key.chars()
        invariant
            it.seq() == key@,
            any == (it.index() > 0),
            forall|i: int| 0 <= i < it.index() ==> key@[i] != '=' && key@[i] != '\0',
    {
        if c == '=' || c == '\0' {
            return false;
        }
        any = true;
    }
    any
}

/// The mapping `m` after the pairs went in, one after the other: a later pair
/// takes the place of an earlier one with the same key, and a pair whose key
/// cannot be a key is passed over.
pub open spec fn with_pairs(
    m: Map<Seq<char>, Seq<char>>,
    pairs: Seq<(Seq<char>, Seq<char>)>,
) -> Map<Seq<char>, Seq<char>>
    decreases pairs.len(),
{
    if pairs.len() == 0 {
        m
    } else {
        let before = with_pairs(m, pairs.drop_last());
        if is_valid_key(pairs.last().0) {
            before.insert(pairs.last().0, pairs.last().1)
        } else {
            before
        }
    }
}

/// The keys of the mapping `m`, in the order `order` in which they first went
/// in, after the pairs went in as well: a key that is new goes to the end.
pub open spec fn order_with_pairs(
    m: Map<Seq<char>, Seq<char>>,
    order: Seq<Seq<char>>,
    pairs: Seq<(Seq<char>, Seq<char>)>,
) -> Seq<Seq<char>>
    decreases pairs.len(),
{
    if pairs.len() == 0 {
        order
    } else {
        let before = order_with_pairs(m, order, pairs.drop_last());
        let key = pairs.last().0;
        if is_valid_key(key) && !with_pairs(m, pairs.drop_last()).contains_key(key) {
            before.push(key)
        } else {
            before
        }
    }
}

/// Pairs that go in in two parts give what they give in one.
pub proof fn lemma_with_pairs_concat(
    m: Map<Seq<char>, Seq<char>>,
    order: Seq<Seq<char>>,
    a: Seq<(Seq<char>, Seq<char>)>,
    b: Seq<(Seq<char>, Seq<char>)>,
)
    ensures
        with_pairs(m, a + b) == with_pairs(with_pairs(m, a), b),
        order_with_pairs(m, order, a + b) == order_with_pairs(
            with_pairs(m, a),
            order_with_pairs(m, order, a),
            b,
        ),
    decreases b.len(),
{
    if b.len() == 0 {
        assert(a + b =~= a);
    } else {
        assert((a + b).drop_last() =~= a + b.drop_last());
        lemma_with_pairs_concat(m, order, a, b.drop_last());
    }
}

/// The value of the last pair with the key `key`, if there is such a pair.
pub open spec fn last_value(pairs: Seq<(Seq<char>, Seq<char>)>, key: Seq<char>) -> Option<
    Seq<char>,
>
    decreases pairs.len(),
{
    if pairs.len() == 0 {
        None
    } else if pairs.last().0 == key {
        Some(pairs.last().1)
    } else {
        last_value(pairs.drop_last(), key)
    }
}

/// Whether the pairs list the mapping: each pair is an entry of it, each of
/// its keys has a pair, and no key comes twice.
pub open spec fn lists(pairs: Seq<(Seq<char>, Seq<char>)>, m: Map<Seq<char>, Seq<char>>) -> bool {
    &&& forall|i: int|
        0 <= i < pairs.len() ==> m.contains_key((#[trigger] pairs[i]).0) && m[pairs[i].0]
            == pairs[i].1
    &&& forall|k: Seq<char>|
        m.contains_key(k) ==> exists|i: int| 0 <= i < pairs.len() && (#[trigger] pairs[i]).0 == k
    &&& forall|i: int, j: int|
        0 <= i < j < pairs.len() ==> (#[trigger] pairs[i]).0 != (#[trigger] pairs[j]).0
}

/// A mapping from keys to values. Every key in it is valid, and a key has one
/// value: the one that was inserted last.
pub struct VariableTable {
    map: StringHashMap<String>,
    names: Vec<String>,
}

impl View for VariableTable {
    type V = Map<Seq<char>, Seq<char>>;

    closed spec fn view(&self) -> Map<Seq<char>, Seq<char>> {
        self.map@.map_values(|v: String| v@)
    }
}

impl VariableTable {
    /// The keys, in the order in which they first went in.
    pub closed spec fn order(&self) -> Seq<Seq<char>> {
        self.names@.map_values(|name: String| name@)
    }

    #[verifier::type_invariant]
    spec fn well_formed(self) -> bool {
        &&& forall|k: Seq<char>| self.map@.contains_key(k) ==> is_valid_key(k)
        &&& forall|i: int|
            0 <= i < self.names.len() ==> self.map@.contains_key(#[trigger] self.names[i]@)
        &&& forall|k: Seq<char>|
            self.map@.contains_key(k) ==> exists|i: int|
                0 <= i < self.names.len() && #[trigger] self.names[i]@ == k
        &&& forall|i: int, j: int|
            0 <= i < j < self.names.len() ==> #[trigger] self.names[i]@
                != #[trigger] self.names[j]@
    }

    /// An empty table.
    pub fn new() -> (table: Self)
        ensures
            table@ == Map::<Seq<char>, Seq<char>>::empty(),
            table.order() == Seq::<Seq<char>>::empty(),
    {
        let table = VariableTable { map: StringHashMap::new(), names: Vec::new() };
        assert(table@ =~= Map::<Seq<char>, Seq<char>>::empty());
        assert(table.order() =~= Seq::<Seq<char>>::empty());
        table
    }

    /// Gives `key` the value `value`, whatever value it had. A text that
    /// cannot be a key is refused, and the table stays as it was.
    pub fn insert(&mut self, key: String, value: String) -> (inserted: bool)
        ensures
            inserted == is_valid_key(key@),
            final(self)@ == if inserted {
                old(self)@.insert(key@, value@)
            } else {
                old(self)@
            },
            final(self).order() == if inserted && !old(self)@.contains_key(key@) {
                old(self).order().push(key@)
            } else {
                old(self).order()
            },
    {
        proof {
            use_type_invariant(&*self);
        }
        if !valid_key(key.as_str()) {
            return false;
        }
        let mut taken = VariableTable::new();
        core::mem::swap(self, &mut taken);
        let mut map = taken.map;
        let mut names = taken.names;
        let ghost old_names = names@;
        if !map.contains_key(key.as_str()) {
            names.push(key.clone());
        }
        map.insert(key, value);
        proof {
            let old_map = old(self).map@;
            assert(map@ == old_map.insert(key@, value));
            assert(forall|i: int| 0 <= i < old_names.len() ==> names[i] == old_names[i]);
            assert forall|k: Seq<char>| map@.contains_key(k) implies is_valid_key(k) by {
                if k != key@ {
                    assert(old_map.contains_key(k));
                }
            }
            assert forall|i: int| 0 <= i < names.len() implies map@.contains_key(
                #[trigger] names[i]@,
            ) by {
                if i < old_names.len() {
                    assert(old_map.contains_key(old_names[i]@));
                }
            }
            assert forall|i: int, j: int| 0 <= i < j < names.len() implies #[trigger] names[i]@
                != #[trigger] names[j]@ by {
                if j < old_names.len() {
                    assert(old_names[i]@ != old_names[j]@);
                } else {
                    assert(old_map.contains_key(old_names[i]@));
                }
            }
            assert forall|k: Seq<char>| map@.contains_key(k) implies exists|i: int|
                0 <= i < names.len() && #[trigger] names[i]@ == k by {
                if k == key@ {
                    if old(self).map@.contains_key(key@) {
                        let i = choose|i: int|
                            0 <= i < old_names.len() && #[trigger] old_names[i]@ == k;
                        assert(names[i]@ == k);
                    } else {
                        assert(names[old_names.len() as int]@ == k);
                    }
                } else {
                    let i = choose|i: int|
                        0 <= i < old_names.len() && #[trigger] old_names[i]@ == k;
                    assert(names[i]@ == k);
                }
            }
        }
        proof {
            let t = VariableTable { map, names };
            assert forall|k: Seq<char>| t.map@.contains_key(k) implies exists|i: int|
                0 <= i < t.names.len() && #[trigger] t.names[i]@ == k by {
                let i = choose|i: int| 0 <= i < names.len() && #[trigger] names[i]@ == k;
                assert(t.names[i]@ == k);
            }
        }
        *self = VariableTable { map, names };
        assert(self@ =~= old(self)@.insert(key@, value@));
        assert(self.order() =~= if old(self)@.contains_key(key@) {
            old(self).order()
        } else {
            old(self).order().push(key@)
        });
        true
    }

    /// The value of `key`, if it has one.
    pub fn get(&self, key: &str) -> (value: Option<&String>)
        ensures
            match value {
                Some(v) => self@.contains_key(key@) && v@ == self@[key@] && is_valid_key(key@),
                None => !self@.contains_key(key@),
            },
    {
        proof {
            use_type_invariant(self);
        }
        self.map.get(key)
    }

    /// Whether `key` has a value.
    pub fn contains_key(&self, key: &str) -> (found: bool)
        ensures
            found == self@.contains_key(key@),
            found ==> is_valid_key(key@),
    {
        proof {
            use_type_invariant(self);
        }
        self.map.contains_key(key)
    }

    /// The number of keys.
    pub fn len(&self) -> (n: usize)
        ensures
            n == self@.len(),
    {
        assert(self@.dom() =~= self.map@.dom());
        self.map.len()
    }

    /// Whether the table holds no key.
    pub fn is_empty(&self) -> (empty: bool)
        ensures
            empty == (self@.len() == 0),
    {
        self.len() == 0
    }

    /// The entries of the table, each key once, in the order in which the
    /// keys first went in.
    pub fn entries(&self) -> (pairs: Vec<PairBuf>)
        ensures
            lists(pair_views(pairs@), self@),
            pair_views(pairs@).map_values(|p: (Seq<char>, Seq<char>)| p.0) == self.order(),
            forall|i: int| 0 <= i < pairs.len() ==> is_valid_key(#[trigger] pairs[i].key@),
    {
        proof {
            use_type_invariant(self);
        }
        let mut pairs: Vec<PairBuf> = Vec::new();
        let n = self.names.len();
        let mut i: usize = 0;
        while i < n
            invariant
                i <= n,
                n == self.names.len(),
                self.well_formed(),
                pairs.len() == i,
                forall|j: int|
                    0 <= j < i ==> (#[trigger] pairs[j]).key@ == self.names[j]@ && pairs[j].value@
                        == self@[self.names[j]@],
            decreases n - i,
        {
            let name = &self.names[i];
            match self.map.get(name.as_str()) {
                Some(value) => {
                    pairs.push(PairBuf { key: name.clone(), value: value.clone() });
                },
                None => {
                    assert(false);
                },
            }
            i = i + 1;
        }
        proof {
            let views = pair_views(pairs@);
            assert forall|k: Seq<char>| self@.contains_key(k) implies exists|j: int|
                0 <= j < views.len() && (#[trigger] views[j]).0 == k by {
                let j = choose|j: int| 0 <= j < self.names.len() && #[trigger] self.names[j]@ == k;
                assert(views[j].0 == k);
            }
            assert(views.map_values(|p: (Seq<char>, Seq<char>)| p.0) =~= self.order());
        }
        pairs
    }

    /// Puts the pairs into the table, one after the other. A later pair takes
    /// the place of an earlier one with the same key, and of what the table
    /// held for it.
    pub fn extend(&mut self, pairs: &Vec<PairBuf>)
        ensures
            final(self)@ == with_pairs(old(self)@, pair_views(pairs@)),
            final(self).order() == order_with_pairs(
                old(self)@,
                old(self).order(),
                pair_views(pairs@),
            ),
    {
        let ghost views = pair_views(pairs@);
        let n = pairs.len();
        let mut i: usize = 0;
        while i < n
            invariant
                i <= n,
                n == pairs.len(),
                views == pair_views(pairs@),
                self@ == with_pairs(old(self)@, views.take(i as int)),
                self.order() == order_with_pairs(
                    old(self)@,
                    old(self).order(),
                    views.take(i as int),
                ),
            decreases n - i,
        {
            let pair = &pairs[i];
            self.insert(pair.key.clone(), pair.value.clone());
            proof {
                assert(views.take(i + 1).drop_last() =~= views.take(i as int));
                assert(views.take(i + 1).last() == (pair.key@, pair.value@));
            }
            i = i + 1;
        }
        assert(views.take(n as int) =~= views);
    }

    /// The table of the variables from three sources: the environment first,
    /// then the pairs of a file, then the pairs that were given one by one.
    /// Where a key comes from more than one source, the later source wins.
    pub fn from_sources(
        environment: &Vec<PairBuf>,
        file: &Vec<PairBuf>,
        explicit: &Vec<PairBuf>,
    ) -> (table: Self)
        ensures
            table@ == with_pairs(
                with_pairs(with_pairs(Map::empty(), pair_views(environment@)), pair_views(file@)),
                pair_views(explicit@),
            ),
            table.order() == order_with_pairs(
                Map::empty(),
                Seq::empty(),
                pair_views(environment@) + pair_views(file@) + pair_views(explicit@),
            ),
    {
        let mut table = VariableTable::new();
        table.extend(environment);
        table.extend(file);
        table.extend(explicit);
        proof {
            let first = pair_views(environment@);
            let second = pair_views(file@);
            lemma_with_pairs_concat(Map::empty(), Seq::empty(), first, second);
            lemma_with_pairs_concat(
                Map::empty(),
                Seq::empty(),
                first + second,
                pair_views(explicit@),
            );
        }
        table
    }
}

} // verus!
