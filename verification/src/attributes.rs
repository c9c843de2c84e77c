//! The attributes of a node: a map from names to values in which a later
//! value for a name replaces the earlier one.
use vstd::prelude::*;

verus! {

/// The map that a list of entries builds when inserted in order.
pub open spec fn map_of(entries: Seq<(Seq<char>, Seq<char>)>) -> Map<Seq<char>, Seq<char>>
    decreases entries.len(),
{
    if entries.len() == 0 {
        Map::empty()
    } else {
        map_of(entries.drop_last()).insert(entries.last().0, entries.last().1)
    }
}

/// No name occurs twice among the entries.
pub open spec fn distinct_names(entries: Seq<(Seq<char>, Seq<char>)>) -> bool {
    forall|i: int, j: int|
        0 <= i < entries.len() && 0 <= j < entries.len() && i != j ==> #[trigger] entries[i].0
            != #[trigger] entries[j].0
}

/// Attribute names and their values.
#[derive(Debug)]
pub struct Attributes {
    entries: Vec<(String, String)>,
}

impl Attributes {
    /// The entries, as texts, in the order of their first insertion.
    pub closed spec fn entries_view(&self) -> Seq<(Seq<char>, Seq<char>)> {
        self.entries@.map_values(|e: (String, String)| (e.0@, e.1@))
    }

    #[verifier::type_invariant]
    closed spec fn wf(&self) -> bool {
        distinct_names(self.entries_view())
    }
}

impl View for Attributes {
    type V = Map<Seq<char>, Seq<char>>;

    closed spec fn view(&self) -> Map<Seq<char>, Seq<char>> {
        map_of(self.entries_view())
    }
}

/// With distinct names, the map holds exactly the entries.
proof fn lemma_map_of_lookup(entries: Seq<(Seq<char>, Seq<char>)>)
    requires
        distinct_names(entries),
    ensures
        forall|k: Seq<char>|
            #[trigger] map_of(entries).contains_key(k) <==> exists|i: int|
                0 <= i < entries.len() && #[trigger] entries[i].0 == k,
        forall|i: int|
            0 <= i < entries.len() ==> #[trigger] map_of(entries)[entries[i].0] == entries[i].1,
    decreases entries.len(),
{
    if entries.len() > 0 {
        let init = entries.drop_last();
        assert(distinct_names(init)) by {
            assert forall|i: int, j: int|
                0 <= i < init.len() && 0 <= j < init.len() && i != j implies #[trigger] init[i].0
                != #[trigger] init[j].0 by {
                assert(init[i] == entries[i] && init[j] == entries[j]);
            }
        }
        lemma_map_of_lookup(init);
        let last = entries.last();
        let m = map_of(entries);
        assert(m == map_of(init).insert(last.0, last.1));
        assert forall|k: Seq<char>|
            #[trigger] m.contains_key(k) <==> exists|i: int|
                0 <= i < entries.len() && #[trigger] entries[i].0 == k by {
            if m.contains_key(k) {
                if k == last.0 {
                    assert(entries[entries.len() - 1].0 == k);
                } else {
                    assert(map_of(init).contains_key(k));
                    let i = choose|i: int| 0 <= i < init.len() && #[trigger] init[i].0 == k;
                    assert(entries[i] == init[i]);
                }
            }
            if exists|i: int| 0 <= i < entries.len() && #[trigger] entries[i].0 == k {
                let i = choose|i: int| 0 <= i < entries.len() && #[trigger] entries[i].0 == k;
                if i < entries.len() - 1 {
                    assert(init[i] == entries[i]);
                    assert(map_of(init).contains_key(k));
                }
            }
        }
        assert forall|i: int| 0 <= i < entries.len() implies #[trigger] m[entries[i].0]
            == entries[i].1 by {
            if i < entries.len() - 1 {
                assert(init[i] == entries[i]);
                assert(entries[i].0 != entries[entries.len() - 1].0);
                assert(map_of(init)[init[i].0] == init[i].1);
            }
        }
    }
}

/// Replacing the value of an entry is inserting into the map.
proof fn lemma_map_of_update(
    entries: Seq<(Seq<char>, Seq<char>)>,
    i: int,
    k: Seq<char>,
    v: Seq<char>,
)
    requires
        distinct_names(entries),
        0 <= i < entries.len(),
        entries[i].0 == k,
    ensures
        map_of(entries.update(i, (k, v))) == map_of(entries).insert(k, v),
    decreases entries.len(),
{
    let n = entries.len();
    let init = entries.drop_last();
    if i == n - 1 {
        assert(entries.update(i, (k, v)).drop_last() =~= init);
        assert(map_of(entries.update(i, (k, v))) =~= map_of(entries).insert(k, v));
    } else {
        assert(distinct_names(init)) by {
            assert forall|a: int, b: int|
                0 <= a < init.len() && 0 <= b < init.len() && a != b implies #[trigger] init[a].0
                != #[trigger] init[b].0 by {
                assert(init[a] == entries[a] && init[b] == entries[b]);
            }
        }
        lemma_map_of_update(init, i, k, v);
        assert(entries.update(i, (k, v)).drop_last() =~= init.update(i, (k, v)));
        let last = entries.last();
        assert(last.0 != k) by {
            assert(entries[n - 1].0 != entries[i].0);
        }
        assert(map_of(entries.update(i, (k, v))) =~= map_of(entries).insert(k, v));
    }
}

impl Attributes {
    /// No attributes.
    pub fn new() -> (a: Self)
        ensures
            a@ == Map::<Seq<char>, Seq<char>>::empty(),
    {
        let a = Attributes { entries: Vec::new() };
        assert(a.entries_view() =~= Seq::empty());
        a
    }

    /// Position of the entry named `key`, if there is one.
    fn position(&self, key: &String) -> (r: Option<usize>)
        ensures
            match r {
                Some(i) => i < self.entries_view().len() && self.entries_view()[i as int].0
                    == key@,
                None => forall|i: int|
                    0 <= i < self.entries_view().len() ==> #[trigger] self.entries_view()[i].0
                        != key@,
            },
    {
        let mut i: usize = 0;
        while i < self.entries.len()
            invariant
                i <= self.entries@.len(),
                forall|j: int| 0 <= j < i ==> #[trigger] self.entries_view()[j].0 != key@,
            decreases self.entries.len() - i,
        {
            if self.entries[i].0 == *key {
                return Some(i);
            }
            i = i + 1;
        }
        None
    }

    /// Sets the value of `key` to `value`, replacing an earlier value.
    pub fn insert(&mut self, key: String, value: String)
        ensures
            final(self)@ == old(self)@.insert(key@, value@),
    {
        proof {
            use_type_invariant(&*self);
        }
        let ghost k = key@;
        let ghost v = value@;
        let ghost before = self.entries_view();
        let found = self.position(&key);
        let mut entries: Vec<(String, String)> = Vec::new();
        std::mem::swap(&mut entries, &mut self.entries);
        match found {
            Some(i) => {
                entries.set(i, (key, value));
                proof {
                    let after = entries@.map_values(|e: (String, String)| (e.0@, e.1@));
                    assert(after =~= before.update(i as int, (k, v)));
                    lemma_map_of_update(before, i as int, k, v);
                    assert(distinct_names(after)) by {
                        assert forall|a: int, b: int|
                            0 <= a < after.len() && 0 <= b < after.len() && a != b implies
                            #[trigger] after[a].0 != #[trigger] after[b].0 by {
                            assert(after[a].0 == before[a].0 && after[b].0 == before[b].0);
                        }
                    }
                }
            },
            None => {
                entries.push((key, value));
                proof {
                    let after = entries@.map_values(|e: (String, String)| (e.0@, e.1@));
                    assert(after =~= before.push((k, v)));
                    assert(after.drop_last() =~= before);
                    assert(distinct_names(after)) by {
                        assert forall|a: int, b: int|
                            0 <= a < after.len() && 0 <= b < after.len() && a != b implies
                            #[trigger] after[a].0 != #[trigger] after[b].0 by {
                            if a < before.len() && b < before.len() {
                                assert(after[a] == before[a] && after[b] == before[b]);
                            } else if a == before.len() {
                                assert(after[b] == before[b]);
                            } else {
                                assert(after[a] == before[a]);
                            }
                        }
                    }
                }
            },
        }
        self.entries = entries;
    }
}

impl Attributes {
    /// The value of `key`, if it has one.
    pub fn get(&self, key: &str) -> (r: Option<&String>)
        ensures
            match r {
                Some(v) => self@.contains_key(key@) && v@ == self@[key@],
                None => !self@.contains_key(key@),
            },
    {
        proof {
            use_type_invariant(self);
            lemma_map_of_lookup(self.entries_view());
        }
        let k = key.to_owned();
        match self.position(&k) {
            Some(i) => {
                proof {
                    assert(self.entries_view()[i as int].0 == key@);
                }
                Some(&self.entries[i].1)
            },
            None => {
                proof {
                    if self@.contains_key(key@) {
                        let i = choose|i: int|
                            0 <= i < self.entries_view().len() && #[trigger] self.entries_view()[i].0
                                == key@;
                    }
                }
                None
            },
        }
    }

    /// The number of names that have a value.
    pub fn len(&self) -> (n: usize)
        ensures
            n == self@.dom().len(),
    {
        proof {
            use_type_invariant(self);
            lemma_map_of_len(self.entries_view());
        }
        self.entries.len()
    }

    /// The attributes that inserting `pairs` in order gives: a later value for
    /// a name replaces an earlier one.
    pub fn from_pairs(pairs: Vec<(String, String)>) -> (a: Self)
        ensures
            a@ == map_of(pairs@.map_values(|e: (String, String)| (e.0@, e.1@))),
    {
        let ghost pv = pairs@.map_values(|e: (String, String)| (e.0@, e.1@));
        let mut a = Attributes::new();
        assert(pv.len() == pairs@.len());
        assert(pv.skip(0) =~= pv);
        assert(pv.take(0) =~= Seq::<(Seq<char>, Seq<char>)>::empty());
        let n = pairs.len();
        let mut rest = pairs;
        let mut i: usize = 0;
        while rest.len() > 0
            invariant
                n == pv.len(),
                i + rest@.len() == n,
                rest@.map_values(|e: (String, String)| (e.0@, e.1@)) == pv.skip(i as int),
                a@ == map_of(pv.take(i as int)),
            decreases rest.len(),
        {
            let ghost before = rest@;
            let e = rest.remove(0);
            proof {
                let bv = before.map_values(|e: (String, String)| (e.0@, e.1@));
                assert(bv == pv.skip(i as int));
                assert(bv[0] == pv[i as int]);
                let rv = rest@.map_values(|e: (String, String)| (e.0@, e.1@));
                assert forall|x: int| 0 <= x < rv.len() implies rv[x] == pv.skip(i + 1)[x] by {
                    assert(rest@[x] == before[x + 1]);
                    assert(bv[x + 1] == pv.skip(i as int)[x + 1]);
                }
                assert(rv =~= pv.skip(i + 1));
                assert(pv.take(i + 1).drop_last() =~= pv.take(i as int));
                assert(pv.take(i + 1).last() == pv[i as int]);
            }
            a.insert(e.0, e.1);
            i = i + 1;
        }
        assert(pv.take(n as int) =~= pv);
        a
    }
}

/// With distinct names, there are as many names as entries.
proof fn lemma_map_of_len(entries: Seq<(Seq<char>, Seq<char>)>)
    requires
        distinct_names(entries),
    ensures
        map_of(entries).dom().finite(),
        map_of(entries).dom().len() == entries.len(),
    decreases entries.len(),
{
    if entries.len() > 0 {
        let init = entries.drop_last();
        assert(distinct_names(init)) by {
            assert forall|a: int, b: int|
                0 <= a < init.len() && 0 <= b < init.len() && a != b implies #[trigger] init[a].0
                != #[trigger] init[b].0 by {
                assert(init[a] == entries[a] && init[b] == entries[b]);
            }
        }
        lemma_map_of_len(init);
        lemma_map_of_lookup(init);
        let last = entries.last();
        if map_of(init).contains_key(last.0) {
            let i = choose|i: int| 0 <= i < init.len() && #[trigger] init[i].0 == last.0;
            assert(entries[i] == init[i]);
            assert(entries[i].0 == entries[entries.len() - 1].0);
        }
        assert(map_of(entries).dom() =~= map_of(init).dom().insert(last.0));
    }
}

impl PartialEq for Attributes {
    fn eq(&self, other: &Self) -> (r: bool) {
        proof {
            use_type_invariant(self);
            use_type_invariant(other);
            lemma_map_of_lookup(self.entries_view());
            lemma_map_of_lookup(other.entries_view());
        }
        let ghost sv = self.entries_view();
        let ghost ov = other.entries_view();
        let mut i: usize = 0;
        while i < self.entries.len()
            invariant
                i <= sv.len(),
                sv == self.entries_view(),
                ov == other.entries_view(),
                self@ == map_of(sv),
                other@ == map_of(ov),
                forall|j: int|
                    0 <= j < i ==> other@.contains_key(#[trigger] sv[j].0) && other@[sv[j].0]
                        == sv[j].1,
                forall|j: int| 0 <= j < sv.len() ==> #[trigger] map_of(sv)[sv[j].0] == sv[j].1,
                forall|j: int| 0 <= j < ov.len() ==> #[trigger] map_of(ov)[ov[j].0] == ov[j].1,
                forall|k: Seq<char>|
                    #[trigger] map_of(sv).contains_key(k) <==> exists|x: int|
                        0 <= x < sv.len() && #[trigger] sv[x].0 == k,
                forall|k: Seq<char>|
                    #[trigger] map_of(ov).contains_key(k) <==> exists|j: int|
                        0 <= j < ov.len() && #[trigger] ov[j].0 == k,
            decreases self.entries.len() - i,
        {
            match other.position(&self.entries[i].0) {
                None => {
                    proof {
                        assert(self@.contains_key(sv[i as int].0));
                        assert(!other@.contains_key(sv[i as int].0));
                    }
                    return false;
                },
                Some(p) => {
                    if other.entries[p].1 != self.entries[i].1 {
                        proof {
                            assert(other@[sv[i as int].0] == ov[p as int].1);
                            assert(self@[sv[i as int].0] == sv[i as int].1);
                        }
                        return false;
                    }
                    proof {
                        assert(other@[sv[i as int].0] == ov[p as int].1);
                        assert(other@.contains_key(ov[p as int].0));
                    }
                },
            }
            i = i + 1;
        }
        let mut j: usize = 0;
        while j < other.entries.len()
            invariant
                j <= ov.len(),
                sv == self.entries_view(),
                ov == other.entries_view(),
                self@ == map_of(sv),
                other@ == map_of(ov),
                forall|k: int| 0 <= k < j ==> self@.contains_key(#[trigger] ov[k].0),
                forall|x: int|
                    0 <= x < sv.len() ==> other@.contains_key(#[trigger] sv[x].0) && other@[sv[x].0]
                        == sv[x].1,
                forall|x: int| 0 <= x < sv.len() ==> #[trigger] map_of(sv)[sv[x].0] == sv[x].1,
                forall|k: Seq<char>|
                    #[trigger] map_of(ov).contains_key(k) <==> exists|x: int|
                        0 <= x < ov.len() && #[trigger] ov[x].0 == k,
                forall|k: Seq<char>|
                    #[trigger] map_of(sv).contains_key(k) <==> exists|x: int|
                        0 <= x < sv.len() && #[trigger] sv[x].0 == k,
            decreases other.entries.len() - j,
        {
            match self.position(&other.entries[j].0) {
                None => {
                    proof {
                        assert(other@.contains_key(ov[j as int].0));
                        assert(!self@.contains_key(ov[j as int].0));
                    }
                    return false;
                },
                Some(p) => {
                    proof {
                        assert(self@.contains_key(sv[p as int].0));
                    }
                },
            }
            j = j + 1;
        }
        proof {
            assert forall|k: Seq<char>| #[trigger] self@.contains_key(k) implies other@.contains_key(
                k,
            ) && other@[k] == self@[k] by {
                let x = choose|x: int| 0 <= x < sv.len() && #[trigger] sv[x].0 == k;
            }
            assert forall|k: Seq<char>| #[trigger] other@.contains_key(k) implies self@.contains_key(
                k,
            ) by {
                let x = choose|x: int| 0 <= x < ov.len() && #[trigger] ov[x].0 == k;
            }
            assert(self@ =~= other@);
        }
        true
    }
}

impl vstd::std_specs::cmp::PartialEqSpecImpl for Attributes {
    open spec fn obeys_eq_spec() -> bool {
        true
    }

    open spec fn eq_spec(&self, other: &Self) -> bool {
        self@ == other@
    }
}

} // verus!
