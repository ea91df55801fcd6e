//! A mapping from attribute names to attribute values, with unique keys.
use vstd::prelude::*;

verus! {

/// The map that a list of entries describes; a later entry wins over an earlier one.
pub open spec fn entries_map(e: Seq<(String, String)>) -> Map<Seq<char>, Seq<char>>
    decreases e.len(),
{
    if e.len() == 0 {
        Map::empty()
    } else {
        entries_map(e.drop_last()).insert(e.last().0@, e.last().1@)
    }
}

pub open spec fn keys_distinct(e: Seq<(String, String)>) -> bool {
    forall|i: int, j: int| 0 <= i < j < e.len() ==> (#[trigger] e[i]).0@ != (#[trigger] e[j]).0@
}

/// With distinct keys, the map holds exactly the entries' keys, each with its entry's value.
pub proof fn lemma_entries_map(e: Seq<(String, String)>)
    requires
        keys_distinct(e),
    ensures
        forall|k: Seq<char>|
            #[trigger] entries_map(e).contains_key(k) <==> exists|i: int|
                0 <= i < e.len() && (#[trigger] e[i]).0@ == k,
        forall|i: int| 0 <= i < e.len() ==> entries_map(e)[(#[trigger] e[i]).0@] == e[i].1@,
        entries_map(e).dom().finite(),
        entries_map(e).dom().len() == e.len(),
    decreases e.len(),
{
    if e.len() > 0 {
        let p = e.drop_last();
        assert(keys_distinct(p)) by {
            assert forall|i: int, j: int| 0 <= i < j < p.len() implies (#[trigger] p[i]).0@ != (
            #[trigger] p[j]).0@ by {
                assert(p[i] == e[i] && p[j] == e[j]);
            }
        }
        lemma_entries_map(p);
        let n = e.len() - 1;
        assert(!entries_map(p).contains_key(e[n].0@)) by {
            if entries_map(p).contains_key(e[n].0@) {
                let i = choose|i: int| 0 <= i < p.len() && (#[trigger] p[i]).0@ == e[n].0@;
                assert(p[i] == e[i]);
            }
        }
        assert forall|k: Seq<char>| #[trigger] entries_map(e).contains_key(k) <==> exists|i: int|
            0 <= i < e.len() && (#[trigger] e[i]).0@ == k by {
            if entries_map(e).contains_key(k) && k != e[n].0@ {
                let i = choose|i: int| 0 <= i < p.len() && (#[trigger] p[i]).0@ == k;
                assert(p[i] == e[i]);
            }
            if exists|i: int| 0 <= i < e.len() && (#[trigger] e[i]).0@ == k {
                let i = choose|i: int| 0 <= i < e.len() && (#[trigger] e[i]).0@ == k;
                if i < n {
                    assert(p[i] == e[i]);
                }
            }
        }
        assert forall|i: int| 0 <= i < e.len() implies entries_map(e)[(#[trigger] e[i]).0@]
            == e[i].1@ by {
            if i < n {
                assert(p[i] == e[i]);
            }
        }
    }
}

/// Attribute names and values of a tag. Keys are unique; a later insertion
/// under an existing key replaces its value.
#[derive(Debug, Clone)]
pub struct Attributes {
    entries: Vec<(String, String)>,
}

impl View for Attributes {
    type V = Map<Seq<char>, Seq<char>>;

    closed spec fn view(&self) -> Map<Seq<char>, Seq<char>> {
        entries_map(self.entries@)
    }
}

impl Attributes {
    pub closed spec fn wf(&self) -> bool {
        keys_distinct(self.entries@)
    }

    /// The entries in the order in which their keys were first inserted.
    pub closed spec fn entry_seq(&self) -> Seq<(String, String)> {
        self.entries@
    }

    pub proof fn lemma_wf(&self)
        requires
            self.wf(),
        ensures
            self@.dom().finite(),
            self@.dom().len() == self.entry_seq().len(),
            forall|k: Seq<char>|
                #[trigger] self@.contains_key(k) <==> exists|i: int|
                    0 <= i < self.entry_seq().len() && (#[trigger] self.entry_seq()[i]).0@ == k,
            forall|i: int|
                0 <= i < self.entry_seq().len() ==> self@[(#[trigger] self.entry_seq()[i]).0@]
                    == self.entry_seq()[i].1@,
    {
        lemma_entries_map(self.entries@);
    }

    pub fn new() -> (r: Self)
        ensures
            r.wf(),
            r@ == Map::<Seq<char>, Seq<char>>::empty(),
            r.entry_seq().len() == 0,
    {
        Attributes { entries: Vec::new() }
    }

    /// The number of attributes.
    pub fn len(&self) -> (r: usize)
        requires
            self.wf(),
        ensures
            r == self@.dom().len(),
    {
        proof {
            self.lemma_wf();
        }
        self.entries.len()
    }

    /// The entries, in order of first insertion.
    pub fn entries(&self) -> (r: &Vec<(String, String)>)
        ensures
            r@ == self.entry_seq(),
    {
        &self.entries
    }

    /// The index of the last entry with key `key`, if any.
    fn find(&self, key: &str) -> (r: Option<usize>)
        ensures
            match r {
                Some(i) => i < self.entry_seq().len() && self.entry_seq()[i as int].0@ == key@
                    && self@.contains_key(key@) && self@[key@] == self.entry_seq()[i as int].1@,
                None => !self@.contains_key(key@),
            },
    {
        let wanted = key.to_owned();
        let mut i: usize = self.entries.len();
        while i > 0
            invariant
                wanted@ == key@,
                i <= self.entries@.len(),
                forall|j: int| i <= j < self.entries@.len() ==> (#[trigger] self.entries@[j]).0@ != key@,
            decreases i,
        {
            if self.entries[i - 1].0 == wanted {
                proof {
                    lemma_entries_map_last(self.entries@, i - 1);
                }
                return Some(i - 1);
            }
            i = i - 1;
        }
        proof {
            lemma_entries_map_absent(self.entries@, key@);
        }
        None
    }

    /// The value stored under `key`, if any.
    pub fn get(&self, key: &str) -> (r: Option<&String>)
        ensures
            match r {
                Some(v) => self@.contains_key(key@) && self@[key@] == v@,
                None => !self@.contains_key(key@),
            },
    {
        match self.find(key) {
            Some(i) => Some(&self.entries[i].1),
            None => None,
        }
    }

    /// Stores `value` under `key`, replacing any earlier value.
    pub fn insert(&mut self, key: String, value: String)
        requires
            old(self).wf(),
        ensures
            final(self).wf(),
            final(self)@ == old(self)@.insert(key@, value@),
    {
        proof {
            self.lemma_wf();
        }
        let ghost k = key@;
        let ghost v = value@;
        let ghost before = self.entries@;
        match self.find(key.as_str()) {
            Some(i) => {
                self.entries.set(i, (key, value));
                let ghost after = self.entries@;
                assert(keys_distinct(after)) by {
                    assert forall|a: int, b: int| 0 <= a < b < after.len() implies (
                    #[trigger] after[a]).0@ != (#[trigger] after[b]).0@ by {
                        assert(before[a].0@ != before[b].0@);
                    }
                }
                proof {
                    lemma_entries_map(after);
                    assert forall|x: Seq<char>| #[trigger] entries_map(after).contains_key(x)
                        <==> entries_map(before).insert(k, v).contains_key(x) by {
                        if exists|j: int| 0 <= j < before.len() && (#[trigger] before[j]).0@ == x {
                            let j = choose|j: int| 0 <= j < before.len() && (#[trigger] before[j]).0@ == x;
                            assert(after[j].0@ == x);
                        }
                        if exists|j: int| 0 <= j < after.len() && (#[trigger] after[j]).0@ == x {
                            let j = choose|j: int| 0 <= j < after.len() && (#[trigger] after[j]).0@ == x;
                            if j != i {
                                assert(before[j].0@ == x);
                            }
                        }
                    }
                    assert forall|x: Seq<char>| #[trigger] entries_map(after).contains_key(x)
                        implies entries_map(after)[x] == entries_map(before).insert(k, v)[x] by {
                        let j = choose|j: int| 0 <= j < after.len() && (#[trigger] after[j]).0@ == x;
                        if j != i {
                            assert(before[j] == after[j]);
                        }
                    }
                    assert(entries_map(after) =~= entries_map(before).insert(k, v));
                }
            },
            None => {
                self.entries.push((key, value));
                let ghost after = self.entries@;
                assert(after.drop_last() == before);
                assert(keys_distinct(after)) by {
                    assert forall|a: int, b: int| 0 <= a < b < after.len() implies (
                    #[trigger] after[a]).0@ != (#[trigger] after[b]).0@ by {
                        if b == before.len() {
                            assert(after[a] == before[a]);
                        } else {
                            assert(before[a].0@ != before[b].0@);
                        }
                    }
                }
            },
        }
    }
}

impl PartialEq for Attributes {
    /// Equal when both map the same names to the same values, in whatever order.
    fn eq(&self, other: &Attributes) -> (r: bool) {
        let mut i: usize = 0;
        while i < self.entries.len()
            invariant
                i <= self.entries@.len(),
                forall|j: int|
                    0 <= j < i ==> other@.contains_key((#[trigger] self.entries@[j]).0@) && other@[self.entries@[j].0@]
                        == self@[self.entries@[j].0@],
            decreases self.entries@.len() - i,
        {
            let key = self.entries[i].0.as_str();
            proof {
                lemma_entries_map_present(self.entries@, i as int);
            }
            match (self.get(key), other.get(key)) {
                (Some(a), Some(b)) => {
                    if *a != *b {
                        return false;
                    }
                },
                _ => {
                    return false;
                },
            }
            i = i + 1;
        }
        let mut k: usize = 0;
        while k < other.entries.len()
            invariant
                k <= other.entries@.len(),
                forall|j: int| 0 <= j < k ==> self@.contains_key((#[trigger] other.entries@[j]).0@),
            decreases other.entries@.len() - k,
        {
            let key = other.entries[k].0.as_str();
            if self.get(key).is_none() {
                proof {
                    lemma_entries_map_present(other.entries@, k as int);
                }
                return false;
            }
            k = k + 1;
        }
        proof {
            assert forall|x: Seq<char>| #[trigger] self@.contains_key(x) <==> other@.contains_key(x) by {
                lemma_entries_map_keys(self.entries@, x);
                lemma_entries_map_keys(other.entries@, x);
            }
            assert forall|x: Seq<char>| #[trigger] self@.contains_key(x) implies self@[x] == other@[x] by {
                lemma_entries_map_keys(self.entries@, x);
            }
            assert(self@ =~= other@);
        }
        true
    }
}

impl vstd::std_specs::cmp::PartialEqSpecImpl for Attributes {
    open spec fn obeys_eq_spec() -> bool {
        true
    }

    open spec fn eq_spec(&self, other: &Attributes) -> bool {
        self@ == other@
    }
}

/// The map holds the key of the last entry with that key, with that entry's value.
pub proof fn lemma_entries_map_last(e: Seq<(String, String)>, i: int)
    requires
        0 <= i < e.len(),
        forall|j: int| i < j < e.len() ==> (#[trigger] e[j]).0@ != e[i].0@,
    ensures
        entries_map(e).contains_key(e[i].0@),
        entries_map(e)[e[i].0@] == e[i].1@,
    decreases e.len(),
{
    if i < e.len() - 1 {
        let p = e.drop_last();
        assert forall|j: int| i < j < p.len() implies (#[trigger] p[j]).0@ != p[i].0@ by {
            assert(p[j] == e[j]);
        }
        lemma_entries_map_last(p, i);
        assert(e[e.len() - 1].0@ != e[i].0@);
    }
}

/// A key that no entry has is not in the map.
pub proof fn lemma_entries_map_absent(e: Seq<(String, String)>, k: Seq<char>)
    requires
        forall|j: int| 0 <= j < e.len() ==> (#[trigger] e[j]).0@ != k,
    ensures
        !entries_map(e).contains_key(k),
    decreases e.len(),
{
    if e.len() > 0 {
        let p = e.drop_last();
        assert forall|j: int| 0 <= j < p.len() implies (#[trigger] p[j]).0@ != k by {
            assert(p[j] == e[j]);
        }
        lemma_entries_map_absent(p, k);
    }
}

/// The key of every entry is in the map.
pub proof fn lemma_entries_map_present(e: Seq<(String, String)>, i: int)
    requires
        0 <= i < e.len(),
    ensures
        entries_map(e).contains_key(e[i].0@),
    decreases e.len(),
{
    if i < e.len() - 1 {
        lemma_entries_map_present(e.drop_last(), i);
        assert(e.drop_last()[i] == e[i]);
    }
}

/// A key is in the map exactly when some entry has it.
pub proof fn lemma_entries_map_keys(e: Seq<(String, String)>, k: Seq<char>)
    ensures
        entries_map(e).contains_key(k) <==> exists|j: int| 0 <= j < e.len() && (#[trigger] e[j]).0@ == k,
{
    if exists|j: int| 0 <= j < e.len() && (#[trigger] e[j]).0@ == k {
        let j = choose|j: int| 0 <= j < e.len() && (#[trigger] e[j]).0@ == k;
        lemma_entries_map_present(e, j);
    } else {
        lemma_entries_map_absent(e, k);
    }
}

} // verus!
