//! The two maps of identity resolution: a name to its canonical name, and one
//! occurrence of a name (a row and a key) to the tag of its private entity.
use crate::sets::{find_name, in_order, rank};
use crate::text::{
    lemma_precedes_irreflexive, lemma_precedes_total, precedes, same_text, texts,
};
use vstd::prelude::*;
use vstd::string::*;

verus! {

spec fn map_of(keys: Seq<Seq<char>>, values: Seq<Seq<char>>) -> Map<Seq<char>, Seq<char>> {
    Map::new(|k: Seq<char>| keys.contains(k), |k: Seq<char>| values[keys.index_of(k)])
}

proof fn lemma_one_place(keys: Seq<Seq<char>>, i: int)
    requires
        in_order(keys),
        0 <= i < keys.len(),
    ensures
        keys.index_of(keys[i]) == i,
{
    let j = keys.index_of(keys[i]);
    assert(keys.contains(keys[i]));
    lemma_precedes_irreflexive(keys[i]);
    if i < j {
        assert(precedes(keys[i], keys[j]));
    } else if j < i {
        assert(precedes(keys[j], keys[i]));
    }
}

/// Names with their values, kept in the order of the names.
struct NameTable {
    keys: Vec<String>,
    values: Vec<String>,
}

impl NameTable {
    /// The names stand in order and each has a value.
    spec fn wf(&self) -> bool {
        &&& in_order(texts(self.keys@))
        &&& self.keys.len() == self.values.len()
    }

    spec fn entries(&self) -> Map<Seq<char>, Seq<char>> {
        map_of(texts(self.keys@), texts(self.values@))
    }

    fn new() -> (t: NameTable)
        ensures
            t.wf(),
            t.entries() == Map::<Seq<char>, Seq<char>>::empty(),
    {
        let t = NameTable { keys: Vec::new(), values: Vec::new() };
        assert(t.entries() =~= Map::<Seq<char>, Seq<char>>::empty());
        t
    }

    fn get(&self, name: &str) -> (r: Option<String>)
        requires
            self.wf(),
        ensures
            match r {
                Some(v) => self.entries().dom().contains(name@) && v@ == self.entries()[name@],
                None => !self.entries().dom().contains(name@),
            },
    {
        match find_name(&self.keys, name) {
            Some(i) => {
                proof {
                    lemma_one_place(texts(self.keys@), i as int);
                    assert(texts(self.values@)[i as int] == self.values@[i as int]@);
                }
                Some(self.values[i].clone())
            },
            None => None,
        }
    }

    fn insert(&mut self, name: String, value: String)
        requires
            old(self).wf(),
        ensures
            final(self).wf(),
            final(self).entries() == old(self).entries().insert(name@, value@),
    {
        let ghost k0 = texts(self.keys@);
        let ghost v0 = texts(self.values@);
        let ghost n = name@;
        let ghost v = value@;
        let p: usize = rank(&self.keys, name.as_str());
        if p < self.keys.len() && same_text(self.keys[p].as_str(), name.as_str()) {
            self.values.set(p, value);
            proof {
                let k1 = texts(self.keys@);
                let v1 = texts(self.values@);
                assert(v1 =~= v0.update(p as int, v));
                assert(k0[p as int] == n);
                assert(k0.contains(n));
                assert forall|x: Seq<char>| k0.contains(x) implies #[trigger] map_of(k1, v1)[x]
                    == map_of(k0, v0).insert(n, v)[x] by {
                    let i = k0.index_of(x);
                    assert(k0[p as int] == n);
                    lemma_one_place(k0, p as int);
                    if i != p {
                        lemma_one_place(k0, i);
                    }
                }
                assert(map_of(k1, v1) =~= map_of(k0, v0).insert(n, v));
            }
        } else {
            proof {
                assert forall|i: int| 0 <= i < k0.len() implies #[trigger] k0[i] != n by {
                    lemma_precedes_irreflexive(n);
                    if i > p && k0[i] == n {
                        assert(precedes(k0[p as int], k0[i]));
                    }
                }
            }
            self.keys.insert(p, name);
            self.values.insert(p, value);
            proof {
                let k1 = texts(self.keys@);
                let v1 = texts(self.values@);
                assert(k1 =~= k0.insert(p as int, n));
                assert(v1 =~= v0.insert(p as int, v));
                assert forall|i: int, j: int| 0 <= i < j < k1.len() implies precedes(
                    #[trigger] k1[i],
                    #[trigger] k1[j],
                ) by {
                    if i == p {
                        assert(!precedes(k0[j - 1], n));
                        lemma_precedes_total(n, k0[j - 1]);
                    } else if j == p {
                        assert(precedes(k0[i], n));
                    } else {
                        let a = if i < p { i } else { i - 1 };
                        let b = if j < p { j } else { j - 1 };
                        assert(precedes(k0[a], k0[b]));
                    }
                }
                assert forall|x: Seq<char>| k1.contains(x) == (k0.contains(x) || x == n) by {
                    if k1.contains(x) && x != n {
                        let i = choose|i: int| 0 <= i < k1.len() && k1[i] == x;
                        assert(k0[if i < p { i } else { i - 1 }] == x);
                    }
                    if k0.contains(x) {
                        let i = choose|i: int| 0 <= i < k0.len() && k0[i] == x;
                        assert(k1[if i < p { i } else { i + 1 }] == x);
                    }
                    assert(k1[p as int] == n);
                }
                assert forall|x: Seq<char>| k1.contains(x) implies #[trigger] map_of(k1, v1)[x]
                    == map_of(k0, v0).insert(n, v)[x] by {
                    let i = k1.index_of(x);
                    lemma_one_place(k1, p as int);
                    if x != n {
                        let j = if i < p { i } else { i - 1 };
                        assert(k0[j] == x);
                        lemma_one_place(k0, j);
                    }
                }
                assert(map_of(k1, v1) =~= map_of(k0, v0).insert(n, v));
            }
        }
    }
}

/// A map from names to names.
pub struct NameMap {
    table: NameTable,
}

impl View for NameMap {
    type V = Map<Seq<char>, Seq<char>>;

    closed spec fn view(&self) -> Map<Seq<char>, Seq<char>> {
        self.table.entries()
    }
}

impl NameMap {
    #[verifier::type_invariant]
    spec fn sound(&self) -> bool {
        self.table.wf()
    }

    /// The empty map.
    pub fn new() -> (m: NameMap)
        ensures
            m@ == Map::<Seq<char>, Seq<char>>::empty(),
    {
        NameMap { table: NameTable::new() }
    }

    /// The value of `name`, if it has one.
    pub fn get(&self, name: &str) -> (r: Option<String>)
        ensures
            match r {
                Some(v) => self@.dom().contains(name@) && v@ == self@[name@],
                None => !self@.dom().contains(name@),
            },
    {
        proof {
            use_type_invariant(self);
        }
        self.table.get(name)
    }

    /// Gives `name` the value `value`.
    pub fn insert(&mut self, name: String, value: String)
        ensures
            final(self)@ == old(self)@.insert(name@, value@),
    {
        proof {
            use_type_invariant(&*self);
        }
        let mut table = NameTable::new();
        std::mem::swap(&mut table, &mut self.table);
        table.insert(name, value);
        self.table = table;
    }
}

/// One override: the row, the key of the surface, and the tag.
pub type OverrideEntry = (String, String, String);

/// The overrides of a watch: a row and a key to a tag. A later entry for the
/// same occurrence replaces an earlier one.
pub struct OverrideMap {
    entries: Vec<OverrideEntry>,
}

/// The map that a list of overrides stands for.
pub open spec fn overrides_of(entries: Seq<OverrideEntry>) -> Map<
    (Seq<char>, Seq<char>),
    Seq<char>,
>
    decreases entries.len(),
{
    if entries.len() == 0 {
        Map::empty()
    } else {
        overrides_of(entries.drop_last()).insert(
            (entries.last().0@, entries.last().1@),
            entries.last().2@,
        )
    }
}

impl View for OverrideMap {
    type V = Map<(Seq<char>, Seq<char>), Seq<char>>;

    closed spec fn view(&self) -> Map<(Seq<char>, Seq<char>), Seq<char>> {
        overrides_of(self.entries@)
    }
}

impl OverrideMap {
    /// The overrides that a list of rows says.
    pub fn of(entries: Vec<OverrideEntry>) -> (m: OverrideMap)
        ensures
            m@ == overrides_of(entries@),
    {
        OverrideMap { entries }
    }

    /// The tag of the occurrence of `norm` in the row `source_pk`, if there is
    /// an override for it.
    pub fn get(&self, source_pk: &str, norm: &str) -> (r: Option<String>)
        ensures
            match r {
                Some(t) => self@.dom().contains((source_pk@, norm@)) && t@ == self@[(
                    source_pk@,
                    norm@,
                )],
                None => !self@.dom().contains((source_pk@, norm@)),
            },
    {
        let ghost k = (source_pk@, norm@);
        let mut i: usize = self.entries.len();
        assert(self.entries@.take(i as int) =~= self.entries@);
        while i > 0
            invariant
                i <= self.entries.len(),
                k == (source_pk@, norm@),
                self@.dom().contains(k) == overrides_of(self.entries@.take(i as int)).dom().contains(
                    k,
                ),
                self@.dom().contains(k) ==> self@[k] == overrides_of(
                    self.entries@.take(i as int),
                )[k],
            decreases i,
        {
            let e = &self.entries[i - 1];
            assert(self.entries@.take(i as int).drop_last() =~= self.entries@.take(i - 1));
            if same_text(e.0.as_str(), source_pk) && same_text(e.1.as_str(), norm) {
                return Some(e.2.clone());
            }
            i = i - 1;
        }
        None
    }
}

/// An occurrence has an override exactly when some entry is for it, and its tag
/// is that of the last such entry.
pub proof fn law_the_last_override_counts(entries: Seq<OverrideEntry>, i: int, k: (
    Seq<char>,
    Seq<char>,
))
    ensures
        overrides_of(entries).dom().contains(k) <==> exists|j: int|
            0 <= j < entries.len() && (#[trigger] entries[j]).0@ == k.0 && entries[j].1@ == k.1,
        0 <= i < entries.len() && entries[i].0@ == k.0 && entries[i].1@ == k.1 && (forall|j: int|
            i < j < entries.len() ==> (#[trigger] entries[j]).0@ != k.0 || entries[j].1@ != k.1)
            ==> overrides_of(entries)[k] == entries[i].2@,
    decreases entries.len(),
{
    if entries.len() > 0 {
        let before = entries.drop_last();
        let last = entries[entries.len() - 1];
        law_the_last_override_counts(before, i, k);
        assert(last == entries.last());
        if exists|j: int|
            0 <= j < before.len() && (#[trigger] before[j]).0@ == k.0 && before[j].1@ == k.1 {
            let j = choose|j: int|
                0 <= j < before.len() && (#[trigger] before[j]).0@ == k.0 && before[j].1@ == k.1;
            assert(entries[j] == before[j]);
        }
        if exists|j: int|
            0 <= j < entries.len() && (#[trigger] entries[j]).0@ == k.0 && entries[j].1@ == k.1 {
            let j = choose|j: int|
                0 <= j < entries.len() && (#[trigger] entries[j]).0@ == k.0 && entries[j].1@ == k.1;
            if j < before.len() {
                assert(before[j] == entries[j]);
            }
        }
        if 0 <= i < before.len() && entries[i].0@ == k.0 && entries[i].1@ == k.1 && (forall|j: int|
            i < j < entries.len() ==> (#[trigger] entries[j]).0@ != k.0 || entries[j].1@ != k.1) {
            assert(before[i] == entries[i]);
            assert forall|j: int| i < j < before.len() implies (#[trigger] before[j]).0@ != k.0
                || before[j].1@ != k.1 by {
                assert(before[j] == entries[j]);
            }
            assert(last.0@ != k.0 || last.1@ != k.1);
        }
    }
}

} // verus!
