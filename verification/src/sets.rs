//! Sets of names and of heap rows. A set of names is a list in the order of
//! names without repetition; a set of rows hashes each row's place.
use crate::text::{
    is_before, lemma_precedes_irreflexive, lemma_precedes_total, lemma_precedes_transitive,
    precedes, same_text, texts,
};
use std::collections::HashSet;
use vstd::prelude::*;
use vstd::string::*;

verus! {

broadcast use vstd::std_specs::hash::group_hash_axioms;

/// Whether the names stand in their order, each once.
pub open spec fn in_order(names: Seq<Seq<char>>) -> bool {
    forall|i: int, j: int|
        0 <= i < j < names.len() ==> precedes(#[trigger] names[i], #[trigger] names[j])
}

/// How many names come before `name`.
pub fn rank(names: &Vec<String>, name: &str) -> (r: usize)
    requires
        in_order(texts(names@)),
    ensures
        r <= names.len(),
        forall|i: int| 0 <= i < r ==> precedes(#[trigger] texts(names@)[i], name@),
        forall|i: int| r <= i < names.len() ==> !precedes(#[trigger] texts(names@)[i], name@),
{
    let mut lo: usize = 0;
    let mut hi: usize = names.len();
    while lo < hi
        invariant
            in_order(texts(names@)),
            lo <= hi <= names.len(),
            forall|i: int| 0 <= i < lo ==> precedes(#[trigger] texts(names@)[i], name@),
            forall|i: int| hi <= i < names.len() ==> !precedes(#[trigger] texts(names@)[i], name@),
        decreases hi - lo,
    {
        let mid: usize = lo + (hi - lo) / 2;
        let ghost t = texts(names@);
        if is_before(names[mid].as_str(), name) {
            assert forall|i: int| 0 <= i < mid + 1 implies precedes(#[trigger] t[i], name@) by {
                if i < mid {
                    lemma_precedes_transitive(t[i], t[mid as int], name@);
                }
            }
            lo = mid + 1;
        } else {
            assert forall|i: int| mid <= i < names.len() implies !precedes(
                #[trigger] t[i],
                name@,
            ) by {
                if mid < i && precedes(t[i], name@) {
                    lemma_precedes_transitive(t[mid as int], t[i], name@);
                }
            }
            hi = mid;
        }
    }
    lo
}

/// Where `name` stands in the set, if it is there.
pub fn find_name(names: &Vec<String>, name: &str) -> (r: Option<usize>)
    requires
        in_order(texts(names@)),
    ensures
        match r {
            Some(i) => i < names.len() && texts(names@)[i as int] == name@,
            None => !texts(names@).contains(name@),
        },
{
    let p: usize = rank(names, name);
    let ghost t = texts(names@);
    if p < names.len() && same_text(names[p].as_str(), name) {
        Some(p)
    } else {
        assert forall|i: int| 0 <= i < t.len() implies #[trigger] t[i] != name@ by {
            lemma_precedes_irreflexive(name@);
            if i > p && t[i] == name@ {
                assert(precedes(t[p as int], t[i]));
            }
        }
        None
    }
}

/// Adds a name to the set.
pub fn add_name(names: &mut Vec<String>, name: String)
    requires
        in_order(texts(old(names)@)),
    ensures
        in_order(texts(final(names)@)),
        texts(final(names)@).to_set() == texts(old(names)@).to_set().insert(name@),
{
    let p: usize = rank(names, name.as_str());
    let ghost t = texts(names@);
    let ghost n = name@;
    if p < names.len() && same_text(names[p].as_str(), name.as_str()) {
        assert(t[p as int] == n);
        assert(t.to_set().insert(n) =~= t.to_set());
    } else {
        names.insert(p, name);
        let ghost u = texts(names@);
        proof {
            assert(u =~= t.insert(p as int, n));
            assert forall|i: int, j: int| 0 <= i < j < u.len() implies precedes(
                #[trigger] u[i],
                #[trigger] u[j],
            ) by {
                if i == p {
                    assert(!precedes(t[j - 1], n));
                    lemma_precedes_total(n, t[j - 1]);
                    if t[j - 1] == n {
                        lemma_precedes_irreflexive(n);
                        assert(j - 1 > p);
                        assert(precedes(t[p as int], t[j - 1]));
                    }
                } else if j == p {
                    assert(precedes(t[i], n));
                } else {
                    let a = if i < p { i } else { i - 1 };
                    let b = if j < p { j } else { j - 1 };
                    assert(precedes(t[a], t[b]));
                }
            }
            assert forall|x: Seq<char>| u.to_set().contains(x) == t.to_set().insert(n).contains(x) by {
                if u.contains(x) {
                    let k = choose|k: int| 0 <= k < u.len() && u[k] == x;
                    if k < p {
                        assert(t[k] == x);
                    } else if k > p {
                        assert(t[k - 1] == x);
                    }
                }
                if t.contains(x) {
                    let k = choose|k: int| 0 <= k < t.len() && t[k] == x;
                    if k < p {
                        assert(u[k] == x);
                    } else {
                        assert(u[k + 1] == x);
                    }
                }
                assert(u[p as int] == n);
            }
            assert(u.to_set() =~= t.to_set().insert(n));
        }
    }
}

/// Two lists in order that hold the same names are the same list.
pub proof fn law_a_set_of_names_has_one_list(a: Seq<Seq<char>>, b: Seq<Seq<char>>)
    requires
        in_order(a),
        in_order(b),
        a.to_set() == b.to_set(),
    ensures
        a == b,
    decreases a.len(),
{
    if a.len() == 0 {
        if b.len() > 0 {
            assert(b.to_set().contains(b[0]));
            assert(a.contains(b[0]));
        }
        assert(a =~= b);
    } else {
        assert(a.to_set().contains(a.last()));
        assert(b.contains(a.last()));
        let x = a.last();
        let y = b.last();
        assert(b.to_set().contains(y));
        assert(a.contains(y));
        let i = choose|i: int| 0 <= i < a.len() && a[i] == y;
        let j = choose|j: int| 0 <= j < b.len() && b[j] == x;
        if x != y {
            assert(precedes(a[i], a[a.len() - 1]));
            assert(precedes(b[j], b[b.len() - 1]));
            lemma_precedes_transitive(x, y, x);
            lemma_precedes_irreflexive(x);
        }
        let a1 = a.drop_last();
        let b1 = b.drop_last();
        assert forall|z: Seq<char>| a1.to_set().contains(z) == b1.to_set().contains(z) by {
            lemma_precedes_irreflexive(x);
            if a1.contains(z) {
                let k = choose|k: int| 0 <= k < a1.len() && a1[k] == z;
                assert(precedes(a[k], a[a.len() - 1]));
                assert(a[k] == z);
                assert(a.to_set().contains(z));
                assert(b.contains(z));
                let m = choose|m: int| 0 <= m < b.len() && b[m] == z;
                assert(b1[m] == z);
            }
            if b1.contains(z) {
                let k = choose|k: int| 0 <= k < b1.len() && b1[k] == z;
                assert(precedes(b[k], b[b.len() - 1]));
                assert(b[k] == z);
                assert(b.to_set().contains(z));
                assert(a.contains(z));
                let m = choose|m: int| 0 <= m < a.len() && a[m] == z;
                assert(a1[m] == z);
            }
        }
        assert(a1.to_set() =~= b1.to_set());
        law_a_set_of_names_has_one_list(a1, b1);
        assert(a =~= a1.push(x));
        assert(b =~= b1.push(y));
    }
}

spec fn row_key(row: (u32, u16)) -> u64 {
    (row.0 * 65536 + row.1) as u64
}

/// A set of heap rows, each given by its block and offset.
pub struct RowSet {
    keys: HashSet<u64>,
}

impl View for RowSet {
    type V = Set<(u32, u16)>;

    closed spec fn view(&self) -> Set<(u32, u16)> {
        Set::new(|row: (u32, u16)| self.keys@.contains(row_key(row)))
    }
}

impl RowSet {
    /// The empty set.
    pub fn new() -> (s: RowSet)
        ensures
            s@ == Set::<(u32, u16)>::empty(),
    {
        let s = RowSet { keys: HashSet::new() };
        assert(s@ =~= Set::<(u32, u16)>::empty());
        s
    }

    /// Adds a row.
    pub fn insert(&mut self, row: (u32, u16))
        ensures
            final(self)@ == old(self)@.insert(row),
    {
        let key: u64 = row.0 as u64 * 65536 + row.1 as u64;
        self.keys.insert(key);
        proof {
            assert(key == row_key(row));
            assert forall|r: (u32, u16)| row_key(r) == key implies r == row by {
                assert(r.0 * 65536 + r.1 == row.0 * 65536 + row.1);
            }
            assert(self@ =~= old(self)@.insert(row));
        }
    }

    /// Whether a row is in the set.
    pub fn contains(&self, row: (u32, u16)) -> (r: bool)
        ensures
            r == self@.contains(row),
    {
        let key: u64 = row.0 as u64 * 65536 + row.1 as u64;
        assert(key == row_key(row));
        self.keys.contains(&key)
    }

    /// The rows of a list, as a set.
    pub fn of(rows: &Vec<(u32, u16)>) -> (s: RowSet)
        ensures
            s@ == rows@.to_set(),
    {
        let mut s = RowSet::new();
        let mut i: usize = 0;
        assert(rows@.take(0).to_set() =~= Set::<(u32, u16)>::empty());
        while i < rows.len()
            invariant
                i <= rows.len(),
                s@ == rows@.take(i as int).to_set(),
            decreases rows.len() - i,
        {
            let ghost before = rows@.take(i as int);
            s.insert(rows[i]);
            proof {
                let after = rows@.take(i + 1);
                assert(after =~= before.push(rows@[i as int]));
                assert forall|r: (u32, u16)| after.to_set().contains(r) == before.to_set().insert(
                    rows@[i as int],
                ).contains(r) by {
                    if before.contains(r) {
                        let k = choose|k: int| 0 <= k < before.len() && before[k] == r;
                        assert(after[k] == r);
                    }
                    assert(after[i as int] == rows@[i as int]);
                    if after.contains(r) {
                        let k = choose|k: int| 0 <= k < after.len() && after[k] == r;
                        if k < i {
                            assert(before[k] == r);
                        }
                    }
                }
                assert(after.to_set() =~= before.to_set().insert(rows@[i as int]));
            }
            i = i + 1;
        }
        assert(rows@.take(i as int) =~= rows@);
        s
    }
}

} // verus!
