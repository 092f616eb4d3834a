//! The variable store and the label table: flat journals of named entries,
//! read as a mapping in which the newest entry for a name wins.
use vstd::prelude::*;
use crate::chars::bytes_eq;

verus! {

/// The mapping a journal of entries denotes: a later entry overrides an
/// earlier one with the same name.
pub open spec fn as_map<V>(entries: Seq<(Vec<u8>, V)>) -> Map<Seq<u8>, V>
    decreases entries.len(),
{
    if entries.len() == 0 {
        Map::empty()
    } else {
        as_map(entries.drop_last()).insert(entries.last().0@, entries.last().1)
    }
}

/// A name whose newest entry sits at `i` is mapped to that entry's value.
proof fn lemma_as_map_found<V>(entries: Seq<(Vec<u8>, V)>, i: int)
    requires
        0 <= i < entries.len(),
        forall|j: int| i < j < entries.len() ==> (#[trigger] entries[j]).0@ != entries[i].0@,
    ensures
        as_map(entries).contains_key(entries[i].0@),
        as_map(entries)[entries[i].0@] == entries[i].1,
    decreases entries.len(),
{
    if i == entries.len() - 1 {
    } else {
        assert(entries.drop_last()[i] == entries[i]);
        assert(forall|j: int|
            i < j < entries.len() - 1 ==> (#[trigger] entries.drop_last()[j]) == entries[j]);
        lemma_as_map_found(entries.drop_last(), i);
        assert(entries.last() == entries[entries.len() - 1]);
    }
}

/// A name no entry carries is not in the mapping.
proof fn lemma_as_map_absent<V>(entries: Seq<(Vec<u8>, V)>, k: Seq<u8>)
    requires
        forall|j: int| 0 <= j < entries.len() ==> (#[trigger] entries[j]).0@ != k,
    ensures
        !as_map(entries).contains_key(k),
    decreases entries.len(),
{
    if entries.len() > 0 {
        assert(forall|j: int|
            0 <= j < entries.len() - 1 ==> (#[trigger] entries.drop_last()[j]) == entries[j]);
        lemma_as_map_absent(entries.drop_last(), k);
        assert(entries.last() == entries[entries.len() - 1]);
    }
}

/// The mutable store of script variables: one flat namespace of signed
/// 64-bit integers, grown by assignment and never cleared.
pub struct VarStore {
    entries: Vec<(Vec<u8>, i64)>,
}

impl View for VarStore {
    type V = Map<Seq<u8>, i64>;

    closed spec fn view(&self) -> Map<Seq<u8>, i64> {
        as_map(self.entries@)
    }
}

impl VarStore {
    /// The store a run begins with: no variable defined.
    pub fn new() -> (r: Self)
        ensures
            r@ == Map::<Seq<u8>, i64>::empty(),
    {
        let r = VarStore { entries: Vec::new() };
        proof {
            assert(r@ =~= Map::<Seq<u8>, i64>::empty());
        }
        r
    }

    /// The current value of a variable, when it has one.
    pub fn get(&self, name: &[u8]) -> (r: Option<i64>)
        ensures
            r == (if self@.contains_key(name@) {
                Some(self@[name@])
            } else {
                None::<i64>
            }),
    {
        let n = self.entries.len();
        let mut i: usize = n;
        while i > 0
            invariant
                0 <= i <= n,
                n == self.entries@.len(),
                forall|j: int| i <= j < n ==> (#[trigger] self.entries@[j]).0@ != name@,
            decreases i,
        {
            i = i - 1;
            let e = &self.entries[i];
            if bytes_eq(e.0.as_slice(), name) {
                proof {
                    lemma_as_map_found(self.entries@, i as int);
                }
                return Some(e.1);
            }
        }
        proof {
            lemma_as_map_absent(self.entries@, name@);
        }
        None
    }

    /// Binds `name` to `v`, overriding any earlier binding.
    pub fn set(&mut self, name: Vec<u8>, v: i64)
        ensures
            final(self)@ == old(self)@.insert(name@, v),
    {
        let ghost old_entries = self.entries@;
        let ghost key = name@;
        self.entries.push((name, v));
        proof {
            assert(self.entries@.drop_last() =~= old_entries);
            assert(self.entries@.last() == (self.entries@[old_entries.len() as int]));
            assert(self@ == as_map(old_entries).insert(key, v));
        }
    }
}

/// The label table: names resolved once, before execution, to line indices.
/// When a name is declared twice, the later line wins.
pub struct LabelTable {
    entries: Vec<(Vec<u8>, usize)>,
}

impl View for LabelTable {
    type V = Map<Seq<u8>, usize>;

    closed spec fn view(&self) -> Map<Seq<u8>, usize> {
        as_map(self.entries@)
    }
}

impl LabelTable {
    /// An empty table, before any line is scanned.
    pub fn new() -> (r: Self)
        ensures
            r@ == Map::<Seq<u8>, usize>::empty(),
    {
        let r = LabelTable { entries: Vec::new() };
        proof {
            assert(r@ =~= Map::<Seq<u8>, usize>::empty());
        }
        r
    }

    /// The line index a label name resolves to, when it is declared.
    pub fn get(&self, name: &[u8]) -> (r: Option<usize>)
        ensures
            r == (if self@.contains_key(name@) {
                Some(self@[name@])
            } else {
                None::<usize>
            }),
    {
        let n = self.entries.len();
        let mut i: usize = n;
        while i > 0
            invariant
                0 <= i <= n,
                n == self.entries@.len(),
                forall|j: int| i <= j < n ==> (#[trigger] self.entries@[j]).0@ != name@,
            decreases i,
        {
            i = i - 1;
            let e = &self.entries[i];
            if bytes_eq(e.0.as_slice(), name) {
                proof {
                    lemma_as_map_found(self.entries@, i as int);
                }
                return Some(e.1);
            }
        }
        proof {
            lemma_as_map_absent(self.entries@, name@);
        }
        None
    }

    /// Records that `name` is declared on line `idx`, overriding any earlier
    /// declaration of the same name.
    pub fn set(&mut self, name: Vec<u8>, idx: usize)
        ensures
            final(self)@ == old(self)@.insert(name@, idx),
    {
        let ghost old_entries = self.entries@;
        let ghost key = name@;
        self.entries.push((name, idx));
        proof {
            assert(self.entries@.drop_last() =~= old_entries);
            assert(self@ == as_map(old_entries).insert(key, idx));
        }
    }
}

} // verus!
