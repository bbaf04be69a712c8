//! A small table from text keys to values: keys are unique and entries keep
//! the order in which their keys first came.
use vstd::prelude::*;

verus! {

/// Entries with their keys read as character sequences.
pub type Entries<V> = Seq<(Seq<char>, V)>;

pub open spec fn keys_unique<V>(t: Entries<V>) -> bool {
    forall|i: int, j: int| 0 <= i < j < t.len() ==> #[trigger] t[i].0 != #[trigger] t[j].0
}

pub open spec fn has_key<V>(t: Entries<V>, k: Seq<char>) -> bool {
    exists|i: int| 0 <= i < t.len() && #[trigger] t[i].0 == k
}

/// `t` with `k` bound to `v`: the entry for `k` takes the new value where
/// there is one, else a new entry comes last.
pub open spec fn entries_insert<V>(t: Entries<V>, k: Seq<char>, v: V) -> Entries<V> {
    if has_key(t, k) {
        let i = choose|i: int| 0 <= i < t.len() && #[trigger] t[i].0 == k;
        t.update(i, (k, v))
    } else {
        t.push((k, v))
    }
}

/// The entries that binding each record in turn gives, starting from none;
/// a later record for a key replaces the value of an earlier one.
pub open spec fn entries_of<V>(rs: Entries<V>) -> Entries<V>
    decreases rs.len(),
{
    if rs.len() == 0 {
        Seq::empty()
    } else {
        entries_insert(entries_of(rs.drop_last()), rs.last().0, rs.last().1)
    }
}

/// The value bound to `k`, if any.
pub open spec fn entries_get<V>(t: Entries<V>, k: Seq<char>) -> Option<V> {
    if has_key(t, k) {
        Some(t[choose|i: int| 0 <= i < t.len() && #[trigger] t[i].0 == k].1)
    } else {
        None
    }
}

/// A table from text keys to values.
pub struct Table<V> {
    entries: Vec<(String, V)>,
}

impl<V> View for Table<V> {
    type V = Entries<V>;

    closed spec fn view(&self) -> Entries<V> {
        Seq::new(self.entries@.len(), |i: int| (self.entries@[i].0@, self.entries@[i].1))
    }
}

impl<V: Copy> Table<V> {
    pub closed spec fn wf(&self) -> bool {
        keys_unique(self@)
    }

    pub fn new() -> (r: Self)
        ensures
            r.wf(),
            r@ == Seq::<(Seq<char>, V)>::empty(),
    {
        let r = Table { entries: Vec::new() };
        assert(r@ =~= Seq::<(Seq<char>, V)>::empty());
        r
    }

    pub fn len(&self) -> (r: usize)
        ensures
            r == self@.len(),
    {
        self.entries.len()
    }

    /// Binds `k` to `v`, replacing the value of an entry with that key.
    pub fn insert(&mut self, k: String, v: V)
        requires
            old(self).wf(),
        ensures
            final(self).wf(),
            final(self)@ == entries_insert(old(self)@, k@, v),
    {
        let ghost t = self@;
        let mut i: usize = 0;
        while i < self.entries.len()
            invariant
                self@ == t,
                t == old(self)@,
                keys_unique(t),
                i <= t.len(),
                forall|j: int| 0 <= j < i ==> t[j].0 != k@,
            decreases t.len() - i,
        {
            if self.entries[i].0 == k {
                proof {
                    assert(t[i as int].0 == k@);
                    assert(has_key(t, k@));
                    let c = choose|c: int| 0 <= c < t.len() && #[trigger] t[c].0 == k@;
                    assert(c == i);
                }
                self.entries[i] = (k, v);
                proof {
                    assert(self@ =~= t.update(i as int, (k@, v)));
                    assert(entries_insert(t, k@, v) == t.update(i as int, (k@, v)));
                }
                return;
            }
            i = i + 1;
        }
        proof {
            assert(!has_key(t, k@));
        }
        self.entries.push((k, v));
        assert(self@ =~= t.push((k@, v)));
    }

    /// The value bound to `key`, if any.
    pub fn get(&self, key: &str) -> (r: Option<V>)
        requires
            self.wf(),
        ensures
            r == entries_get(self@, key@),
    {
        let k = key.to_owned();
        let mut i: usize = 0;
        while i < self.entries.len()
            invariant
                self.wf(),
                k@ == key@,
                i <= self@.len(),
                forall|j: int| 0 <= j < i ==> self@[j].0 != k@,
            decreases self@.len() - i,
        {
            if self.entries[i].0 == k {
                proof {
                    assert(self@[i as int].0 == k@);
                    assert(has_key(self@, k@));
                    let c = choose|c: int| 0 <= c < self@.len() && #[trigger] self@[c].0 == k@;
                    assert(c == i);
                }
                return Some(self.entries[i].1);
            }
            i = i + 1;
        }
        proof {
            assert(!has_key(self@, k@));
        }
        None
    }

    /// The entries, in the order in which their keys first came.
    pub fn entries(&self) -> (r: &Vec<(String, V)>)
        ensures
            r@.len() == self@.len(),
            forall|i: int| 0 <= i < r@.len() ==> (#[trigger] r@[i]).0@ == self@[i].0 && r@[i].1
                == self@[i].1,
    {
        &self.entries
    }
}

} // verus!
