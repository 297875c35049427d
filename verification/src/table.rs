//! Values under names.
//!
//! An effect's knobs and their key runs are looked up by name. A table holds
//! each name once, in order of name; what it means is the map from names to
//! values.

use crate::text::{lemma_one_precedes, lemma_precedes_on, precedes, same_text, text_precedes};
use vstd::prelude::*;

verus! {

/// Values under distinct names, in order of name.
#[derive(Debug)]
pub struct Table<V> {
    entries: Vec<(String, V)>,
}

/// Whether no name stands twice.
pub open spec fn distinct<V>(entries: Seq<(String, V)>) -> bool {
    forall|i: int, j: int|
        0 <= i < j < entries.len() ==> #[trigger] entries[i].0@ != #[trigger] entries[j].0@
}

/// Whether the names stand in order.
pub open spec fn by_name<V>(entries: Seq<(String, V)>) -> bool {
    forall|i: int, j: int|
        0 <= i < j < entries.len() ==> precedes(
            #[trigger] entries[i].0@,
            #[trigger] entries[j].0@,
        )
}

pub open spec fn has_name<V>(entries: Seq<(String, V)>, name: Seq<char>) -> bool {
    exists|i: int| 0 <= i < entries.len() && #[trigger] entries[i].0@ == name
}

pub open spec fn index_of_name<V>(entries: Seq<(String, V)>, name: Seq<char>) -> int {
    choose|i: int| 0 <= i < entries.len() && #[trigger] entries[i].0@ == name
}

/// The map a list of entries spells.
pub open spec fn map_of<V>(entries: Seq<(String, V)>) -> Map<Seq<char>, V> {
    Map::new(
        |name: Seq<char>| has_name(entries, name),
        |name: Seq<char>| entries[index_of_name(entries, name)].1,
    )
}

/// Under distinct names, an entry is what its name is mapped to.
pub proof fn lemma_map_at<V>(entries: Seq<(String, V)>, i: int)
    requires
        distinct(entries),
        0 <= i < entries.len(),
    ensures
        map_of(entries).dom().contains(entries[i].0@),
        map_of(entries)[entries[i].0@] == entries[i].1,
        index_of_name(entries, entries[i].0@) == i,
{
    let name = entries[i].0@;
    assert(has_name(entries, name));
    let j = index_of_name(entries, name);
    assert(0 <= j < entries.len() && entries[j].0@ == name);
}

/// Names in order are distinct.
proof fn lemma_by_name_distinct<V>(entries: Seq<(String, V)>)
    requires
        by_name(entries),
    ensures
        distinct(entries),
{
    assert forall|i: int, j: int| 0 <= i < j < entries.len() implies #[trigger] entries[i].0@
        != #[trigger] entries[j].0@ by {
        assert(precedes(entries[i].0@, entries[j].0@));
        lemma_one_precedes(entries[i].0@, entries[j].0@);
    }
}

proof fn lemma_map_insert<V>(entries: Seq<(String, V)>, at: int, entry: (String, V))
    requires
        distinct(entries),
        0 <= at <= entries.len(),
        !has_name(entries, entry.0@),
    ensures
        distinct(entries.insert(at, entry)),
        map_of(entries.insert(at, entry)) == map_of(entries).insert(entry.0@, entry.1),
{
    let more = entries.insert(at, entry);
    let back = |i: int|
        if i < at {
            i
        } else {
            i - 1
        };
    assert(more[at] == entry);
    assert forall|i: int| 0 <= i < more.len() && i != at implies #[trigger] more[i]
        == entries[back(i)] by {}
    assert forall|i: int, j: int| 0 <= i < j < more.len() implies #[trigger] more[i].0@
        != #[trigger] more[j].0@ by {
        if i == at {
            assert(entries[back(j)].0@ != entry.0@);
        } else if j == at {
            assert(entries[back(i)].0@ != entry.0@);
        } else {
            assert(entries[back(i)].0@ != entries[back(j)].0@);
        }
    }
    assert forall|name: Seq<char>| #[trigger] map_of(more).dom().contains(name) == map_of(
        entries,
    ).insert(entry.0@, entry.1).dom().contains(name) by {
        if has_name(entries, name) {
            let i = index_of_name(entries, name);
            let k = if i < at {
                i
            } else {
                i + 1
            };
            assert(more[k] == entries[back(k)]);
            assert(more[k].0@ == name);
        }
        if has_name(more, name) {
            let i = index_of_name(more, name);
            if i != at {
                assert(entries[back(i)].0@ == name);
            }
        }
        assert(more[at].0@ == entry.0@);
    }
    assert forall|name: Seq<char>| #[trigger] map_of(more).dom().contains(name) implies map_of(
        more,
    )[name] == map_of(entries).insert(entry.0@, entry.1)[name] by {
        let i = index_of_name(more, name);
        lemma_map_at(more, i);
        if i != at {
            lemma_map_at(entries, back(i));
        }
    }
    assert(map_of(more) =~= map_of(entries).insert(entry.0@, entry.1));
}

/// A name put between those before it and those after it stands in order.
proof fn lemma_insert_by_name<V>(entries: Seq<(String, V)>, at: int, entry: (String, V))
    requires
        by_name(entries),
        0 <= at <= entries.len(),
        forall|j: int| 0 <= j < at ==> precedes(#[trigger] entries[j].0@, entry.0@),
        at < entries.len() ==> precedes(entry.0@, entries[at].0@),
    ensures
        by_name(entries.insert(at, entry)),
        !has_name(entries, entry.0@),
{
    let more = entries.insert(at, entry);
    assert forall|j: int| at <= j < entries.len() implies precedes(
        entry.0@,
        #[trigger] entries[j].0@,
    ) by {
        if j > at {
            assert(precedes(entries[at].0@, entries[j].0@));
            lemma_precedes_on(entry.0@, entries[at].0@, entries[j].0@);
        }
    }
    lemma_absent(entries, at, entry.0@);
    assert forall|i: int, j: int| 0 <= i < j < more.len() implies precedes(
        #[trigger] more[i].0@,
        #[trigger] more[j].0@,
    ) by {
        let a = if i < at {
            i
        } else {
            i - 1
        };
        let b = if j < at {
            j
        } else {
            j - 1
        };
        if i == at {
            assert(more[j] == entries[b]);
        } else if j == at {
            assert(more[i] == entries[a]);
        } else {
            assert(more[i] == entries[a] && more[j] == entries[b]);
        }
    }
}

/// A name that would stand between two neighbours stands nowhere.
proof fn lemma_absent<V>(entries: Seq<(String, V)>, at: int, name: Seq<char>)
    requires
        by_name(entries),
        0 <= at <= entries.len(),
        forall|j: int| 0 <= j < at ==> precedes(#[trigger] entries[j].0@, name),
        at < entries.len() ==> precedes(name, entries[at].0@),
    ensures
        !has_name(entries, name),
{
    if has_name(entries, name) {
        let j = index_of_name(entries, name);
        lemma_one_precedes(name, name);
        if j > at {
            assert(precedes(entries[at].0@, entries[j].0@));
            lemma_precedes_on(name, entries[at].0@, entries[j].0@);
        }
    }
}

/// What each further entry adds to the map.
pub proof fn lemma_map_take<V>(entries: Seq<(String, V)>, i: int)
    requires
        distinct(entries),
        0 <= i < entries.len(),
    ensures
        !map_of(entries.take(i)).dom().contains(entries[i].0@),
        map_of(entries.take(i + 1)) == map_of(entries.take(i)).insert(entries[i].0@, entries[i].1),
        map_of(entries.take(0)) == Map::<Seq<char>, V>::empty(),
        map_of(entries.take(entries.len() as int)) == map_of(entries),
{
    let before = entries.take(i);
    assert forall|j: int, k: int| 0 <= j < k < before.len() implies #[trigger] before[j].0@
        != #[trigger] before[k].0@ by {
        assert(entries[j].0@ != entries[k].0@);
    }
    assert(!has_name(before, entries[i].0@)) by {
        if has_name(before, entries[i].0@) {
            let j = index_of_name(before, entries[i].0@);
            assert(entries[j].0@ == entries[i].0@);
        }
    }
    lemma_map_insert(before, i, entries[i]);
    assert(entries.take(i + 1) =~= before.insert(i, entries[i]));
    assert(map_of(entries.take(0)) =~= Map::<Seq<char>, V>::empty());
    assert(entries.take(entries.len() as int) =~= entries);
}

/// The map of no entries, and of all of them.
pub proof fn lemma_map_ends<V>(entries: Seq<(String, V)>)
    ensures
        map_of(entries.take(0)) == Map::<Seq<char>, V>::empty(),
        map_of(entries.take(entries.len() as int)) == map_of(entries),
{
    assert(map_of(entries.take(0)) =~= Map::<Seq<char>, V>::empty());
    assert(entries.take(entries.len() as int) =~= entries);
}

proof fn lemma_map_update<V>(entries: Seq<(String, V)>, at: int, entry: (String, V))
    requires
        distinct(entries),
        0 <= at < entries.len(),
        entries[at].0@ == entry.0@,
    ensures
        distinct(entries.update(at, entry)),
        map_of(entries.update(at, entry)) == map_of(entries).insert(entry.0@, entry.1),
{
    let more = entries.update(at, entry);
    assert forall|i: int| 0 <= i < more.len() implies #[trigger] more[i].0@ == entries[i].0@ by {}
    assert forall|i: int, j: int| 0 <= i < j < more.len() implies #[trigger] more[i].0@
        != #[trigger] more[j].0@ by {
        assert(entries[i].0@ != entries[j].0@);
    }
    assert forall|name: Seq<char>| #[trigger] map_of(more).dom().contains(name) == map_of(
        entries,
    ).insert(entry.0@, entry.1).dom().contains(name) by {
        if has_name(entries, name) {
            let i = index_of_name(entries, name);
            assert(more[i].0@ == name);
        }
        if has_name(more, name) {
            let i = index_of_name(more, name);
            assert(entries[i].0@ == name);
        }
    }
    assert forall|name: Seq<char>| #[trigger] map_of(more).dom().contains(name) implies map_of(
        more,
    )[name] == map_of(entries).insert(entry.0@, entry.1)[name] by {
        let i = index_of_name(more, name);
        lemma_map_at(more, i);
        lemma_map_at(entries, i);
        if i != at {
            lemma_map_at(entries, at);
            assert(entries[i].0@ != entries[at].0@);
        }
    }
    assert(map_of(more) =~= map_of(entries).insert(entry.0@, entry.1));
}

proof fn lemma_map_remove<V>(entries: Seq<(String, V)>, at: int)
    requires
        distinct(entries),
        0 <= at < entries.len(),
    ensures
        distinct(entries.remove(at)),
        map_of(entries.remove(at)) == map_of(entries).remove(entries[at].0@),
{
    let less = entries.remove(at);
    let back = |i: int|
        if i < at {
            i
        } else {
            i + 1
        };
    assert forall|i: int| 0 <= i < less.len() implies #[trigger] less[i] == entries[back(i)] by {}
    assert forall|i: int, j: int| 0 <= i < j < less.len() implies #[trigger] less[i].0@
        != #[trigger] less[j].0@ by {
        assert(entries[back(i)].0@ != entries[back(j)].0@);
    }
    assert forall|name: Seq<char>| #[trigger] map_of(less).dom().contains(name) == map_of(
        entries,
    ).remove(entries[at].0@).dom().contains(name) by {
        if has_name(entries, name) && name != entries[at].0@ {
            let i = index_of_name(entries, name);
            let k = if i < at {
                i
            } else {
                i - 1
            };
            assert(less[k].0@ == name);
        }
        if has_name(less, name) {
            let i = index_of_name(less, name);
            assert(entries[back(i)].0@ == name);
            if back(i) < at {
                assert(entries[back(i)].0@ != entries[at].0@);
            } else {
                assert(entries[at].0@ != entries[back(i)].0@);
            }
        }
    }
    assert forall|name: Seq<char>| #[trigger] map_of(less).dom().contains(name) implies map_of(
        less,
    )[name] == map_of(entries).remove(entries[at].0@)[name] by {
        let i = index_of_name(less, name);
        lemma_map_at(less, i);
        lemma_map_at(entries, back(i));
    }
    assert(map_of(less) =~= map_of(entries).remove(entries[at].0@));
}

impl<V> Table<V> {
    #[verifier::type_invariant]
    spec fn well_formed(self) -> bool {
        by_name(self.entries@)
    }

    /// The map from names to values.
    pub closed spec fn view(&self) -> Map<Seq<char>, V> {
        map_of(self.entries@)
    }

    /// A table with nothing in it.
    pub fn new() -> (r: Table<V>)
        ensures
            r@ == Map::<Seq<char>, V>::empty(),
    {
        let r: Table<V> = Table { entries: Vec::new() };
        assert(r@ =~= Map::<Seq<char>, V>::empty());
        r
    }

    /// The names and values, each name once, in order of name.
    pub fn entries(&self) -> (r: &Vec<(String, V)>)
        ensures
            by_name(r@),
            distinct(r@),
            self@ == map_of(r@),
    {
        proof {
            use_type_invariant(self);
            lemma_by_name_distinct(self.entries@);
        }
        &self.entries
    }

    /// Where a name stands, or else where it would.
    fn position(&self, name: &str) -> (r: (usize, bool))
        ensures
            r.0 <= self.entries.len(),
            forall|j: int| 0 <= j < r.0 ==> precedes(#[trigger] self.entries@[j].0@, name@),
            if r.1 {
                r.0 < self.entries.len() && self.entries[r.0 as int].0@ == name@
            } else {
                r.0 < self.entries.len() ==> precedes(name@, self.entries[r.0 as int].0@)
            },
    {
        let mut i: usize = 0;
        while i < self.entries.len() && text_precedes(self.entries[i].0.as_str(), name)
            invariant
                i <= self.entries.len(),
                forall|j: int| 0 <= j < i ==> precedes(#[trigger] self.entries@[j].0@, name@),
            decreases self.entries.len() - i,
        {
            i = i + 1;
        }
        let found: bool = i < self.entries.len() && same_text(self.entries[i].0.as_str(), name);
        proof {
            if i < self.entries.len() {
                lemma_one_precedes(self.entries@[i as int].0@, name@);
            }
        }
        (i, found)
    }

    /// The value under a name.
    pub fn get(&self, name: &str) -> (r: Option<&V>)
        ensures
            match r {
                Some(v) => self@.dom().contains(name@) && *v == self@[name@],
                None => !self@.dom().contains(name@),
            },
    {
        proof {
            use_type_invariant(self);
            lemma_by_name_distinct(self.entries@);
        }
        let (at, found) = self.position(name);
        if found {
            proof {
                lemma_map_at(self.entries@, at as int);
            }
            Some(&self.entries[at].1)
        } else {
            proof {
                lemma_absent(self.entries@, at as int, name@);
            }
            None
        }
    }

    /// Puts a value under a name, over what was there.
    pub fn set(&mut self, name: String, value: V)
        ensures
            final(self)@ == old(self)@.insert(name@, value),
    {
        proof {
            use_type_invariant(&*self);
        }
        let (at, found) = self.position(name.as_str());
        let mut entries: Vec<(String, V)> = Vec::new();
        std::mem::swap(&mut entries, &mut self.entries);
        proof {
            lemma_by_name_distinct(entries@);
            if found {
                lemma_map_update(entries@, at as int, (name, value));
                assert forall|i: int, j: int| 0 <= i < j < entries@.len() implies precedes(
                    #[trigger] entries@.update(at as int, (name, value))[i].0@,
                    #[trigger] entries@.update(at as int, (name, value))[j].0@,
                ) by {
                    assert(precedes(entries@[i].0@, entries@[j].0@));
                }
            } else {
                lemma_insert_by_name(entries@, at as int, (name, value));
                lemma_map_insert(entries@, at as int, (name, value));
            }
        }
        if found {
            entries.set(at, (name, value));
        } else {
            entries.insert(at, (name, value));
        }
        self.entries = entries;
    }

    /// Takes a name and its value out.
    pub fn take(&mut self, name: &str) -> (r: Option<V>)
        ensures
            final(self)@ == old(self)@.remove(name@),
            match r {
                Some(v) => old(self)@.dom().contains(name@) && v == old(self)@[name@],
                None => !old(self)@.dom().contains(name@),
            },
    {
        proof {
            use_type_invariant(&*self);
        }
        let (at, found) = self.position(name);
        if !found {
            proof {
                lemma_absent(self.entries@, at as int, name@);
                assert(self@.remove(name@) =~= self@);
            }
            return None;
        }
        let mut entries: Vec<(String, V)> = Vec::new();
        std::mem::swap(&mut entries, &mut self.entries);
        proof {
            lemma_by_name_distinct(entries@);
            lemma_map_at(entries@, at as int);
            lemma_map_remove(entries@, at as int);
            let less = entries@.remove(at as int);
            assert forall|i: int, j: int| 0 <= i < j < less.len() implies precedes(
                #[trigger] less[i].0@,
                #[trigger] less[j].0@,
            ) by {
                let a = if i < at {
                    i
                } else {
                    i + 1
                };
                let b = if j < at {
                    j
                } else {
                    j + 1
                };
                assert(less[i] == entries@[a] && less[j] == entries@[b]);
            }
        }
        let (_, value) = entries.remove(at);
        self.entries = entries;
        Some(value)
    }
}

} // verus!
