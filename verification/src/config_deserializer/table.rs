//! Tables and the values stored in them.

use vstd::prelude::*;

verus! {

/// A parsed value: a string, or the tables of one array-of-tables section.
#[derive(Debug, PartialEq)]
pub enum Value {
    String(String),
    Array(Vec<Table>),
}

/// One key of a table with its value.
#[derive(Debug, PartialEq)]
struct Entry {
    key: String,
    value: Value,
}

/// A mapping from keys to values that remembers the order of first insertion.
///
/// Lookups go by the mapping alone. `==` compares the entries in their order,
/// so it tells apart two tables that were filled in different orders.
#[derive(Debug, PartialEq)]
pub struct Table {
    entries: Vec<Entry>,
}

/// The mathematical model of a [`Table`].
pub type TableView = Map<Seq<char>, ValueView>;

/// The mathematical model of a [`Value`].
pub enum ValueView {
    String(Seq<char>),
    Array(Seq<TableView>),
}

/// The index of the first entry at or after `from` whose key is `key`, or the
/// number of entries where there is none.
spec fn index_of(entries: Seq<Entry>, key: Seq<char>, from: int) -> int
    decreases entries.len() - from,
{
    if from >= entries.len() {
        entries.len() as int
    } else if entries[from].key@ == key {
        from
    } else {
        index_of(entries, key, from + 1)
    }
}

/// Whether no key occurs in two entries.
spec fn distinct_keys(entries: Seq<Entry>) -> bool {
    forall|i: int, j: int|
        0 <= i < j < entries.len() ==> (#[trigger] entries[i]).key@ != (#[trigger] entries[j]).key@
}

/// The mapping that a sequence of entries stands for: each key goes to the
/// value of the first entry that holds it.
spec fn entries_map(entries: Seq<Entry>) -> TableView
    decreases entries,
{
    Map::new(
        |key: Seq<char>| index_of(entries, key, 0) < entries.len(),
        |key: Seq<char>|
            {
                let i = index_of(entries, key, 0);
                if 0 <= i < entries.len() {
                    entries[i].value.view()
                } else {
                    ValueView::String(Seq::empty())
                }
            },
    )
}

/// The models of a sequence of tables, in order.
pub open spec fn table_views(tables: Seq<Table>) -> Seq<TableView>
    decreases tables,
{
    Seq::new(
        tables.len(),
        |i: int|
            if 0 <= i < tables.len() {
                tables[i].view()
            } else {
                Map::empty()
            },
    )
}

/// Appending a table appends its model.
pub proof fn lemma_table_views_push(tables: Seq<Table>, table: Table)
    ensures
        table_views(tables.push(table)) == table_views(tables).push(table@),
{
    assert(table_views(tables.push(table)) =~= table_views(tables).push(table@));
}

/// Replacing a table replaces its model.
pub proof fn lemma_table_views_update(tables: Seq<Table>, i: int)
    requires
        0 <= i < tables.len(),
    ensures
        forall|table: Table| #[trigger]
            table_views(tables.update(i, table)) == table_views(tables).update(i, table@),
{
    assert forall|table: Table| #[trigger]
        table_views(tables.update(i, table)) == table_views(tables).update(i, table@) by {
        assert(table_views(tables.update(i, table)) =~= table_views(tables).update(i, table@));
    }
}

impl Value {
    /// The string or the tables that the value holds.
    pub open spec fn view(&self) -> ValueView
        decreases self,
    {
        match self {
            Value::String(s) => ValueView::String(s@),
            Value::Array(tables) => ValueView::Array(table_views(tables@)),
        }
    }

    /// Whether every table inside the value is well formed.
    pub open spec fn wf(&self) -> bool
        decreases self,
    {
        match self {
            Value::String(_) => true,
            Value::Array(tables) => forall|i: int|
                0 <= i < tables@.len() ==> (#[trigger] tables@[i]).wf(),
        }
    }
}

proof fn lemma_index_of(entries: Seq<Entry>, key: Seq<char>, from: int)
    requires
        0 <= from <= entries.len(),
    ensures
        from <= index_of(entries, key, from) <= entries.len(),
        index_of(entries, key, from) < entries.len() ==> entries[index_of(entries, key, from)].key@
            == key,
        forall|j: int| from <= j < index_of(entries, key, from) ==> entries[j].key@ != key,
    decreases entries.len() - from,
{
    if from < entries.len() && entries[from].key@ != key {
        lemma_index_of(entries, key, from + 1);
    }
}

proof fn lemma_index_of_same_keys(a: Seq<Entry>, b: Seq<Entry>, key: Seq<char>, from: int)
    requires
        0 <= from,
        a.len() == b.len(),
        forall|j: int| 0 <= j < a.len() ==> a[j].key@ == b[j].key@,
    ensures
        index_of(a, key, from) == index_of(b, key, from),
    decreases a.len() - from,
{
    if from < a.len() && a[from].key@ != key {
        lemma_index_of_same_keys(a, b, key, from + 1);
    }
}

proof fn lemma_index_of_push(entries: Seq<Entry>, entry: Entry, key: Seq<char>, from: int)
    requires
        0 <= from <= entries.len(),
    ensures
        index_of(entries.push(entry), key, from) == if index_of(entries, key, from)
            < entries.len() {
            index_of(entries, key, from)
        } else if entry.key@ == key {
            entries.len() as int
        } else {
            entries.len() as int + 1
        },
    decreases entries.len() - from,
{
    let pushed = entries.push(entry);
    if from < entries.len() {
        assert(pushed[from] == entries[from]);
        if entries[from].key@ != key {
            lemma_index_of_push(entries, entry, key, from + 1);
        }
    } else {
        assert(pushed[from] == entry);
        if entry.key@ != key {
            assert(index_of(pushed, key, from + 1) == pushed.len());
        }
    }
}

/// Replacing the value of the first entry for a key updates the mapping at
/// that key alone.
proof fn lemma_replace_value(entries: Seq<Entry>, i: int, entry: Entry)
    requires
        0 <= i < entries.len(),
        index_of(entries, entry.key@, 0) == i,
    ensures
        entries_map(entries.update(i, entry)) == entries_map(entries).insert(
            entry.key@,
            entry.value@,
        ),
        distinct_keys(entries) ==> distinct_keys(entries.update(i, entry)),
{
    let after = entries.update(i, entry);
    lemma_index_of(entries, entry.key@, 0);
    assert forall|key: Seq<char>| #[trigger]
        entries_map(after).contains_key(key) == entries_map(entries).insert(
            entry.key@,
            entry.value@,
        ).contains_key(key) && (entries_map(after).contains_key(key) ==> entries_map(after)[key]
            == entries_map(entries).insert(entry.key@, entry.value@)[key]) by {
        lemma_index_of_same_keys(after, entries, key, 0);
        lemma_index_of(entries, key, 0);
    }
    assert(entries_map(after) =~= entries_map(entries).insert(entry.key@, entry.value@));
    if distinct_keys(entries) {
        assert forall|a: int, b: int| 0 <= a < b < after.len() implies (#[trigger] after[a]).key@
            != (#[trigger] after[b]).key@ by {
            assert(entries[a].key@ != entries[b].key@);
        }
    }
}

/// Appending an entry for a key that is not there yet adds that key alone.
proof fn lemma_push_entry(entries: Seq<Entry>, entry: Entry)
    requires
        index_of(entries, entry.key@, 0) == entries.len(),
    ensures
        entries_map(entries.push(entry)) == entries_map(entries).insert(entry.key@, entry.value@),
        distinct_keys(entries) ==> distinct_keys(entries.push(entry)),
{
    let after = entries.push(entry);
    assert forall|key: Seq<char>|
        index_of(after, key, 0) == if index_of(entries, key, 0) < entries.len() {
            index_of(entries, key, 0)
        } else if entry.key@ == key {
            entries.len() as int
        } else {
            entries.len() as int + 1
        } by {
        lemma_index_of_push(entries, entry, key, 0);
    }
    assert forall|key: Seq<char>| #[trigger]
        entries_map(after).contains_key(key) implies entries_map(after)[key] == entries_map(
        entries,
    ).insert(entry.key@, entry.value@)[key] by {
        lemma_index_of(entries, key, 0);
    }
    assert(entries_map(after) =~= entries_map(entries).insert(entry.key@, entry.value@));
    if distinct_keys(entries) {
        lemma_index_of(entries, entry.key@, 0);
        assert forall|a: int, b: int| 0 <= a < b < after.len() implies (#[trigger] after[a]).key@
            != (#[trigger] after[b]).key@ by {
            if b < entries.len() {
                assert(entries[a].key@ != entries[b].key@);
            }
        }
    }
}

/// With distinct keys, a mapping has as many keys as there are entries.
proof fn lemma_key_count(entries: Seq<Entry>)
    requires
        distinct_keys(entries),
    ensures
        entries_map(entries).dom().finite(),
        entries_map(entries).dom().len() == entries.len(),
    decreases entries.len(),
{
    if entries.len() == 0 {
        assert(entries_map(entries).dom() =~= Set::empty());
    } else {
        let front = entries.drop_last();
        let last = entries.last();
        assert(entries =~= front.push(last));
        assert forall|a: int, b: int| 0 <= a < b < front.len() implies (#[trigger] front[a]).key@
            != (#[trigger] front[b]).key@ by {
            assert(entries[a].key@ != entries[b].key@);
        }
        lemma_key_count(front);
        lemma_index_of(front, last.key@, 0);
        if index_of(front, last.key@, 0) < front.len() {
            assert(entries[index_of(front, last.key@, 0)].key@ != entries[entries.len() - 1].key@);
        }
        lemma_push_entry(front, last);
        assert(entries_map(entries).dom() =~= entries_map(front).dom().insert(last.key@));
    }
}

impl Table {
    /// The mapping from keys to values that the table holds.
    pub closed spec fn view(&self) -> TableView
        decreases self,
    {
        entries_map(self.entries@)
    }

    /// Whether no key occurs twice, here and in every table inside.
    pub closed spec fn wf(&self) -> bool
        decreases self,
    {
        &&& distinct_keys(self.entries@)
        &&& forall|i: int|
            0 <= i < self.entries@.len() ==> (#[trigger] self.entries@[i]).value.wf()
    }

    /// A table without keys.
    pub fn new() -> (table: Table)
        ensures
            table@ == Map::<Seq<char>, ValueView>::empty(),
            table.wf(),
    {
        let table = Table { entries: Vec::new() };
        assert(table@ =~= Map::<Seq<char>, ValueView>::empty());
        table
    }

    /// The number of keys.
    pub fn len(&self) -> (n: usize)
        requires
            self.wf(),
        ensures
            self@.dom().finite(),
            n == self@.dom().len(),
    {
        proof {
            lemma_key_count(self.entries@);
        }
        self.entries.len()
    }

    /// Whether the table has no key.
    pub fn is_empty(&self) -> (empty: bool)
        ensures
            empty == (self@ == Map::<Seq<char>, ValueView>::empty()),
    {
        proof {
            if self.entries@.len() > 0 {
                assert(self@.contains_key(self.entries@[0].key@));
            } else {
                assert(self@ =~= Map::<Seq<char>, ValueView>::empty());
            }
        }
        self.entries.len() == 0
    }

    /// The index of the first entry for `key`.
    fn position(&self, key: &str) -> (found: Option<usize>)
        ensures
            match found {
                Some(i) => i < self.entries@.len() && index_of(self.entries@, key@, 0) == i,
                None => index_of(self.entries@, key@, 0) == self.entries@.len(),
            },
    {
        let mut i: usize = 0;
        while i < self.entries.len()
            invariant
                i <= self.entries@.len(),
                index_of(self.entries@, key@, 0) == index_of(self.entries@, key@, i as int),
            decreases self.entries@.len() - i,
        {
            if self.entries[i].key.as_str().eq(key) {
                return Some(i);
            }
            i += 1;
        }
        None
    }

    /// Whether the table has `key`.
    pub fn contains_key(&self, key: &str) -> (found: bool)
        ensures
            found == self@.contains_key(key@),
    {
        self.position(key).is_some()
    }

    /// The value stored under `key`.
    pub fn get(&self, key: &str) -> (found: Option<&Value>)
        ensures
            match found {
                Some(value) => self@.contains_key(key@) && value@ == self@[key@],
                None => !self@.contains_key(key@),
            },
            self.wf() && found is Some ==> found->0.wf(),
    {
        match self.position(key) {
            Some(i) => Some(&self.entries[i].value),
            None => None,
        }
    }

    /// The value stored under `key`, for changing it in place.
    pub fn get_mut(&mut self, key: &str) -> (found: Option<&mut Value>)
        ensures
            match found {
                Some(value) => {
                    &&& old(self)@.contains_key(key@)
                    &&& value@ == old(self)@[key@]
                    &&& final(self)@ == old(self)@.insert(key@, final(value)@)
                    &&& old(self).wf() ==> value.wf()
                    &&& old(self).wf() && final(value).wf() ==> final(self).wf()
                },
                None => !old(self)@.contains_key(key@) && *final(self) == *old(self),
            },
    {
        match self.position(key) {
            Some(i) => {
                proof {
                    assert forall|entry: Entry| entry.key == self.entries@[i as int].key implies {
                        &&& entries_map(#[trigger] self.entries@.update(i as int, entry))
                            == entries_map(self.entries@).insert(key@, entry.value@)
                        &&& distinct_keys(self.entries@) ==> distinct_keys(
                            self.entries@.update(i as int, entry),
                        )
                    } by {
                        lemma_index_of(self.entries@, key@, 0);
                        lemma_replace_value(self.entries@, i as int, entry);
                    }
                }
                Some(&mut self.entries[i].value)
            },
            None => None,
        }
    }

    /// Stores `value` under `key` and hands back the value it replaces.
    pub fn insert(&mut self, key: String, value: Value) -> (replaced: Option<Value>)
        ensures
            final(self)@ == old(self)@.insert(key@, value@),
            match replaced {
                Some(previous) => old(self)@.contains_key(key@) && previous@ == old(self)@[key@],
                None => !old(self)@.contains_key(key@),
            },
            old(self).wf() && value.wf() ==> final(self).wf(),
    {
        match self.position(key.as_str()) {
            Some(i) => {
                proof {
                    lemma_index_of(self.entries@, key@, 0);
                    lemma_replace_value(
                        self.entries@,
                        i as int,
                        Entry { key: self.entries@[i as int].key, value },
                    );
                }
                let mut value = value;
                core::mem::swap(&mut self.entries[i].value, &mut value);
                Some(value)
            },
            None => {
                proof {
                    lemma_push_entry(self.entries@, Entry { key, value });
                }
                self.entries.push(Entry { key, value });
                None
            },
        }
    }
}

/// `str`'s `==`: whether two string slices hold the same characters.
pub assume_specification[ <str as PartialEq>::eq ](a: &str, b: &str) -> (equal: bool)
    ensures
        equal == (a@ == b@),
;

} // verus!
