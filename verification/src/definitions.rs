//! Identifier tables: the names of packet types, entities and their
//! methods, used to label packets for a reader. Decoding never needs them.

use serde_json::Value;
use vstd::prelude::*;

verus! {

/// A table from text keys to values, in which no key occurs twice.
#[derive(Debug)]
pub struct Table<T> {
    entries: Vec<(String, T)>,
}

/// True when no two entries have the same key.
spec fn distinct_keys<T>(entries: Seq<(String, T)>) -> bool {
    forall|i: int, j: int|
        0 <= i < j < entries.len() ==> (#[trigger] entries[i]).0@ != (#[trigger] entries[j]).0@
}

/// True when `entries` holds `key`.
spec fn has_key<T>(entries: Seq<(String, T)>, key: Seq<char>) -> bool {
    exists|i: int| 0 <= i < entries.len() && (#[trigger] entries[i]).0@ == key
}

/// The map that a list of entries with distinct keys stands for.
spec fn entries_map<T>(entries: Seq<(String, T)>) -> Map<Seq<char>, T> {
    Map::new(
        |key: Seq<char>| has_key(entries, key),
        |key: Seq<char>|
            entries[choose|i: int| 0 <= i < entries.len() && (#[trigger] entries[i]).0@ == key].1,
    )
}

/// Each entry of a list with distinct keys is in its map, under its key.
proof fn lemma_entry_in_map<T>(entries: Seq<(String, T)>, i: int)
    requires
        distinct_keys(entries),
        0 <= i < entries.len(),
    ensures
        entries_map(entries).contains_key(entries[i].0@),
        entries_map(entries)[entries[i].0@] == entries[i].1,
{
    let key = entries[i].0@;
    let found = choose|j: int| 0 <= j < entries.len() && (#[trigger] entries[j]).0@ == key;
    assert(has_key(entries, key));
    if found < i {
        assert(entries[found].0@ != entries[i].0@);
    } else if i < found {
        assert(entries[i].0@ != entries[found].0@);
    }
}

/// Adding an entry under a new key inserts it into the map.
proof fn lemma_push_inserts<T>(entries: Seq<(String, T)>, key: String, value: T)
    requires
        distinct_keys(entries),
        !has_key(entries, key@),
    ensures
        distinct_keys(entries.push((key, value))),
        entries_map(entries.push((key, value))) == entries_map(entries).insert(key@, value),
{
    let longer = entries.push((key, value));
    assert forall|i: int, j: int| 0 <= i < j < longer.len() implies (#[trigger] longer[i]).0@ != (
    #[trigger] longer[j]).0@ by {
        if j == entries.len() {
            assert(entries[i].0@ != key@);
        } else {
            assert(entries[i].0@ != entries[j].0@);
        }
    }
    assert forall|k: Seq<char>| has_key(longer, k) <==> (has_key(entries, k) || k == key@) by {
        if has_key(entries, k) {
            let i = choose|i: int| 0 <= i < entries.len() && (#[trigger] entries[i]).0@ == k;
            assert(longer[i].0@ == k);
        }
        if k == key@ {
            assert(longer[entries.len() as int].0@ == k);
        }
        if has_key(longer, k) {
            let i = choose|i: int| 0 <= i < longer.len() && (#[trigger] longer[i]).0@ == k;
            if i < entries.len() {
                assert(entries[i].0@ == k);
            }
        }
    }
    assert forall|k: Seq<char>| has_key(longer, k) implies entries_map(longer)[k] == entries_map(
        entries,
    ).insert(key@, value)[k] by {
        let i = choose|i: int| 0 <= i < longer.len() && (#[trigger] longer[i]).0@ == k;
        lemma_entry_in_map(longer, i);
        if i < entries.len() {
            assert(entries[i].0@ == k);
            lemma_entry_in_map(entries, i);
        }
    }
    assert(entries_map(longer) =~= entries_map(entries).insert(key@, value));
}

/// Replacing the value of an entry, under the same key, replaces it in the
/// map.
proof fn lemma_update_inserts<T>(entries: Seq<(String, T)>, i: int, key: String, value: T)
    requires
        distinct_keys(entries),
        0 <= i < entries.len(),
        entries[i].0@ == key@,
    ensures
        distinct_keys(entries.update(i, (key, value))),
        entries_map(entries.update(i, (key, value))) == entries_map(entries).insert(key@, value),
{
    let changed = entries.update(i, (key, value));
    assert forall|a: int, b: int| 0 <= a < b < changed.len() implies (#[trigger] changed[a]).0@ != (
    #[trigger] changed[b]).0@ by {
        assert(entries[a].0@ != entries[b].0@);
    }
    assert forall|k: Seq<char>| has_key(changed, k) <==> has_key(entries, k) by {
        if has_key(entries, k) {
            let j = choose|j: int| 0 <= j < entries.len() && (#[trigger] entries[j]).0@ == k;
            assert(changed[j].0@ == k);
        }
        if has_key(changed, k) {
            let j = choose|j: int| 0 <= j < changed.len() && (#[trigger] changed[j]).0@ == k;
            assert(entries[j].0@ == k);
        }
    }
    assert(has_key(entries, key@)) by {
        assert(entries[i].0@ == key@);
    }
    assert forall|k: Seq<char>| has_key(changed, k) implies entries_map(changed)[k] == entries_map(
        entries,
    ).insert(key@, value)[k] by {
        let j = choose|j: int| 0 <= j < changed.len() && (#[trigger] changed[j]).0@ == k;
        lemma_entry_in_map(changed, j);
        if j != i {
            assert(entries[j].0@ == k);
            lemma_entry_in_map(entries, j);
            if j < i {
                assert(entries[j].0@ != entries[i].0@);
            } else {
                assert(entries[i].0@ != entries[j].0@);
            }
        }
    }
    assert(entries_map(changed) =~= entries_map(entries).insert(key@, value));
}

impl<T> View for Table<T> {
    type V = Map<Seq<char>, T>;

    closed spec fn view(&self) -> Map<Seq<char>, T> {
        entries_map(self.entries@)
    }
}

impl<T> Table<T> {
    #[verifier::type_invariant]
    spec fn well_formed(self) -> bool {
        distinct_keys(self.entries@)
    }

    /// The empty table.
    pub fn new() -> (table: Self)
        ensures
            table@ == Map::<Seq<char>, T>::empty(),
    {
        let table = Table { entries: Vec::new() };
        assert(table@ =~= Map::<Seq<char>, T>::empty());
        table
    }

    /// The position of `key` among the entries.
    fn position(&self, key: &String) -> (r: Option<usize>)
        ensures
            match r {
                Some(i) => i < self.entries@.len() && self.entries@[i as int].0@ == key@,
                None => !has_key(self.entries@, key@),
            },
    {
        let mut i: usize = 0;
        while i < self.entries.len()
            invariant
                i <= self.entries@.len(),
                forall|j: int| 0 <= j < i ==> (#[trigger] self.entries@[j]).0@ != key@,
            decreases self.entries@.len() - i,
        {
            if self.entries[i].0 == *key {
                return Some(i);
            }
            i = i + 1;
        }
        None
    }

    /// The value under `key`, if the table holds the key.
    pub fn get(&self, key: &str) -> (r: Option<&T>)
        ensures
            match r {
                Some(value) => self@.contains_key(key@) && *value == self@[key@],
                None => !self@.contains_key(key@),
            },
    {
        proof {
            use_type_invariant(self);
        }
        let owned = key.to_owned();
        match self.position(&owned) {
            Some(i) => {
                proof {
                    lemma_entry_in_map(self.entries@, i as int);
                }
                Some(&self.entries[i].1)
            },
            None => None,
        }
    }

    /// True when the table holds `key`.
    pub fn contains_key(&self, key: &str) -> (b: bool)
        ensures
            b == self@.contains_key(key@),
    {
        self.get(key).is_some()
    }

    /// Puts `value` under `key`; a value that was there before is replaced.
    pub fn insert(&mut self, key: String, value: T)
        ensures
            final(self)@ == old(self)@.insert(key@, value),
    {
        proof {
            use_type_invariant(&*self);
        }
        let found = self.position(&key);
        let mut entries: Vec<(String, T)> = Vec::new();
        std::mem::swap(&mut entries, &mut self.entries);
        match found {
            Some(i) => {
                proof {
                    lemma_update_inserts(entries@, i as int, key, value);
                }
                entries[i] = (key, value);
            },
            None => {
                proof {
                    lemma_push_inserts(entries@, key, value);
                }
                entries.push((key, value));
            },
        }
        self.entries = entries;
    }
}

impl<T> Table<T> {
    /// True when the table holds nothing.
    pub fn is_empty(&self) -> (b: bool)
        ensures
            b == (self@ == Map::<Seq<char>, T>::empty()),
    {
        proof {
            use_type_invariant(self);
            if self.entries@.len() > 0 {
                lemma_entry_in_map(self.entries@, 0);
            } else {
                assert(self@ =~= Map::<Seq<char>, T>::empty());
            }
        }
        self.entries.len() == 0
    }

    /// Takes over every entry of `other`. Where both tables hold a key, the
    /// value of `other` replaces the one that was here: whole, with no
    /// merging of what the two values hold.
    pub fn merge(&mut self, other: Table<T>)
        ensures
            final(self)@ == old(self)@.union_prefer_right(other@),
    {
        proof {
            use_type_invariant(&other);
        }
        let ghost start = self@;
        let ghost incoming = other@;
        let mut rest = other.entries;
        while rest.len() > 0
            invariant
                distinct_keys(rest@),
                self@.union_prefer_right(entries_map(rest@)) == start.union_prefer_right(incoming),
            decreases rest@.len(),
        {
            let ghost before = rest@;
            let ghost mine = self@;
            let (key, value) = rest.pop().unwrap();
            proof {
                assert(before == rest@.push((key, value)));
                assert(distinct_keys(rest@)) by {
                    assert forall|i: int, j: int| 0 <= i < j < rest@.len() implies (
                    #[trigger] rest@[i]).0@ != (#[trigger] rest@[j]).0@ by {
                        assert(before[i].0@ != before[j].0@);
                    }
                }
                assert(!has_key(rest@, key@)) by {
                    if has_key(rest@, key@) {
                        let i = choose|i: int| 0 <= i < rest@.len() && (#[trigger] rest@[i]).0@ == key@;
                        assert(before[i].0@ != before[rest@.len() as int].0@);
                    }
                }
                lemma_push_inserts(rest@, key, value);
            }
            self.insert(key, value);
            proof {
                assert(self@.union_prefer_right(entries_map(rest@)) =~= mine.union_prefer_right(
                    entries_map(before),
                ));
            }
        }
        proof {
            assert(entries_map(rest@) =~= Map::<Seq<char>, T>::empty());
            assert(self@.union_prefer_right(entries_map(rest@)) =~= self@);
        }
    }
}

/// After a merge a key that the incoming table holds has the incoming
/// value; every other key keeps what it had.
pub proof fn lemma_merge_prefers_incoming<T>(
    mine: Map<Seq<char>, T>,
    incoming: Map<Seq<char>, T>,
    key: Seq<char>,
)
    ensures
        incoming.contains_key(key) ==> {
            &&& mine.union_prefer_right(incoming).contains_key(key)
            &&& mine.union_prefer_right(incoming)[key] == incoming[key]
        },
        !incoming.contains_key(key) && mine.contains_key(key) ==> {
            &&& mine.union_prefer_right(incoming).contains_key(key)
            &&& mine.union_prefer_right(incoming)[key] == mine[key]
        },
        !incoming.contains_key(key) && !mine.contains_key(key) ==> !mine.union_prefer_right(
            incoming,
        ).contains_key(key),
{
}

/// What is known of one method of an entity.
#[derive(Debug, Clone, PartialEq, Eq)]
pub struct MethodDef {
    pub name: String,
    /// The types of the arguments; empty where the table names none.
    pub args: Vec<String>,
}

/// What is known of one property of an entity.
#[derive(Debug, Clone, PartialEq, Eq)]
pub struct PropertyDef {
    pub name: String,
    /// The type of the property; empty where the table names none.
    pub value_type: String,
}

/// What is known of one kind of entity. The method and property tables are
/// keyed by the identifier, in decimal.
#[derive(Debug, Clone)]
pub struct EntityDef {
    pub id: u32,
    pub name: String,
    pub client_methods: Table<MethodDef>,
    pub properties: Table<PropertyDef>,
    pub cell_methods: Table<MethodDef>,
    pub base_methods: Table<MethodDef>,
}

/// The identifier tables of one game version.
#[derive(Debug, Clone)]
pub struct Definitions {
    /// Keyed by the packet type as `0x` and upper-case hexadecimal digits;
    /// a value is either the name or an object with a `name` member.
    pub packet_types: Table<Value>,
    /// Keyed by the entity identifier, in decimal.
    pub entities: Table<EntityDef>,
}

impl Definitions {
    /// Tables that hold nothing.
    pub fn new() -> (defs: Self)
        ensures
            defs.packet_types@ == Map::<Seq<char>, Value>::empty(),
            defs.entities@ == Map::<Seq<char>, EntityDef>::empty(),
    {
        Definitions { packet_types: Table::new(), entities: Table::new() }
    }

    /// Merges `other` into these tables. A key that both define gets the
    /// value of `other`, whole.
    pub fn merge(&mut self, other: Definitions)
        ensures
            final(self).packet_types@ == old(self).packet_types@.union_prefer_right(
                other.packet_types@,
            ),
            final(self).entities@ == old(self).entities@.union_prefer_right(other.entities@),
    {
        self.packet_types.merge(other.packet_types);
        self.entities.merge(other.entities);
    }

    /// The tables in effect for a game version: the defaults of its game
    /// variant, where there are any, overlaid with the tables of the
    /// version itself, where there are any.
    pub fn layered(defaults: Option<Definitions>, version: Option<Definitions>) -> (defs: Self)
        ensures
            defs.packet_types@ == packet_types_of(defaults).union_prefer_right(
                packet_types_of(version),
            ),
            defs.entities@ == entities_of(defaults).union_prefer_right(entities_of(version)),
    {
        let mut defs = Definitions::new();
        proof {
            assert(defs.packet_types@.union_prefer_right(packet_types_of(defaults))
                =~= packet_types_of(defaults));
            assert(defs.entities@.union_prefer_right(entities_of(defaults)) =~= entities_of(
                defaults,
            ));
            assert(packet_types_of(defaults).union_prefer_right(Map::empty()) =~= packet_types_of(
                defaults,
            ));
            assert(entities_of(defaults).union_prefer_right(Map::empty()) =~= entities_of(defaults));
        }
        match defaults {
            Some(d) => {
                defs.merge(d);
            },
            None => {},
        }
        match version {
            Some(d) => {
                defs.merge(d);
            },
            None => {},
        }
        defs
    }
}

/// The packet types of tables that may be missing: none where they are.
pub open spec fn packet_types_of(defs: Option<Definitions>) -> Map<Seq<char>, Value> {
    match defs {
        Some(d) => d.packet_types@,
        None => Map::empty(),
    }
}

/// The entities of tables that may be missing: none where they are.
pub open spec fn entities_of(defs: Option<Definitions>) -> Map<Seq<char>, EntityDef> {
    match defs {
        Some(d) => d.entities@,
        None => Map::empty(),
    }
}

impl<T: Clone> Clone for Table<T> {
    /// A table with the same keys, each value a clone of the one under the
    /// same key.
    fn clone(&self) -> (copy: Self)
        ensures
            copy@.dom() == self@.dom(),
            forall|key: Seq<char>| #[trigger]
                copy@.dom().contains(key) ==> cloned::<T>(self@[key], copy@[key]),
    {
        proof {
            use_type_invariant(self);
        }
        let mut entries: Vec<(String, T)> = Vec::new();
        let mut i: usize = 0;
        while i < self.entries.len()
            invariant
                i <= self.entries@.len(),
                entries@.len() == i,
                forall|j: int|
                    0 <= j < i ==> (#[trigger] entries@[j]).0@ == self.entries@[j].0@ && cloned::<T>(
                        self.entries@[j].1,
                        entries@[j].1,
                    ),
            decreases self.entries@.len() - i,
        {
            let key = self.entries[i].0.clone();
            let value = self.entries[i].1.clone();
            entries.push((key, value));
            i = i + 1;
        }
        proof {
            assert forall|a: int, b: int| 0 <= a < b < entries@.len() implies (
            #[trigger] entries@[a]).0@ != (#[trigger] entries@[b]).0@ by {
                assert(self.entries@[a].0@ != self.entries@[b].0@);
            }
            assert forall|key: Seq<char>| has_key(entries@, key) <==> has_key(
                self.entries@,
                key,
            ) by {
                if has_key(entries@, key) {
                    let j = choose|j: int| 0 <= j < entries@.len() && (#[trigger] entries@[j]).0@ == key;
                    assert(self.entries@[j].0@ == key);
                }
                if has_key(self.entries@, key) {
                    let j = choose|j: int|
                        0 <= j < self.entries@.len() && (#[trigger] self.entries@[j]).0@ == key;
                    assert(entries@[j].0@ == key);
                }
            }
            assert(entries_map(entries@).dom() =~= entries_map(self.entries@).dom());
            assert forall|key: Seq<char>| #[trigger]
                entries_map(entries@).dom().contains(key) implies cloned::<T>(
                entries_map(self.entries@)[key],
                entries_map(entries@)[key],
            ) by {
                let j = choose|j: int| 0 <= j < entries@.len() && (#[trigger] entries@[j]).0@ == key;
                lemma_entry_in_map(entries@, j);
                lemma_entry_in_map(self.entries@, j);
            }
        }
        Table { entries }
    }
}

} // verus!
