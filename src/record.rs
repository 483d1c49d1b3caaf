use vstd::prelude::*;
use vstd::string::StringExecFns;

verus! {

/// The map that a list of entries stands for: each entry is applied in order,
/// so a later entry for a key replaces an earlier one.
pub open spec fn entries_map(entries: Seq<(Seq<char>, Seq<char>)>) -> Map<Seq<char>, Seq<char>>
    decreases entries.len(),
{
    if entries.len() == 0 {
        Map::empty()
    } else {
        entries_map(entries.drop_last()).insert(entries.last().0, entries.last().1)
    }
}

pub open spec fn keys_distinct(entries: Seq<(Seq<char>, Seq<char>)>) -> bool {
    forall|i: int, j: int|
        0 <= i < entries.len() && 0 <= j < entries.len() && i != j ==> #[trigger] entries[i].0
            != #[trigger] entries[j].0
}

proof fn lemma_entries_map_domain(entries: Seq<(Seq<char>, Seq<char>)>, k: Seq<char>)
    ensures
        entries_map(entries).contains_key(k) <==> exists|i: int|
            0 <= i < entries.len() && #[trigger] entries[i].0 == k,
    decreases entries.len(),
{
    if entries.len() > 0 {
        lemma_entries_map_domain(entries.drop_last(), k);
        if entries_map(entries.drop_last()).contains_key(k) {
            let i = choose|i: int| 0 <= i < entries.drop_last().len() && #[trigger] entries.drop_last()[i].0 == k;
            assert(entries[i].0 == k);
        }
        if exists|i: int| 0 <= i < entries.len() && #[trigger] entries[i].0 == k {
            let i = choose|i: int| 0 <= i < entries.len() && #[trigger] entries[i].0 == k;
            if i < entries.len() - 1 {
                assert(entries.drop_last()[i].0 == k);
            }
        }
    }
}

proof fn lemma_entries_map_update(
    entries: Seq<(Seq<char>, Seq<char>)>,
    j: int,
    v: Seq<char>,
)
    requires
        keys_distinct(entries),
        0 <= j < entries.len(),
    ensures
        entries_map(entries.update(j, (entries[j].0, v))) == entries_map(entries).insert(
            entries[j].0,
            v,
        ),
    decreases entries.len(),
{
    let k = entries[j].0;
    let updated = entries.update(j, (k, v));
    if j == entries.len() - 1 {
        assert(updated.drop_last() == entries.drop_last());
        assert(entries_map(updated) =~= entries_map(entries).insert(k, v));
    } else {
        let init = entries.drop_last();
        assert(updated.drop_last() == init.update(j, (k, v)));
        assert(keys_distinct(init));
        lemma_entries_map_update(init, j, v);
        assert(entries.last().0 != k);
        assert(updated.last() == entries.last());
        assert(entries_map(updated) =~= entries_map(entries).insert(k, v));
    }
}

/// The attributes of a record: a map from key to value held as a list of
/// entries whose keys are distinct.
#[derive(Clone, Debug)]
pub struct Attributes {
    entries: Vec<(String, String)>,
}

impl View for Attributes {
    type V = Map<Seq<char>, Seq<char>>;

    open spec fn view(&self) -> Map<Seq<char>, Seq<char>> {
        entries_map(self.entries_view())
    }
}

impl Attributes {
    pub closed spec fn entries_view(&self) -> Seq<(Seq<char>, Seq<char>)> {
        self.entries@.map_values(|e: (String, String)| (e.0@, e.1@))
    }

    pub closed spec fn wf(&self) -> bool {
        keys_distinct(self.entries_view())
    }

    pub fn new() -> (r: Attributes)
        ensures
            r.wf(),
            r@ == Map::<Seq<char>, Seq<char>>::empty(),
    {
        let r = Attributes { entries: Vec::new() };
        assert(r.entries_view() =~= Seq::empty());
        r
    }

    fn find(&self, key: &String) -> (r: Option<usize>)
        ensures
            match r {
                Some(i) => i < self.entries_view().len() && self.entries_view()[i as int].0 == key@,
                None => forall|i: int|
                    0 <= i < self.entries_view().len() ==> #[trigger] self.entries_view()[i].0
                        != key@,
            },
    {
        let mut i: usize = 0;
        while i < self.entries.len()
            invariant
                i <= self.entries.len(),
                forall|j: int| 0 <= j < i ==> #[trigger] self.entries_view()[j].0 != key@,
            decreases self.entries.len() - i,
        {
            if self.entries[i].0 == *key {
                return Some(i);
            }
            i = i + 1;
        }
        None
    }

    /// Sets `key` to `value`, replacing any value the key had.
    pub fn insert(&mut self, key: String, value: String)
        requires
            old(self).wf(),
        ensures
            final(self).wf(),
            final(self)@ == old(self)@.insert(key@, value@),
    {
        let ghost before = self.entries_view();
        match self.find(&key) {
            Some(i) => {
                self.entries.set(i, (key, value));
                assert(self.entries_view() =~= before.update(i as int, (before[i as int].0, value@)));
                proof {
                    lemma_entries_map_update(before, i as int, value@);
                }
            },
            None => {
                self.entries.push((key, value));
                assert(self.entries_view() =~= before.push((key@, value@)));
                assert(self.entries_view().drop_last() =~= before);
            },
        }
    }

    /// The value stored for `key`, if any.
    pub fn get(&self, key: &str) -> (r: Option<&String>)
        requires
            self.wf(),
        ensures
            match r {
                Some(v) => self@.contains_key(key@) && self@[key@] == v@,
                None => !self@.contains_key(key@),
            },
    {
        let ghost ev = self.entries_view();
        let wanted = <String as StringExecFns>::from_str(key);
        let mut i: usize = 0;
        while i < self.entries.len()
            invariant
                i <= self.entries.len(),
                ev == self.entries_view(),
                keys_distinct(ev),
                wanted@ == key@,
                forall|j: int| 0 <= j < i ==> #[trigger] ev[j].0 != key@,
            decreases self.entries.len() - i,
        {
            if self.entries[i].0 == wanted {
                proof {
                    lemma_entries_map_lookup(ev, i as int);
                }
                return Some(&self.entries[i].1);
            }
            i = i + 1;
        }
        proof {
            lemma_entries_map_domain(ev, key@);
        }
        None
    }

    /// The number of keys.
    pub fn len(&self) -> (r: usize)
        requires
            self.wf(),
        ensures
            r == self@.len(),
    {
        proof {
            lemma_entries_map_len(self.entries_view());
        }
        self.entries.len()
    }
}

/// The value of a record: its timestamp and its attribute map.
pub struct RecordModel {
    pub timestamp: i64,
    pub attributes: Map<Seq<char>, Seq<char>>,
}

/// The timestamp of a record that has not been given one yet.
pub const UNSET_TIMESTAMP: i64 = -1;

pub open spec fn empty_record() -> RecordModel {
    RecordModel { timestamp: UNSET_TIMESTAMP, attributes: Map::empty() }
}

/// One parsed log line.
#[derive(Clone, Debug)]
pub struct Record {
    pub timestamp: i64,
    pub attributes: Attributes,
}

impl View for Record {
    type V = RecordModel;

    open spec fn view(&self) -> RecordModel {
        RecordModel { timestamp: self.timestamp, attributes: self.attributes@ }
    }
}

impl Record {
    pub open spec fn wf(&self) -> bool {
        self.attributes.wf()
    }

    /// A record with no timestamp and no attributes.
    pub fn new() -> (r: Record)
        ensures
            r.wf(),
            r@ == empty_record(),
    {
        Record { timestamp: UNSET_TIMESTAMP, attributes: Attributes::new() }
    }
}

proof fn lemma_entries_map_lookup(entries: Seq<(Seq<char>, Seq<char>)>, i: int)
    requires
        keys_distinct(entries),
        0 <= i < entries.len(),
    ensures
        entries_map(entries).contains_key(entries[i].0),
        entries_map(entries)[entries[i].0] == entries[i].1,
    decreases entries.len(),
{
    if i < entries.len() - 1 {
        assert(keys_distinct(entries.drop_last()));
        assert(entries.drop_last()[i] == entries[i]);
        lemma_entries_map_lookup(entries.drop_last(), i);
        assert(entries.last().0 != entries[i].0);
    }
}

proof fn lemma_entries_map_len(entries: Seq<(Seq<char>, Seq<char>)>)
    requires
        keys_distinct(entries),
    ensures
        entries_map(entries).len() == entries.len(),
        entries_map(entries).dom().finite(),
    decreases entries.len(),
{
    if entries.len() > 0 {
        let init = entries.drop_last();
        assert(keys_distinct(init));
        lemma_entries_map_len(init);
        lemma_entries_map_domain(init, entries.last().0);
        assert(!entries_map(init).contains_key(entries.last().0));
    }
}

} // verus!
