//! Records (attribute name to attribute value) and tables of records keyed by
//! a person's full name. Both are association lists of distinct keys; their
//! views are the maps they stand for.
use vstd::prelude::*;

verus! {

/// The map that an association list of distinct keys stands for.
pub open spec fn pairs_to_map<V>(ps: Seq<(Seq<char>, V)>) -> Map<Seq<char>, V>
    decreases ps.len(),
{
    if ps.len() == 0 {
        Map::<Seq<char>, V>::empty()
    } else {
        pairs_to_map(ps.drop_last()).insert(ps.last().0, ps.last().1)
    }
}

/// No key occurs twice in the association list.
pub open spec fn keys_distinct<V>(ps: Seq<(Seq<char>, V)>) -> bool {
    forall|i: int, j: int| 0 <= i < j < ps.len() ==> ps[i].0 != ps[j].0
}

/// The keys of an association list, in order.
pub open spec fn keys_of<V>(ps: Seq<(Seq<char>, V)>) -> Seq<Seq<char>> {
    ps.map_values(|p: (Seq<char>, V)| p.0)
}

pub proof fn lemma_pairs_to_map_push<V>(ps: Seq<(Seq<char>, V)>, p: (Seq<char>, V))
    ensures
        pairs_to_map(ps.push(p)) == pairs_to_map(ps).insert(p.0, p.1),
{
    assert(ps.push(p).drop_last() =~= ps);
}

pub proof fn lemma_pairs_to_map_contains<V>(ps: Seq<(Seq<char>, V)>, k: Seq<char>)
    ensures
        pairs_to_map(ps).contains_key(k) <==> exists|i: int| 0 <= i < ps.len() && ps[i].0 == k,
    decreases ps.len(),
{
    if ps.len() > 0 {
        let qs = ps.drop_last();
        lemma_pairs_to_map_contains(qs, k);
        if pairs_to_map(ps).contains_key(k) {
            if k == ps.last().0 {
                assert(ps[ps.len() - 1].0 == k);
            } else {
                let i = choose|i: int| 0 <= i < qs.len() && qs[i].0 == k;
                assert(ps[i].0 == k);
            }
        }
        if exists|i: int| 0 <= i < ps.len() && ps[i].0 == k {
            let i = choose|i: int| 0 <= i < ps.len() && ps[i].0 == k;
            if i < ps.len() - 1 {
                assert(qs[i].0 == k);
            }
        }
    }
}

pub proof fn lemma_pairs_to_map_index<V>(ps: Seq<(Seq<char>, V)>, i: int)
    requires
        keys_distinct(ps),
        0 <= i < ps.len(),
    ensures
        pairs_to_map(ps).contains_key(ps[i].0),
        pairs_to_map(ps)[ps[i].0] == ps[i].1,
    decreases ps.len(),
{
    if i < ps.len() - 1 {
        let qs = ps.drop_last();
        lemma_pairs_to_map_index(qs, i);
        assert(qs[i] == ps[i]);
        assert(ps[i].0 != ps[ps.len() - 1].0);
    }
}

pub proof fn lemma_pairs_to_map_update<V>(ps: Seq<(Seq<char>, V)>, j: int, v: V)
    requires
        keys_distinct(ps),
        0 <= j < ps.len(),
    ensures
        pairs_to_map(ps.update(j, (ps[j].0, v))) == pairs_to_map(ps).insert(ps[j].0, v),
    decreases ps.len(),
{
    let qs = ps.update(j, (ps[j].0, v));
    if j == ps.len() - 1 {
        assert(qs.drop_last() =~= ps.drop_last());
        assert(pairs_to_map(qs) =~= pairs_to_map(ps).insert(ps[j].0, v));
    } else {
        lemma_pairs_to_map_update(ps.drop_last(), j, v);
        assert(qs.drop_last() =~= ps.drop_last().update(j, (ps[j].0, v)));
        assert(ps[j].0 != ps[ps.len() - 1].0);
        assert(pairs_to_map(qs) =~= pairs_to_map(ps).insert(ps[j].0, v));
    }
}

/// The attributes of one person: attribute names mapped to string values.
#[derive(Debug)]
pub struct Record {
    entries: Vec<(String, String)>,
}

impl Record {
    /// The attributes as an association list, in insertion order.
    pub closed spec fn pairs(&self) -> Seq<(Seq<char>, Seq<char>)> {
        self.entries@.map_values(|e: (String, String)| (e.0@, e.1@))
    }

    #[verifier::type_invariant]
    closed spec fn distinct_names(&self) -> bool {
        keys_distinct(self.pairs())
    }

    /// A record with no attributes.
    pub fn new() -> (r: Record)
        ensures
            r@ == Map::<Seq<char>, Seq<char>>::empty(),
    {
        let r = Record { entries: Vec::new() };
        proof {
            assert(r.pairs() =~= Seq::<(Seq<char>, Seq<char>)>::empty());
        }
        r
    }

    fn position(&self, key: &String) -> (idx: Option<usize>)
        ensures
            match idx {
                Some(j) => j < self.pairs().len() && self.pairs()[j as int].0 == key@,
                None => forall|i: int| 0 <= i < self.pairs().len() ==> self.pairs()[i].0 != key@,
            },
    {
        let mut i: usize = 0;
        while i < self.entries.len()
            invariant
                i <= self.entries.len(),
                forall|k: int| 0 <= k < i ==> self.pairs()[k].0 != key@,
            decreases self.entries.len() - i,
        {
            if self.entries[i].0 == *key {
                return Some(i);
            }
            i = i + 1;
        }
        None
    }

    /// The value of attribute `key`, if the record has it.
    pub fn get(&self, key: &str) -> (v: Option<&String>)
        ensures
            match v {
                Some(s) => self@.contains_key(key@) && s@ == self@[key@],
                None => !self@.contains_key(key@),
            },
    {
        proof {
            use_type_invariant(self);
            lemma_pairs_to_map_contains(self.pairs(), key@);
        }
        let k = key.to_owned();
        match self.position(&k) {
            Some(j) => {
                proof {
                    lemma_pairs_to_map_index(self.pairs(), j as int);
                }
                Some(&self.entries[j].1)
            },
            None => None,
        }
    }

    /// Sets attribute `key` to `value`, replacing any value it had.
    pub fn insert(&mut self, key: String, value: String)
        ensures
            final(self)@ == old(self)@.insert(key@, value@),
    {
        proof {
            use_type_invariant(&*self);
        }
        let ghost ps = self.pairs();
        match self.position(&key) {
            Some(j) => {
                let mut entries: Vec<(String, String)> = Vec::new();
                std::mem::swap(&mut entries, &mut self.entries);
                entries.set(j, (key, value));
                proof {
                    let qs = entries@.map_values(|e: (String, String)| (e.0@, e.1@));
                    assert(qs =~= ps.update(j as int, (ps[j as int].0, value@)));
                    lemma_pairs_to_map_update(ps, j as int, value@);
                }
                self.entries = entries;
            },
            None => {
                let mut entries: Vec<(String, String)> = Vec::new();
                std::mem::swap(&mut entries, &mut self.entries);
                let ghost k = key@;
                let ghost v = value@;
                entries.push((key, value));
                proof {
                    let qs = entries@.map_values(|e: (String, String)| (e.0@, e.1@));
                    assert(qs =~= ps.push((k, v)));
                    lemma_pairs_to_map_push(ps, (k, v));
                }
                self.entries = entries;
            },
        }
    }

    /// The attributes, in the order they were first set.
    pub fn entries(&self) -> (es: &Vec<(String, String)>)
        ensures
            es@.map_values(|e: (String, String)| (e.0@, e.1@)) == self.pairs(),
            keys_distinct(self.pairs()),
            pairs_to_map(self.pairs()) == self@,
    {
        proof {
            use_type_invariant(self);
        }
        &self.entries
    }
}

impl View for Record {
    type V = Map<Seq<char>, Seq<char>>;

    closed spec fn view(&self) -> Map<Seq<char>, Seq<char>> {
        pairs_to_map(self.pairs())
    }
}

/// Records keyed by a person's full name.
#[derive(Debug)]
pub struct NameTable {
    entries: Vec<(String, Record)>,
}

impl NameTable {
    /// The table as an association list, in insertion order.
    pub closed spec fn pairs(&self) -> Seq<(Seq<char>, Map<Seq<char>, Seq<char>>)> {
        self.entries@.map_values(|e: (String, Record)| (e.0@, e.1@))
    }

    /// The full names of the table, in the order they were first inserted.
    pub open spec fn name_seq(&self) -> Seq<Seq<char>> {
        keys_of(self.pairs())
    }

    #[verifier::type_invariant]
    closed spec fn distinct_names(&self) -> bool {
        keys_distinct(self.pairs())
    }

    /// A table with no records.
    pub fn new() -> (t: NameTable)
        ensures
            t@ == Map::<Seq<char>, Map<Seq<char>, Seq<char>>>::empty(),
            t.name_seq() == Seq::<Seq<char>>::empty(),
    {
        let t = NameTable { entries: Vec::new() };
        proof {
            assert(t.pairs() =~= Seq::<(Seq<char>, Map<Seq<char>, Seq<char>>)>::empty());
            assert(t.name_seq() =~= Seq::<Seq<char>>::empty());
        }
        t
    }

    fn position(&self, name: &String) -> (idx: Option<usize>)
        ensures
            match idx {
                Some(j) => j < self.pairs().len() && self.pairs()[j as int].0 == name@,
                None => forall|i: int| 0 <= i < self.pairs().len() ==> self.pairs()[i].0 != name@,
            },
    {
        let mut i: usize = 0;
        while i < self.entries.len()
            invariant
                i <= self.entries.len(),
                forall|k: int| 0 <= k < i ==> self.pairs()[k].0 != name@,
            decreases self.entries.len() - i,
        {
            if self.entries[i].0 == *name {
                return Some(i);
            }
            i = i + 1;
        }
        None
    }

    /// The record stored under `name`, if any.
    pub fn get(&self, name: &str) -> (r: Option<&Record>)
        ensures
            match r {
                Some(rec) => self@.contains_key(name@) && rec@ == self@[name@],
                None => !self@.contains_key(name@),
            },
    {
        proof {
            use_type_invariant(self);
            lemma_pairs_to_map_contains(self.pairs(), name@);
        }
        let k = name.to_owned();
        match self.position(&k) {
            Some(j) => {
                proof {
                    lemma_pairs_to_map_index(self.pairs(), j as int);
                }
                Some(&self.entries[j].1)
            },
            None => None,
        }
    }

    /// Stores `record` under `name`, replacing any record stored there; a new
    /// name goes after the names already in the table.
    pub fn insert(&mut self, name: String, record: Record)
        ensures
            final(self)@ == old(self)@.insert(name@, record@),
            old(self)@.contains_key(name@) ==> final(self).name_seq() == old(self).name_seq(),
            !old(self)@.contains_key(name@) ==> final(self).name_seq() == old(self).name_seq().push(
                name@,
            ),
    {
        proof {
            use_type_invariant(&*self);
            lemma_pairs_to_map_contains(self.pairs(), name@);
        }
        let ghost ps = self.pairs();
        match self.position(&name) {
            Some(j) => {
                let mut entries: Vec<(String, Record)> = Vec::new();
                std::mem::swap(&mut entries, &mut self.entries);
                let ghost rv = record@;
                entries.set(j, (name, record));
                proof {
                    let qs = entries@.map_values(|e: (String, Record)| (e.0@, e.1@));
                    assert(qs =~= ps.update(j as int, (ps[j as int].0, rv)));
                    lemma_pairs_to_map_update(ps, j as int, rv);
                    assert(keys_of(qs) =~= keys_of(ps));
                }
                self.entries = entries;
            },
            None => {
                let mut entries: Vec<(String, Record)> = Vec::new();
                std::mem::swap(&mut entries, &mut self.entries);
                let ghost k = name@;
                let ghost v = record@;
                entries.push((name, record));
                proof {
                    let qs = entries@.map_values(|e: (String, Record)| (e.0@, e.1@));
                    assert(qs =~= ps.push((k, v)));
                    lemma_pairs_to_map_push(ps, (k, v));
                    assert(keys_of(qs) =~= keys_of(ps).push(k));
                }
                self.entries = entries;
            },
        }
    }

    /// The entries, in the order their names were first inserted.
    pub fn entries(&self) -> (es: &Vec<(String, Record)>)
        ensures
            es@.map_values(|e: (String, Record)| (e.0@, e.1@)) == self.pairs(),
            keys_distinct(self.pairs()),
            pairs_to_map(self.pairs()) == self@,
    {
        proof {
            use_type_invariant(self);
        }
        &self.entries
    }

    /// The number of records.
    pub fn len(&self) -> (n: usize)
        ensures
            n == self.name_seq().len(),
    {
        self.entries.len()
    }
}

impl View for NameTable {
    type V = Map<Seq<char>, Map<Seq<char>, Seq<char>>>;

    closed spec fn view(&self) -> Map<Seq<char>, Map<Seq<char>, Seq<char>>> {
        pairs_to_map(self.pairs())
    }
}

} // verus!
