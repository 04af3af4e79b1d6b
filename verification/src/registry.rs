//! The in-memory key registry: two independent namespaces, each mapping a
//! string key to a 128-bit UUID.
//!
//! Entries are held as an association list per namespace, in insertion
//! order (which is also the order of the durable store they were read
//! from).  The mathematical view of a namespace is the finite `Map` from
//! key characters to UUID value; well-formedness says the keys within a
//! namespace are distinct, so the list and the map carry the same
//! information.

use vstd::prelude::*;

verus! {

/// The two independent key namespaces of the registry.
#[derive(Clone, Copy, PartialEq, Eq, Structural, Debug)]
pub enum Namespace {
    Tag,
    Type,
}

impl Namespace {
    /// The namespace this one is independent of.
    pub open spec fn other(self) -> Namespace {
        match self {
            Namespace::Tag => Namespace::Type,
            Namespace::Type => Namespace::Tag,
        }
    }
}

/// One key with its assigned UUID.
pub struct Entry {
    pub key: String,
    pub id: u128,
}

/// The registry: a tag table and a type table.
pub struct Registry {
    pub tags: Vec<Entry>,
    pub types: Vec<Entry>,
}

/// The (key characters, UUID) pairs of a table, in order.
pub open spec fn entry_pairs(s: Seq<Entry>) -> Seq<(Seq<char>, u128)> {
    s.map(|i: int, e: Entry| (e.key@, e.id))
}

/// No key occurs twice.
pub open spec fn distinct_keys(s: Seq<(Seq<char>, u128)>) -> bool {
    forall|i: int, j: int| 0 <= i < j < s.len() ==> s[i].0 != s[j].0
}

/// The map that an association list denotes (later pairs win).
pub open spec fn assoc_map(s: Seq<(Seq<char>, u128)>) -> Map<Seq<char>, u128>
    decreases s.len(),
{
    if s.len() == 0 {
        Map::empty()
    } else {
        assoc_map(s.drop_last()).insert(s.last().0, s.last().1)
    }
}

/// Every pair of an association list with distinct keys is in its map.
pub proof fn lemma_assoc_map_index(s: Seq<(Seq<char>, u128)>, i: int)
    requires
        distinct_keys(s),
        0 <= i < s.len(),
    ensures
        assoc_map(s).contains_key(s[i].0),
        assoc_map(s)[s[i].0] == s[i].1,
    decreases s.len(),
{
    if i < s.len() - 1 {
        assert(distinct_keys(s.drop_last()));
        assert(s.drop_last()[i] == s[i]);
        lemma_assoc_map_index(s.drop_last(), i);
        assert(s[i].0 != s.last().0);
    }
}

/// A key on no pair of the list is not in its map.
pub proof fn lemma_assoc_map_absent(s: Seq<(Seq<char>, u128)>, k: Seq<char>)
    requires
        forall|i: int| 0 <= i < s.len() ==> s[i].0 != k,
    ensures
        !assoc_map(s).contains_key(k),
    decreases s.len(),
{
    if s.len() > 0 {
        lemma_assoc_map_absent(s.drop_last(), k);
    }
}

/// With distinct keys the map has exactly one entry per pair.
pub proof fn lemma_assoc_map_len(s: Seq<(Seq<char>, u128)>)
    requires
        distinct_keys(s),
    ensures
        assoc_map(s).dom().finite(),
        assoc_map(s).dom().len() == s.len(),
    decreases s.len(),
{
    if s.len() == 0 {
    } else {
        assert(distinct_keys(s.drop_last()));
        lemma_assoc_map_len(s.drop_last());
        assert(forall|i: int| 0 <= i < s.drop_last().len() ==> s.drop_last()[i].0 != s.last().0);
        lemma_assoc_map_absent(s.drop_last(), s.last().0);
    }
}

/// Character-for-character string equality.
pub fn str_eq(a: &str, b: &str) -> (r: bool)
    ensures
        r == (a@ == b@),
{
    let la = a.unicode_len();
    let lb = b.unicode_len();
    if la != lb {
        return false;
    }
    let mut i: usize = 0;
    while i < la
        invariant
            i <= la,
            la == a@.len(),
            la == b@.len(),
            forall|j: int| 0 <= j < i ==> a@[j] == b@[j],
        decreases la - i,
    {
        if a.get_char(i) != b.get_char(i) {
            return false;
        }
        i = i + 1;
    }
    proof {
        assert(a@ =~= b@);
    }
    true
}

impl Registry {
    /// The tag table's pairs, in order.
    pub open spec fn tag_pairs(self) -> Seq<(Seq<char>, u128)> {
        entry_pairs(self.tags@)
    }

    /// The type table's pairs, in order.
    pub open spec fn type_pairs(self) -> Seq<(Seq<char>, u128)> {
        entry_pairs(self.types@)
    }

    /// The pairs of the table a namespace selects.
    pub open spec fn pairs_of(self, ns: Namespace) -> Seq<(Seq<char>, u128)> {
        match ns {
            Namespace::Tag => self.tag_pairs(),
            Namespace::Type => self.type_pairs(),
        }
    }

    /// The key-to-UUID map of the tag namespace.
    pub open spec fn tag_map(self) -> Map<Seq<char>, u128> {
        assoc_map(self.tag_pairs())
    }

    /// The key-to-UUID map of the type namespace.
    pub open spec fn type_map(self) -> Map<Seq<char>, u128> {
        assoc_map(self.type_pairs())
    }

    /// The map of the table a namespace selects.
    pub open spec fn map_of(self, ns: Namespace) -> Map<Seq<char>, u128> {
        assoc_map(self.pairs_of(ns))
    }

    /// Within each namespace, every key maps to exactly one UUID.
    pub open spec fn wf(self) -> bool {
        distinct_keys(self.tag_pairs()) && distinct_keys(self.type_pairs())
    }

    /// The empty registry: both namespaces empty.
    pub fn new() -> (r: Registry)
        ensures
            r.wf(),
            r.tag_map() == Map::<Seq<char>, u128>::empty(),
            r.type_map() == Map::<Seq<char>, u128>::empty(),
            r.tags@.len() == 0,
            r.types@.len() == 0,
    {
        let r = Registry { tags: Vec::new(), types: Vec::new() };
        proof {
            assert(r.tag_pairs() =~= Seq::<(Seq<char>, u128)>::empty());
            assert(r.type_pairs() =~= Seq::<(Seq<char>, u128)>::empty());
        }
        r
    }

    /// Looks a key up in the table its namespace selects.
    pub fn lookup(&self, ns: Namespace, key: &str) -> (r: Option<u128>)
        requires
            self.wf(),
        ensures
            match r {
                Some(u) => self.map_of(ns).contains_key(key@) && self.map_of(ns)[key@] == u,
                None => !self.map_of(ns).contains_key(key@),
            },
    {
        let entries: &Vec<Entry> = match ns {
            Namespace::Tag => &self.tags,
            Namespace::Type => &self.types,
        };
        let ghost pairs = self.pairs_of(ns);
        let mut i: usize = 0;
        while i < entries.len()
            invariant
                i <= entries.len(),
                pairs == entry_pairs(entries@),
                pairs == self.pairs_of(ns),
                distinct_keys(pairs),
                forall|j: int| 0 <= j < i ==> pairs[j].0 != key@,
            decreases entries.len() - i,
        {
            if str_eq(entries[i].key.as_str(), key) {
                proof {
                    assert(pairs[i as int].0 == key@);
                    lemma_assoc_map_index(pairs, i as int);
                }
                return Some(entries[i].id);
            }
            i = i + 1;
        }
        proof {
            lemma_assoc_map_absent(pairs, key@);
        }
        None
    }

    /// Records a new key in the table its namespace selects.  The key must
    /// not be present: a mapping, once made, is never altered.
    pub fn insert(&mut self, ns: Namespace, key: &str, id: u128)
        requires
            old(self).wf(),
            !old(self).map_of(ns).contains_key(key@),
        ensures
            final(self).wf(),
            final(self).map_of(ns) == old(self).map_of(ns).insert(key@, id),
            final(self).pairs_of(ns) == old(self).pairs_of(ns).push((key@, id)),
            final(self).map_of(ns.other()) == old(self).map_of(ns.other()),
            final(self).pairs_of(ns.other()) == old(self).pairs_of(ns.other()),
    {
        let ghost pairs = old(self).pairs_of(ns);
        proof {
            assert forall|i: int| 0 <= i < pairs.len() implies pairs[i].0 != key@ by {
                if pairs[i].0 == key@ {
                    lemma_assoc_map_index(pairs, i);
                }
            }
        }
        let e = Entry { key: key.to_owned(), id };
        match ns {
            Namespace::Tag => self.tags.push(e),
            Namespace::Type => self.types.push(e),
        }
        proof {
            assert(final(self).pairs_of(ns) =~= pairs.push((key@, id)));
            assert(final(self).pairs_of(ns.other()) =~= old(self).pairs_of(ns.other()));
            assert(pairs.push((key@, id)).drop_last() =~= pairs);
            assert(distinct_keys(pairs.push((key@, id))));
        }
    }

    /// The number of entries in the tag table; with a well-formed registry
    /// this is also the size of the tag map.
    pub fn tag_count(&self) -> (r: usize)
        ensures
            r == self.tags@.len(),
            self.wf() ==> self.tag_map().dom().finite() && r == self.tag_map().dom().len(),
    {
        proof {
            if self.wf() {
                lemma_assoc_map_len(self.tag_pairs());
            }
        }
        self.tags.len()
    }

    /// The number of entries in the type table; with a well-formed registry
    /// this is also the size of the type map.
    pub fn type_count(&self) -> (r: usize)
        ensures
            r == self.types@.len(),
            self.wf() ==> self.type_map().dom().finite() && r == self.type_map().dom().len(),
    {
        proof {
            if self.wf() {
                lemma_assoc_map_len(self.type_pairs());
            }
        }
        self.types.len()
    }
}

} // verus!
