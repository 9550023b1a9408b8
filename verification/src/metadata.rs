//! Open-ended string annotations of a node: a finite map from key to
//! value, kept as a list in ascending order of the keys' bytes, so that
//! equal maps are equal lists, in whatever order the entries came.

use vstd::prelude::*;
use vstd::utf8::encode_utf8;

verus! {

/// Whether a byte string comes before another in lexicographic order.
pub open spec fn bytes_before(a: Seq<u8>, b: Seq<u8>) -> bool
    decreases a.len(),
{
    if b.len() == 0 {
        false
    } else if a.len() == 0 {
        true
    } else if a[0] != b[0] {
        a[0] < b[0]
    } else {
        bytes_before(a.drop_first(), b.drop_first())
    }
}

/// Whether a key comes before another: by the bytes of their UTF-8 forms.
pub open spec fn key_before(a: Seq<char>, b: Seq<char>) -> bool {
    bytes_before(encode_utf8(a), encode_utf8(b))
}

/// No byte string comes before itself.
pub proof fn lemma_bytes_before_irreflexive(a: Seq<u8>)
    ensures
        !bytes_before(a, a),
    decreases a.len(),
{
    if a.len() > 0 {
        lemma_bytes_before_irreflexive(a.drop_first());
    }
}

/// What comes before a byte string comes before all that it comes before.
pub proof fn lemma_bytes_before_transitive(a: Seq<u8>, b: Seq<u8>, c: Seq<u8>)
    requires
        bytes_before(a, b),
        bytes_before(b, c),
    ensures
        bytes_before(a, c),
    decreases a.len(),
{
    if a.len() > 0 && a[0] == b[0] && b[0] == c[0] {
        lemma_bytes_before_transitive(a.drop_first(), b.drop_first(), c.drop_first());
    }
}

/// How one key stands to another.
#[derive(Debug, Clone, Copy, PartialEq, Eq, Structural)]
pub enum KeyOrder {
    Before,
    Same,
    After,
}

/// How one string stands to another in the order of the keys.
pub fn key_order(a: &str, b: &str) -> (order: KeyOrder)
    ensures
        match order {
            KeyOrder::Before => key_before(a@, b@),
            KeyOrder::Same => a@ == b@,
            KeyOrder::After => key_before(b@, a@),
        },
{
    let x = a.as_bytes();
    let y = b.as_bytes();
    proof {
        vstd::utf8::encode_utf8_decode_utf8(a@);
        vstd::utf8::encode_utf8_decode_utf8(b@);
    }
    let mut i: usize = 0;
    assert(x@.skip(0) =~= x@ && y@.skip(0) =~= y@);
    while i < x.len() && i < y.len()
        invariant
            i <= x@.len(),
            i <= y@.len(),
            x@ == encode_utf8(a@),
            y@ == encode_utf8(b@),
            bytes_before(x@, y@) == bytes_before(x@.skip(i as int), y@.skip(i as int)),
            bytes_before(y@, x@) == bytes_before(y@.skip(i as int), x@.skip(i as int)),
            x@.take(i as int) == y@.take(i as int),
        decreases x@.len() - i,
    {
        if x[i] < y[i] {
            return KeyOrder::Before;
        }
        if x[i] > y[i] {
            return KeyOrder::After;
        }
        proof {
            assert(x@.skip(i as int).drop_first() =~= x@.skip(i + 1));
            assert(y@.skip(i as int).drop_first() =~= y@.skip(i + 1));
            assert(x@.take(i + 1) =~= x@.take(i as int).push(x@[i as int]));
            assert(y@.take(i + 1) =~= y@.take(i as int).push(y@[i as int]));
        }
        i = i + 1;
    }
    if i < y.len() {
        KeyOrder::Before
    } else if i < x.len() {
        KeyOrder::After
    } else {
        proof {
            assert(x@ =~= x@.take(i as int));
            assert(y@ =~= y@.take(i as int));
        }
        KeyOrder::Same
    }
}

/// Whether two strings hold the same characters.
pub fn str_equal(a: &str, b: &str) -> (same: bool)
    ensures
        same == (a@ == b@),
{
    proof {
        lemma_bytes_before_irreflexive(encode_utf8(a@));
    }
    match key_order(a, b) {
        KeyOrder::Same => true,
        _ => false,
    }
}

/// The map that a list of entries stands for when read front to back,
/// a later entry for a key replacing an earlier one.
pub open spec fn entries_map(entries: Seq<(String, String)>) -> Map<Seq<char>, Seq<char>>
    decreases entries.len(),
{
    if entries.len() == 0 {
        Map::empty()
    } else {
        entries_map(entries.drop_last()).insert(entries.last().0@, entries.last().1@)
    }
}

/// The entries of a list as plain values.
pub open spec fn entry_views(entries: Seq<(String, String)>) -> Seq<(Seq<char>, Seq<char>)> {
    entries.map_values(|e: (String, String)| (e.0@, e.1@))
}

/// No two entries of the list share a key.
pub open spec fn keys_unique(entries: Seq<(String, String)>) -> bool {
    forall|i: int, j: int|
        0 <= i < j < entries.len() ==> (#[trigger] entries[i]).0@ != (#[trigger] entries[j]).0@
}

/// Each entry's key comes before the keys of the entries behind it.
pub open spec fn keys_ascend(entries: Seq<(String, String)>) -> bool {
    forall|i: int, j: int|
        0 <= i < j < entries.len() ==> key_before(
            (#[trigger] entries[i]).0@,
            (#[trigger] entries[j]).0@,
        )
}

/// In an ascending list no key occurs twice.
pub proof fn lemma_ascending_is_unique(entries: Seq<(String, String)>)
    requires
        keys_ascend(entries),
    ensures
        keys_unique(entries),
{
    assert forall|i: int, j: int| 0 <= i < j < entries.len() implies (#[trigger] entries[i]).0@ != (
    #[trigger] entries[j]).0@ by {
        lemma_bytes_before_irreflexive(encode_utf8(entries[i].0@));
    }
}

/// In a list with unique keys every entry is what the map holds for its key,
/// and the map holds nothing else.
pub proof fn lemma_entries_map(entries: Seq<(String, String)>)
    requires
        keys_unique(entries),
    ensures
        forall|i: int|
            0 <= i < entries.len() ==> entries_map(entries).contains_key(
                (#[trigger] entries[i]).0@,
            ) && entries_map(entries)[entries[i].0@] == entries[i].1@,
        forall|k: Seq<char>| #[trigger]
            entries_map(entries).contains_key(k) ==> exists|i: int|
                0 <= i < entries.len() && (#[trigger] entries[i]).0@ == k,
        entries_map(entries).dom().finite(),
    decreases entries.len(),
{
    if entries.len() > 0 {
        let front = entries.drop_last();
        lemma_entries_map(front);
        assert forall|i: int| 0 <= i < entries.len() implies entries_map(entries).contains_key(
            (#[trigger] entries[i]).0@,
        ) && entries_map(entries)[entries[i].0@] == entries[i].1@ by {
            if i < entries.len() - 1 {
                assert(front[i] == entries[i]);
                assert(entries[i].0@ != entries[entries.len() - 1].0@);
            }
        }
        assert forall|k: Seq<char>| #[trigger]
            entries_map(entries).contains_key(k) implies exists|i: int|
            0 <= i < entries.len() && (#[trigger] entries[i]).0@ == k by {
            if k == entries.last().0@ {
                assert(entries[entries.len() - 1].0@ == k);
            } else {
                let i = choose|i: int| 0 <= i < front.len() && (#[trigger] front[i]).0@ == k;
                assert(entries[i] == front[i]);
            }
        }
    }
}

/// A list with unique keys has as many entries as its map has keys.
pub proof fn lemma_entries_len(entries: Seq<(String, String)>)
    requires
        keys_unique(entries),
    ensures
        entries_map(entries).dom().finite(),
        entries_map(entries).len() == entries.len(),
    decreases entries.len(),
{
    if entries.len() > 0 {
        let front = entries.drop_last();
        lemma_entries_len(front);
        lemma_entries_map(front);
        if entries_map(front).contains_key(entries.last().0@) {
            let i = choose|i: int|
                0 <= i < front.len() && (#[trigger] front[i]).0@ == entries.last().0@;
            assert(entries[i] == front[i]);
            assert(entries[i].0@ != entries[entries.len() - 1].0@);
        }
    }
}

/// Putting an entry into its place in an ascending list keeps the list
/// ascending and adds the entry to the map.
pub proof fn lemma_insert_at(entries: Seq<(String, String)>, at: int, entry: (String, String))
    requires
        keys_ascend(entries),
        0 <= at <= entries.len(),
        forall|j: int| 0 <= j < at ==> key_before((#[trigger] entries[j]).0@, entry.0@),
        at < entries.len() ==> key_before(entry.0@, entries[at].0@),
    ensures
        keys_ascend(entries.insert(at, entry)),
        entries_map(entries.insert(at, entry)) == entries_map(entries).insert(entry.0@, entry.1@),
{
    let after = entries.insert(at, entry);
    assert forall|i: int, j: int| 0 <= i < j < after.len() implies key_before(
        (#[trigger] after[i]).0@,
        (#[trigger] after[j]).0@,
    ) by {
        let si = if i < at {
            i
        } else {
            i - 1
        };
        let sj = if j < at {
            j
        } else {
            j - 1
        };
        if i == at {
            assert(after[j] == entries[sj]);
            if sj > at {
                assert(key_before(entries[at].0@, entries[sj].0@));
                lemma_bytes_before_transitive(
                    encode_utf8(entry.0@),
                    encode_utf8(entries[at].0@),
                    encode_utf8(entries[sj].0@),
                );
            }
        } else if j == at {
            assert(after[i] == entries[si]);
        } else {
            assert(after[i] == entries[si]);
            assert(after[j] == entries[sj]);
        }
    }
    lemma_ascending_is_unique(entries);
    lemma_ascending_is_unique(after);
    lemma_entries_map(entries);
    lemma_entries_map(after);
    let want = entries_map(entries).insert(entry.0@, entry.1@);
    assert(after[at] == entry);
    assert forall|k: Seq<char>| entries_map(after).contains_key(k) implies want.contains_key(k)
        && want[k] == entries_map(after)[k] by {
        let i = choose|i: int| 0 <= i < after.len() && (#[trigger] after[i]).0@ == k;
        if i != at {
            let si = if i < at {
                i
            } else {
                i - 1
            };
            assert(after[i] == entries[si]);
            lemma_bytes_before_irreflexive(encode_utf8(entry.0@));
            assert(entries[si].0@ != entry.0@) by {
                if i < at {
                    assert(key_before(after[i].0@, after[at].0@));
                } else {
                    assert(key_before(after[at].0@, after[i].0@));
                }
            }
        }
    }
    assert forall|k: Seq<char>| want.contains_key(k) implies entries_map(after).contains_key(k) by {
        if k != entry.0@ {
            let i = choose|i: int| 0 <= i < entries.len() && (#[trigger] entries[i]).0@ == k;
            let ai = if i < at {
                i
            } else {
                i + 1
            };
            assert(after[ai] == entries[i]);
        }
    }
    assert(entries_map(after) =~= want);
}

/// Replacing the value of an entry keeps the list ascending and replaces
/// the value in the map.
pub proof fn lemma_replace_at(entries: Seq<(String, String)>, at: int, entry: (String, String))
    requires
        keys_ascend(entries),
        0 <= at < entries.len(),
        entries[at].0@ == entry.0@,
    ensures
        keys_ascend(entries.update(at, entry)),
        entries_map(entries.update(at, entry)) == entries_map(entries).insert(entry.0@, entry.1@),
{
    let after = entries.update(at, entry);
    assert forall|i: int, j: int| 0 <= i < j < after.len() implies key_before(
        (#[trigger] after[i]).0@,
        (#[trigger] after[j]).0@,
    ) by {
        assert(after[i].0@ == entries[i].0@);
        assert(after[j].0@ == entries[j].0@);
    }
    lemma_ascending_is_unique(entries);
    lemma_ascending_is_unique(after);
    lemma_entries_map(entries);
    lemma_entries_map(after);
    let want = entries_map(entries).insert(entry.0@, entry.1@);
    assert(after[at] == entry);
    assert forall|k: Seq<char>| entries_map(after).contains_key(k) implies want.contains_key(k)
        && want[k] == entries_map(after)[k] by {
        let i = choose|i: int| 0 <= i < after.len() && (#[trigger] after[i]).0@ == k;
        if i != at {
            assert(after[i] == entries[i]);
            assert(entries[i].0@ != entries[at].0@);
        }
    }
    assert forall|k: Seq<char>| want.contains_key(k) implies entries_map(after).contains_key(k) by {
        if k != entry.0@ {
            let i = choose|i: int| 0 <= i < entries.len() && (#[trigger] entries[i]).0@ == k;
            assert(after[i] == entries[i]);
        }
    }
    assert(entries_map(after) =~= want);
}

/// A key whose place in an ascending list is held by another key, or lies
/// behind the list, is not in the map.
pub proof fn lemma_place_misses(entries: Seq<(String, String)>, at: int, key: Seq<char>)
    requires
        keys_ascend(entries),
        0 <= at <= entries.len(),
        forall|j: int| 0 <= j < at ==> key_before((#[trigger] entries[j]).0@, key),
        at < entries.len() ==> key_before(key, entries[at].0@),
    ensures
        !entries_map(entries).contains_key(key),
{
    lemma_ascending_is_unique(entries);
    lemma_entries_map(entries);
    if entries_map(entries).contains_key(key) {
        let i = choose|i: int| 0 <= i < entries.len() && (#[trigger] entries[i]).0@ == key;
        lemma_bytes_before_irreflexive(encode_utf8(key));
        if i < at {
            assert(key_before(entries[i].0@, key));
        } else if i > at {
            assert(key_before(entries[at].0@, entries[i].0@));
            lemma_bytes_before_transitive(
                encode_utf8(key),
                encode_utf8(entries[at].0@),
                encode_utf8(key),
            );
        }
    }
}

/// Without its last entry an ascending list stands for the map without
/// the last key.
pub proof fn lemma_drop_last_key(entries: Seq<(String, String)>)
    requires
        keys_ascend(entries),
        entries.len() > 0,
    ensures
        keys_ascend(entries.drop_last()),
        entries_map(entries.drop_last()) == entries_map(entries).remove(entries.last().0@),
{
    let front = entries.drop_last();
    assert forall|i: int, j: int| 0 <= i < j < front.len() implies key_before(
        (#[trigger] front[i]).0@,
        (#[trigger] front[j]).0@,
    ) by {
        assert(front[i] == entries[i]);
        assert(front[j] == entries[j]);
    }
    lemma_ascending_is_unique(entries);
    lemma_ascending_is_unique(front);
    lemma_entries_map(front);
    if entries_map(front).contains_key(entries.last().0@) {
        let i = choose|i: int| 0 <= i < front.len() && (#[trigger] front[i]).0@ == entries.last().0@;
        assert(front[i] == entries[i]);
        assert(entries[i].0@ != entries[entries.len() - 1].0@);
    }
    assert(entries_map(front) =~= entries_map(entries).remove(entries.last().0@));
}

/// Ascending lists that stand for the same map hold the same entries in the
/// same order: the list does not show in which order its entries came.
pub proof fn lemma_ascending_is_canonical(a: Seq<(String, String)>, b: Seq<(String, String)>)
    requires
        keys_ascend(a),
        keys_ascend(b),
        entries_map(a) == entries_map(b),
    ensures
        entry_views(a) == entry_views(b),
    decreases a.len(),
{
    lemma_ascending_is_unique(a);
    lemma_ascending_is_unique(b);
    lemma_entries_len(a);
    lemma_entries_len(b);
    if a.len() == 0 {
        assert(entry_views(a) =~= entry_views(b));
    } else {
        lemma_entries_map(a);
        lemma_entries_map(b);
        let last_a = a[a.len() - 1];
        let last_b = b[b.len() - 1];
        assert(entries_map(b).contains_key(last_a.0@));
        assert(entries_map(a).contains_key(last_b.0@));
        if last_a.0@ != last_b.0@ {
            let j = choose|j: int| 0 <= j < b.len() && (#[trigger] b[j]).0@ == last_a.0@;
            let i = choose|i: int| 0 <= i < a.len() && (#[trigger] a[i]).0@ == last_b.0@;
            assert(key_before(b[j].0@, b[b.len() - 1].0@));
            assert(key_before(a[i].0@, a[a.len() - 1].0@));
            lemma_bytes_before_transitive(
                encode_utf8(last_a.0@),
                encode_utf8(last_b.0@),
                encode_utf8(last_a.0@),
            );
            lemma_bytes_before_irreflexive(encode_utf8(last_a.0@));
        }
        assert(last_a.1@ == last_b.1@);
        lemma_drop_last_key(a);
        lemma_drop_last_key(b);
        lemma_ascending_is_canonical(a.drop_last(), b.drop_last());
        let va = entry_views(a);
        let vb = entry_views(b);
        assert forall|i: int| 0 <= i < va.len() implies va[i] == vb[i] by {
            if i < a.len() - 1 {
                assert(entry_views(a.drop_last())[i] == va[i]);
                assert(entry_views(b.drop_last())[i] == vb[i]);
            }
        }
        assert(va =~= vb);
    }
}

/// String annotations with unique keys.
#[derive(Debug, PartialEq, Eq, Hash)]
pub struct Metadata {
    entries: Vec<(String, String)>,
}

impl View for Metadata {
    type V = Map<Seq<char>, Seq<char>>;

    open spec fn view(&self) -> Map<Seq<char>, Seq<char>> {
        entries_map(self.entries())
    }
}

impl Clone for Metadata {
    /// A copy that holds the same entries.
    fn clone(&self) -> (copy: Metadata)
        ensures
            copy@ == self@,
            copy.entries() == self.entries(),
            keys_ascend(copy.entries()),
    {
        proof {
            use_type_invariant(self);
        }
        Metadata { entries: self.to_vec() }
    }
}

impl Metadata {
    /// The invariant of the type: the keys ascend.
    #[verifier::type_invariant]
    pub closed spec fn well_formed(&self) -> bool {
        keys_ascend(self.entries@)
    }

    /// The entries, in ascending order of their keys.
    pub closed spec fn entries(&self) -> Seq<(String, String)> {
        self.entries@
    }

    /// Annotations with no entry.
    pub fn new() -> (metadata: Metadata)
        ensures
            metadata@ == Map::<Seq<char>, Seq<char>>::empty(),
            keys_ascend(metadata.entries()),
    {
        Metadata { entries: Vec::new() }
    }

    /// The entries as pairs of key and value, in ascending order of the keys.
    pub fn to_vec(&self) -> (pairs: Vec<(String, String)>)
        ensures
            pairs@ == self.entries(),
            keys_ascend(pairs@),
    {
        proof {
            use_type_invariant(self);
        }
        let mut pairs: Vec<(String, String)> = Vec::new();
        let mut i: usize = 0;
        while i < self.entries.len()
            invariant
                i <= self.entries@.len(),
                pairs@ == self.entries@.take(i as int),
            decreases self.entries@.len() - i,
        {
            let key = self.entries[i].0.clone();
            let value = self.entries[i].1.clone();
            pairs.push((key, value));
            assert(pairs@ =~= self.entries@.take(i + 1));
            i = i + 1;
        }
        assert(pairs@ =~= self.entries@);
        pairs
    }

    /// The number of keys.
    pub fn len(&self) -> (n: usize)
        ensures
            n == self@.len(),
            n == self.entries().len(),
            self@.dom().finite(),
            keys_ascend(self.entries()),
    {
        proof {
            use_type_invariant(self);
            lemma_ascending_is_unique(self.entries@);
            lemma_entries_len(self.entries@);
        }
        self.entries.len()
    }

    /// The place of a key in the list: the position of the first entry
    /// whose key does not come before it, and whether that entry has the
    /// key itself.
    fn place(&self, key: &str) -> (found: (usize, bool))
        ensures
            found.0 <= self.entries@.len(),
            forall|j: int| 0 <= j < found.0 ==> key_before((#[trigger] self.entries@[j]).0@, key@),
            found.1 ==> found.0 < self.entries@.len() && self.entries@[found.0 as int].0@ == key@,
            !found.1 && found.0 < self.entries@.len() ==> key_before(
                key@,
                self.entries@[found.0 as int].0@,
            ),
    {
        let mut i: usize = 0;
        while i < self.entries.len()
            invariant
                i <= self.entries@.len(),
                forall|j: int| 0 <= j < i ==> key_before((#[trigger] self.entries@[j]).0@, key@),
            decreases self.entries@.len() - i,
        {
            match key_order(self.entries[i].0.as_str(), key) {
                KeyOrder::Before => {},
                KeyOrder::Same => {
                    return (i, true);
                },
                KeyOrder::After => {
                    return (i, false);
                },
            }
            i = i + 1;
        }
        (i, false)
    }

    /// The value stored under a key.
    pub fn get(&self, key: &str) -> (value: Option<&String>)
        ensures
            match value {
                Some(v) => self@.contains_key(key@) && self@[key@] == v@,
                None => !self@.contains_key(key@),
            },
    {
        proof {
            use_type_invariant(self);
            lemma_ascending_is_unique(self.entries@);
            lemma_entries_map(self.entries@);
        }
        let (at, same) = self.place(key);
        if same {
            Some(&self.entries[at].1)
        } else {
            proof {
                lemma_place_misses(self.entries@, at as int, key@);
            }
            None
        }
    }

    /// Whether a key has a value.
    pub fn contains_key(&self, key: &str) -> (present: bool)
        ensures
            present == self@.contains_key(key@),
    {
        self.get(key).is_some()
    }

    /// Stores a value under a key, replacing the value that the key had.
    /// Returns the value that was replaced.
    pub fn insert(&mut self, key: String, value: String) -> (previous: Option<String>)
        ensures
            final(self)@ == old(self)@.insert(key@, value@),
            keys_ascend(final(self).entries()),
            match previous {
                Some(p) => old(self)@.contains_key(key@) && old(self)@[key@] == p@,
                None => !old(self)@.contains_key(key@),
            },
    {
        proof {
            use_type_invariant(&*self);
            lemma_ascending_is_unique(self.entries@);
            lemma_entries_map(self.entries@);
        }
        let ghost before = self.entries@;
        let (at, same) = self.place(key.as_str());
        let mut entries: Vec<(String, String)> = Vec::new();
        std::mem::swap(&mut self.entries, &mut entries);
        let previous = if same {
            let replaced = entries.remove(at);
            entries.insert(at, (key, value));
            proof {
                assert(entries@ =~= before.update(at as int, (key, value)));
                lemma_replace_at(before, at as int, (key, value));
            }
            Some(replaced.1)
        } else {
            entries.insert(at, (key, value));
            proof {
                lemma_insert_at(before, at as int, (key, value));
                lemma_place_misses(before, at as int, key@);
            }
            None
        };
        std::mem::swap(&mut self.entries, &mut entries);
        previous
    }
}

} // verus!
