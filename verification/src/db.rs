//! The key-value store: a string-keyed map of byte values. Lookup never
//! fails and write unconditionally overwrites.
//!
//! The store itself is synchronous; sharing it across connections (behind
//! a lock, in a reference-counted handle) is the embedding program's
//! concern. Because every write is modelled as a map insert, any
//! serialization of concurrent writes leaves each key holding exactly the
//! last value written to it ([`lemma_last_writer_wins`]).

use vstd::prelude::*;

verus! {

/// One entry per key, keys pairwise distinct.
pub struct Db {
    entries: Vec<(String, Vec<u8>)>,
}

/// Abstract contents of a run of entries, later entries winning.
pub closed spec fn entries_map(s: Seq<(String, Vec<u8>)>) -> Map<Seq<char>, Seq<u8>>
    decreases s.len(),
{
    if s.len() == 0 {
        Map::empty()
    } else {
        entries_map(s.drop_last()).insert(s.last().0@, s.last().1@)
    }
}

impl View for Db {
    type V = Map<Seq<char>, Seq<u8>>;

    closed spec fn view(&self) -> Map<Seq<char>, Seq<u8>> {
        entries_map(self.entries@)
    }
}

impl Db {
    /// Keys are pairwise distinct.
    pub closed spec fn inv(&self) -> bool {
        forall|i: int, j: int|
            0 <= i < j < self.entries@.len() ==> #[trigger] self.entries@[i].0@
                != #[trigger] self.entries@[j].0@
    }

    /// An empty store.
    pub fn new() -> (db: Db)
        ensures
            db@ == Map::<Seq<char>, Seq<u8>>::empty(),
            db.inv(),
    {
        Db { entries: Vec::new() }
    }

    /// The value stored under `key`, or `None` when the key is absent.
    /// Lookup never fails.
    pub fn get(&self, key: &str) -> (r: Option<Vec<u8>>)
        requires
            self.inv(),
        ensures
            match r {
                Some(v) => self@.contains_key(key@) && v@ == self@[key@],
                None => !self@.contains_key(key@),
            },
    {
        proof {
            lemma_entries_map(self.entries@);
        }
        let wanted = String::from_str(key);
        let n = self.entries.len();
        let mut i: usize = 0;
        while i < n
            invariant
                n == self.entries@.len(),
                0 <= i <= n,
                self.inv(),
                wanted@ == key@,
                forall|j: int| 0 <= j < i ==> #[trigger] self.entries@[j].0@ != key@,
                self@ == entries_map(self.entries@),
            decreases n - i,
        {
            if self.entries[i].0 == wanted {
                proof {
                    lemma_entries_map(self.entries@);
                }
                let v = copy_bytes(&self.entries[i].1);
                return Some(v);
            }
            i = i + 1;
        }
        proof {
            lemma_entries_map(self.entries@);
            if self@.contains_key(key@) {
                let j = choose|j: int|
                    0 <= j < self.entries@.len() && self.entries@[j].0@ == key@;
                assert(self.entries@[j].0@ != key@);
            }
        }
        None
    }

    /// Store `value` under `key`, overwriting any previous value. Never
    /// fails.
    pub fn set(&mut self, key: String, value: Vec<u8>)
        requires
            old(self).inv(),
        ensures
            final(self).inv(),
            final(self)@ == old(self)@.insert(key@, value@),
    {
        let n = self.entries.len();
        let mut i: usize = 0;
        while i < n
            invariant
                n == self.entries@.len(),
                0 <= i <= n,
                self.inv(),
                self == old(self),
                forall|j: int| 0 <= j < i ==> #[trigger] self.entries@[j].0@ != key@,
            decreases n - i,
        {
            if self.entries[i].0 == key {
                let ghost prev = self.entries@;
                let dst = &mut self.entries[i].1;
                *dst = value;
                proof {
                    assert(self.entries@ =~= prev.update(
                        i as int,
                        (prev[i as int].0, self.entries@[i as int].1),
                    ));
                    lemma_entries_map_update(prev, i as int, self.entries@[i as int]);
                }
                return ;
            }
            i = i + 1;
        }
        let ghost prev = self.entries@;
        self.entries.push((key, value));
        proof {
            assert(self.entries@.drop_last() =~= prev);
            assert forall|a: int, b: int|
                0 <= a < b < self.entries@.len() implies #[trigger] self.entries@[a].0@
                != #[trigger] self.entries@[b].0@ by {
                if b < self.entries@.len() - 1 {
                    assert(self.entries@[a] == prev[a] && self.entries@[b] == prev[b]);
                } else {
                    assert(self.entries@[a] == prev[a]);
                    assert(prev[a].0@ != key@);
                }
            }
        }
    }
}

/// Copy a byte vector.
fn copy_bytes(v: &Vec<u8>) -> (r: Vec<u8>)
    ensures
        r@ == v@,
{
    let mut out: Vec<u8> = Vec::new();
    let n = v.len();
    let mut i: usize = 0;
    while i < n
        invariant
            n == v@.len(),
            0 <= i <= n,
            out@ == v@.subrange(0, i as int),
        decreases n - i,
    {
        out.push(v[i]);
        proof {
            assert(out@ =~= v@.subrange(0, i + 1));
        }
        i = i + 1;
    }
    proof {
        assert(v@.subrange(0, n as int) =~= v@);
    }
    out
}

/// What `entries_map` contains: exactly the keys of the entries, each
/// mapped to its entry's value when keys are pairwise distinct.
proof fn lemma_entries_map(s: Seq<(String, Vec<u8>)>)
    requires
        forall|i: int, j: int|
            0 <= i < j < s.len() ==> #[trigger] s[i].0@ != #[trigger] s[j].0@,
    ensures
        forall|i: int|
            0 <= i < s.len() ==> entries_map(s).contains_key(#[trigger] s[i].0@) && entries_map(
                s,
            )[s[i].0@] == s[i].1@,
        forall|k: Seq<char>|
            entries_map(s).contains_key(k) ==> exists|i: int|
                0 <= i < s.len() && #[trigger] s[i].0@ == k,
    decreases s.len(),
{
    if s.len() > 0 {
        let p = s.drop_last();
        assert(forall|i: int| 0 <= i < p.len() ==> #[trigger] p[i] == s[i]);
        lemma_entries_map(p);
        assert forall|i: int| 0 <= i < s.len() implies entries_map(s).contains_key(
            #[trigger] s[i].0@,
        ) && entries_map(s)[s[i].0@] == s[i].1@ by {
            if i < s.len() - 1 {
                assert(p[i] == s[i]);
                assert(entries_map(p).contains_key(p[i].0@) && entries_map(p)[p[i].0@]
                    == p[i].1@);
                assert(s[i].0@ != s[s.len() - 1].0@);
            }
        }
        assert forall|k: Seq<char>| entries_map(s).contains_key(k) implies exists|i: int|
            0 <= i < s.len() && #[trigger] s[i].0@ == k by {
            if k == s.last().0@ {
                assert(s[s.len() - 1].0@ == k);
            } else {
                assert(entries_map(p).contains_key(k));
                let i = choose|i: int| 0 <= i < p.len() && #[trigger] p[i].0@ == k;
                assert(p[i] == s[i]);
                assert(s[i].0@ == k);
            }
        }
    }
}

/// Overwriting the value of one entry inserts under its key, when keys are
/// pairwise distinct.
proof fn lemma_entries_map_update(s: Seq<(String, Vec<u8>)>, i: int, e: (String, Vec<u8>))
    requires
        forall|a: int, b: int|
            0 <= a < b < s.len() ==> #[trigger] s[a].0@ != #[trigger] s[b].0@,
        0 <= i < s.len(),
        e.0@ == s[i].0@,
    ensures
        entries_map(s.update(i, e)) == entries_map(s).insert(e.0@, e.1@),
        forall|a: int, b: int|
            0 <= a < b < s.update(i, e).len() ==> #[trigger] s.update(i, e)[a].0@
                != #[trigger] s.update(i, e)[b].0@,
    decreases s.len(),
{
    let t = s.update(i, e);
    assert(forall|a: int|
        0 <= a < s.len() && a != i ==> #[trigger] t[a] == s[a]);
    if i == s.len() - 1 {
        assert(t.drop_last() =~= s.drop_last());
        assert(entries_map(t) == entries_map(s.drop_last()).insert(e.0@, e.1@));
        assert(entries_map(s.drop_last()).insert(s.last().0@, s.last().1@).insert(e.0@, e.1@)
            =~= entries_map(s.drop_last()).insert(e.0@, e.1@));
    } else {
        let p = s.drop_last();
        assert(forall|a: int| 0 <= a < p.len() ==> #[trigger] p[a] == s[a]);
        lemma_entries_map_update(p, i, e);
        assert(t.drop_last() =~= p.update(i, e));
        assert(t.last() == s.last());
        assert(entries_map(t) == entries_map(p).insert(e.0@, e.1@).insert(
            s.last().0@,
            s.last().1@,
        ));
        assert(e.0@ != s.last().0@);
        assert(entries_map(p).insert(e.0@, e.1@).insert(s.last().0@, s.last().1@)
            =~= entries_map(p).insert(s.last().0@, s.last().1@).insert(e.0@, e.1@));
    }
}

/// Writing a key and then reading it back yields exactly the value
/// written, whatever the store held before.
pub proof fn lemma_set_then_get(m: Map<Seq<char>, Seq<u8>>, k: Seq<char>, v: Seq<u8>)
    ensures
        m.insert(k, v).contains_key(k),
        m.insert(k, v)[k] == v,
{
}

/// A run of writes applied in order, oldest first.
pub open spec fn apply_sets(
    m: Map<Seq<char>, Seq<u8>>,
    ops: Seq<(Seq<char>, Seq<u8>)>,
) -> Map<Seq<char>, Seq<u8>>
    decreases ops.len(),
{
    if ops.len() == 0 {
        m
    } else {
        apply_sets(m.insert(ops[0].0, ops[0].1), ops.drop_first())
    }
}

/// The value of the last write to `k` in `ops`, if any.
pub open spec fn last_write(ops: Seq<(Seq<char>, Seq<u8>)>, k: Seq<char>) -> Option<Seq<u8>>
    decreases ops.len(),
{
    if ops.len() == 0 {
        None
    } else {
        match last_write(ops.drop_first(), k) {
            Some(v) => Some(v),
            None => if ops[0].0 == k {
                Some(ops[0].1)
            } else {
                None
            },
        }
    }
}

/// However concurrent writes are serialized, after all of them each key
/// holds exactly the value of the last write to it in that order, and keys
/// nobody wrote are untouched: no corruption, no lost update beyond
/// last-writer-wins.
pub proof fn lemma_last_writer_wins(
    m: Map<Seq<char>, Seq<u8>>,
    ops: Seq<(Seq<char>, Seq<u8>)>,
    k: Seq<char>,
)
    ensures
        match last_write(ops, k) {
            Some(v) => apply_sets(m, ops).contains_key(k) && apply_sets(m, ops)[k] == v,
            None => apply_sets(m, ops).contains_key(k) == m.contains_key(k) && (m.contains_key(k)
                ==> apply_sets(m, ops)[k] == m[k]),
        },
    decreases ops.len(),
{
    if ops.len() > 0 {
        lemma_last_writer_wins(m.insert(ops[0].0, ops[0].1), ops.drop_first(), k);
    }
}

} // verus!
