//! The in-memory key directory: each live key maps to the location and
//! timestamp of its most recent put record.

use vstd::pervasive::VecAdditionalExecFns;
use vstd::prelude::*;

verus! {

/// Where a key's current record lives, and the record's version tag.
#[derive(Debug, Clone, Copy)]
pub struct KeyInfo {
    pub segment_id: u64,
    pub record_offset: u64,
    pub timestamp: u64,
}

/// No two entries carry the same key.
pub open spec fn distinct_keys(s: Seq<(String, KeyInfo)>) -> bool {
    forall|i: int, j: int| 0 <= i < j < s.len() ==> s[i].0@ != s[j].0@
}

/// The mapping that a sequence of entries denotes; later entries win.
pub open spec fn kd_map(s: Seq<(String, KeyInfo)>) -> Map<Seq<char>, KeyInfo>
    decreases s.len(),
{
    if s.len() == 0 {
        Map::empty()
    } else {
        kd_map(s.drop_last()).insert(s.last().0@, s.last().1)
    }
}

/// With distinct keys, the mapping holds exactly the entries' keys, each
/// bound to its entry's info.
proof fn lemma_kd_map_props(s: Seq<(String, KeyInfo)>)
    requires
        distinct_keys(s),
    ensures
        forall|i: int|
            0 <= i < s.len() ==> kd_map(s).contains_key((#[trigger] s[i]).0@) && kd_map(s)[s[i].0@]
                == s[i].1,
        forall|k: Seq<char>|
            kd_map(s).contains_key(k) ==> exists|i: int| 0 <= i < s.len() && (#[trigger] s[i]).0@
                == k,
    decreases s.len(),
{
    if s.len() > 0 {
        lemma_kd_map_props(s.drop_last());
        assert forall|i: int|
            0 <= i < s.len() implies kd_map(s).contains_key((#[trigger] s[i]).0@) && kd_map(
            s,
        )[s[i].0@] == s[i].1 by {
            if i < s.len() - 1 {
                assert(s.drop_last()[i] == s[i]);
                assert(s[i].0@ != s.last().0@);
            }
        }
        assert forall|k: Seq<char>|
            kd_map(s).contains_key(k) implies exists|i: int|
            0 <= i < s.len() && (#[trigger] s[i]).0@ == k by {
            if k == s.last().0@ {
                assert(s[s.len() - 1].0@ == k);
            } else {
                assert(kd_map(s.drop_last()).contains_key(k));
                let i = choose|i: int|
                    0 <= i < s.drop_last().len() && (#[trigger] s.drop_last()[i]).0@ == k;
                assert(s[i].0@ == k);
            }
        }
    }
}

/// Replacing the entry that holds a key rebinds that key in the mapping.
proof fn lemma_kd_map_update(s: Seq<(String, KeyInfo)>, i: int, e: (String, KeyInfo))
    requires
        distinct_keys(s),
        0 <= i < s.len(),
        s[i].0@ == e.0@,
    ensures
        kd_map(s.update(i, e)) =~= kd_map(s).insert(e.0@, e.1),
    decreases s.len(),
{
    let s2 = s.update(i, e);
    if i == s.len() - 1 {
        assert(s2.drop_last() =~= s.drop_last());
        assert(s2.last() == e);
    } else {
        assert(s2.drop_last() =~= s.drop_last().update(i, e));
        assert(s.drop_last()[i] == s[i]);
        lemma_kd_map_update(s.drop_last(), i, e);
        assert(s2.last() == s.last());
        assert(e.0@ != s.last().0@);
    }
}

/// Removing the entry that holds a key removes that key from the mapping.
proof fn lemma_kd_map_remove(s: Seq<(String, KeyInfo)>, i: int)
    requires
        distinct_keys(s),
        0 <= i < s.len(),
    ensures
        kd_map(s.remove(i)) =~= kd_map(s).remove(s[i].0@),
        distinct_keys(s.remove(i)),
    decreases s.len(),
{
    let s2 = s.remove(i);
    lemma_kd_map_props(s);
    lemma_kd_map_props(s.drop_last());
    if i == s.len() - 1 {
        assert(s2 =~= s.drop_last());
        assert(!kd_map(s.drop_last()).contains_key(s[i].0@));
        assert(kd_map(s.remove(i)) =~= kd_map(s).remove(s[i].0@));
    } else {
        assert(s2.drop_last() =~= s.drop_last().remove(i));
        assert(s.drop_last()[i] == s[i]);
        lemma_kd_map_remove(s.drop_last(), i);
        assert(s2.last() == s.last());
        assert(s[i].0@ != s.last().0@);
    }
}

/// With distinct keys, the mapping's domain has one element per entry.
proof fn lemma_kd_map_len(s: Seq<(String, KeyInfo)>)
    requires
        distinct_keys(s),
    ensures
        kd_map(s).dom().finite(),
        kd_map(s).dom().len() == s.len(),
    decreases s.len(),
{
    if s.len() > 0 {
        lemma_kd_map_props(s.drop_last());
        lemma_kd_map_len(s.drop_last());
        assert(!kd_map(s.drop_last()).contains_key(s.last().0@));
        assert(kd_map(s).dom() =~= kd_map(s.drop_last()).dom().insert(s.last().0@));
    }
}

/// The key directory.
pub struct KeyDir {
    entries: Vec<(String, KeyInfo)>,
}

impl View for KeyDir {
    type V = Map<Seq<char>, KeyInfo>;

    closed spec fn view(&self) -> Map<Seq<char>, KeyInfo> {
        kd_map(self.entries@)
    }
}

impl KeyDir {
    /// Entries never repeat a key.
    pub closed spec fn wf(self) -> bool {
        distinct_keys(self.entries@)
    }

    /// How many keys are live.
    pub fn len(&self) -> (n: usize)
        requires
            self.wf(),
        ensures
            n == self@.dom().len(),
            self@.dom().finite(),
    {
        proof {
            lemma_kd_map_len(self.entries@);
        }
        self.entries.len()
    }

    /// An empty directory.
    pub fn new() -> (kd: KeyDir)
        ensures
            kd.wf(),
            kd@ == Map::<Seq<char>, KeyInfo>::empty(),
    {
        KeyDir { entries: Vec::new() }
    }

    /// The index of the entry that holds `key`, if one does.
    fn find(&self, key: &String) -> (r: Option<usize>)
        ensures
            match r {
                Some(i) => i < self.entries@.len() && self.entries@[i as int].0@ == key@,
                None => forall|i: int|
                    0 <= i < self.entries@.len() ==> (#[trigger] self.entries@[i]).0@ != key@,
            },
    {
        let n = self.entries.len();
        let mut i: usize = 0;
        while i < n
            invariant
                n == self.entries@.len(),
                i <= n,
                forall|j: int| 0 <= j < i ==> (#[trigger] self.entries@[j]).0@ != key@,
            decreases n - i,
        {
            if self.entries[i].0 == *key {
                return Some(i);
            }
            i = i + 1;
        }
        None
    }

    /// The location of `key`'s current record, if the key is live.
    pub fn get(&self, key: &String) -> (r: Option<&KeyInfo>)
        requires
            self.wf(),
        ensures
            match r {
                Some(info) => self@.contains_key(key@) && *info == self@[key@],
                None => !self@.contains_key(key@),
            },
    {
        proof {
            lemma_kd_map_props(self.entries@);
        }
        match self.find(key) {
            Some(i) => Some(&self.entries[i].1),
            None => None,
        }
    }

    /// Binds `key` to `info`, overwriting any previous binding.
    pub fn insert(&mut self, key: String, info: KeyInfo)
        requires
            old(self).wf(),
        ensures
            final(self).wf(),
            final(self)@ == old(self)@.insert(key@, info),
    {
        match self.find(&key) {
            Some(i) => {
                proof {
                    lemma_kd_map_update(self.entries@, i as int, (key, info));
                }
                self.entries.set(i, (key, info));
                proof {
                    assert forall|a: int, b: int|
                        0 <= a < b < self.entries@.len() implies self.entries@[a].0@
                        != self.entries@[b].0@ by {
                        assert(old(self).entries@[a].0@ != old(self).entries@[b].0@);
                    }
                }
            },
            None => {
                self.entries.push((key, info));
                proof {
                    assert(self.entries@.drop_last() =~= old(self).entries@);
                    assert forall|a: int, b: int|
                        0 <= a < b < self.entries@.len() implies self.entries@[a].0@
                        != self.entries@[b].0@ by {
                        if b < self.entries@.len() - 1 {
                            assert(old(self).entries@[a].0@ != old(self).entries@[b].0@);
                        }
                    }
                }
            },
        }
    }

    /// Unbinds `key`; a no-op when the key is not live.
    pub fn remove(&mut self, key: &String)
        requires
            old(self).wf(),
        ensures
            final(self).wf(),
            final(self)@ == old(self)@.remove(key@),
    {
        proof {
            lemma_kd_map_props(self.entries@);
        }
        match self.find(key) {
            Some(i) => {
                proof {
                    lemma_kd_map_remove(self.entries@, i as int);
                }
                self.entries.remove(i);
            },
            None => {
                proof {
                    assert(!old(self)@.contains_key(key@));
                    assert(old(self)@.remove(key@) =~= old(self)@);
                }
            },
        }
    }
}

} // verus!
