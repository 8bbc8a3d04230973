//! Persistent key/value storage: a mapping from words to words. Absent keys
//! read as the zero word, and storing the zero word removes the key, so a
//! zero value is never held in an entry.

use vstd::prelude::*;
use vstd::pervasive::VecAdditionalExecFns;
use crate::word::Word;

verus! {

/// The map described by an entry list: later entries win, though a
/// well-formed list has no repeated keys.
pub open spec fn entries_map(s: Seq<(Word, Word)>) -> Map<nat, nat>
    decreases s.len(),
{
    if s.len() == 0 {
        Map::empty()
    } else {
        entries_map(s.drop_last()).insert(s.last().0@, s.last().1@)
    }
}

/// The storage of one account. The view is the map from key values to
/// stored values; keys outside the view's domain read as zero.
pub struct Storage {
    entries: Vec<(Word, Word)>,
}

impl View for Storage {
    type V = Map<nat, nat>;

    closed spec fn view(&self) -> Map<nat, nat> {
        entries_map(self.entries@)
    }
}

impl Storage {
    /// Well-formed storage holds each key at most once and never holds the
    /// zero word as a value.
    pub closed spec fn wf(&self) -> bool {
        &&& forall|i: int, j: int|
            0 <= i < j < self.entries@.len() ==> self.entries@[i].0@ != self.entries@[j].0@
        &&& forall|i: int| 0 <= i < self.entries@.len() ==> (#[trigger] self.entries@[i]).1@ != 0
    }

    /// Fresh storage maps nothing.
    pub fn new() -> (r: Storage)
        ensures
            r@ == Map::<nat, nat>::empty(),
            r.wf(),
    {
        Storage { entries: Vec::new() }
    }

    /// Reads the value stored under a key; absent keys read as zero.
    pub fn get(&self, key: &Word) -> (r: Word)
        requires
            self.wf(),
        ensures
            r@ == if self@.contains_key(key@) {
                self@[key@]
            } else {
                0
            },
    {
        let n: usize = self.entries.len();
        let mut i: usize = 0;
        while i < n
            invariant
                n == self.entries@.len(),
                i <= n,
                self.wf(),
                forall|j: int| 0 <= j < i ==> (#[trigger] self.entries@[j]).0@ != key@,
            decreases n - i,
        {
            if self.entries[i].0 == *key {
                proof {
                    crate::word::lemma_view_injective(self.entries@[i as int].0, *key);
                    lemma_entries_map_index(self.entries@, i as int);
                }
                return self.entries[i].1;
            }
            proof {
                crate::word::lemma_view_injective(self.entries@[i as int].0, *key);
            }
            i = i + 1;
        }
        proof {
            lemma_entries_map_absent(self.entries@, key@);
        }
        Word::zero()
    }

    /// Stores a value under a key: the zero word removes the key, any other
    /// value upserts it.
    pub fn set(&mut self, key: &Word, value: &Word)
        requires
            old(self).wf(),
        ensures
            final(self).wf(),
            final(self)@ == if value@ == 0 {
                old(self)@.remove(key@)
            } else {
                old(self)@.insert(key@, value@)
            },
    {
        let n: usize = self.entries.len();
        let mut i: usize = 0;
        while i < n
            invariant
                n == self.entries@.len(),
                i <= n,
                self.wf(),
                self.entries@ == old(self).entries@,
                forall|j: int| 0 <= j < i ==> (#[trigger] self.entries@[j]).0@ != key@,
            decreases n - i,
        {
            if self.entries[i].0 == *key {
                proof {
                    crate::word::lemma_view_injective(self.entries@[i as int].0, *key);
                }
                if value.is_zero() {
                    proof {
                        lemma_entries_map_remove(self.entries@, i as int);
                    }
                    self.entries.remove(i);
                } else {
                    proof {
                        lemma_entries_map_update(self.entries@, i as int, (*key, *value));
                    }
                    self.entries.set(i, (*key, *value));
                }
                return ;
            }
            proof {
                crate::word::lemma_view_injective(self.entries@[i as int].0, *key);
            }
            i = i + 1;
        }
        proof {
            lemma_entries_map_absent(self.entries@, key@);
        }
        if value.is_zero() {
            proof {
                assert(self@.remove(key@) =~= self@);
            }
        } else {
            let ghost pre: Seq<(Word, Word)> = self.entries@;
            self.entries.push((*key, *value));
            proof {
                assert(self.entries@.drop_last() =~= pre);
            }
        }
    }
}

/// A key that no entry holds is outside the described map.
pub proof fn lemma_entries_map_absent(s: Seq<(Word, Word)>, k: nat)
    requires
        forall|i: int| 0 <= i < s.len() ==> (#[trigger] s[i]).0@ != k,
    ensures
        !entries_map(s).contains_key(k),
    decreases s.len(),
{
    if s.len() > 0 {
        lemma_entries_map_absent(s.drop_last(), k);
    }
}

/// With no repeated keys, each entry is in the described map.
pub proof fn lemma_entries_map_index(s: Seq<(Word, Word)>, i: int)
    requires
        0 <= i < s.len(),
        forall|p: int, q: int| 0 <= p < q < s.len() ==> s[p].0@ != s[q].0@,
    ensures
        entries_map(s).contains_key(s[i].0@),
        entries_map(s)[s[i].0@] == s[i].1@,
    decreases s.len(),
{
    if i == s.len() - 1 {
    } else {
        lemma_entries_map_index(s.drop_last(), i);
    }
}

/// Removing an entry removes its key from the described map.
pub proof fn lemma_entries_map_remove(s: Seq<(Word, Word)>, i: int)
    requires
        0 <= i < s.len(),
        forall|p: int, q: int| 0 <= p < q < s.len() ==> s[p].0@ != s[q].0@,
    ensures
        entries_map(s.remove(i)) == entries_map(s).remove(s[i].0@),
    decreases s.len(),
{
    if i == s.len() - 1 {
        assert(s.remove(i) =~= s.drop_last());
        lemma_entries_map_absent(s.drop_last(), s[i].0@);
        assert(entries_map(s.drop_last()).insert(s[i].0@, s[i].1@).remove(s[i].0@) =~= entries_map(
            s.drop_last(),
        ));
    } else {
        lemma_entries_map_remove(s.drop_last(), i);
        assert(s.remove(i).drop_last() =~= s.drop_last().remove(i));
        assert(s.remove(i).last() == s.last());
        assert(entries_map(s.drop_last()).remove(s[i].0@).insert(s.last().0@, s.last().1@)
            =~= entries_map(s.drop_last()).insert(s.last().0@, s.last().1@).remove(s[i].0@));
    }
}

/// Updating the entry that holds a key overwrites that key in the
/// described map.
pub proof fn lemma_entries_map_update(s: Seq<(Word, Word)>, i: int, e: (Word, Word))
    requires
        0 <= i < s.len(),
        s[i].0@ == e.0@,
        forall|p: int, q: int| 0 <= p < q < s.len() ==> s[p].0@ != s[q].0@,
    ensures
        entries_map(s.update(i, e)) == entries_map(s).insert(e.0@, e.1@),
    decreases s.len(),
{
    if i == s.len() - 1 {
        assert(s.update(i, e).drop_last() =~= s.drop_last());
        assert(s.update(i, e).last() == e);
        assert(entries_map(s.drop_last()).insert(e.0@, e.1@) =~= entries_map(s.drop_last()).insert(
            s[i].0@,
            s[i].1@,
        ).insert(e.0@, e.1@));
    } else {
        lemma_entries_map_update(s.drop_last(), i, e);
        assert(s.update(i, e).drop_last() =~= s.drop_last().update(i, e));
        assert(s.update(i, e).last() == s.last());
        assert(entries_map(s.drop_last()).insert(e.0@, e.1@).insert(s.last().0@, s.last().1@)
            =~= entries_map(s.drop_last()).insert(s.last().0@, s.last().1@).insert(e.0@, e.1@));
    }
}

} // verus!
