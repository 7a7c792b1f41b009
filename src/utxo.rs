use vstd::prelude::*;

use crate::transaction::TransactionOutput;

verus! {

/// One unspent output: the key under which it is found, whether a pending transaction of the
/// mempool has reserved it, and the output itself.
#[derive(Clone, Copy, Debug)]
pub struct UtxoEntry {
    pub key: crate::hash::Hash,
    pub marked: bool,
    pub output: TransactionOutput,
}

/// The map that a list of entries stands for; a later entry for a key overrides an earlier one.
pub open spec fn entries_map(s: Seq<UtxoEntry>) -> Map<crate::hash::Hash, (bool, TransactionOutput)>
    decreases s.len(),
{
    if s.len() == 0 {
        Map::empty()
    } else {
        entries_map(s.drop_last()).insert(s.last().key, (s.last().marked, s.last().output))
    }
}

/// The entries without those under key `k`.
pub open spec fn without_key(s: Seq<UtxoEntry>, k: crate::hash::Hash) -> Seq<UtxoEntry>
    decreases s.len(),
{
    if s.len() == 0 {
        s
    } else if s.last().key == k {
        without_key(s.drop_last(), k)
    } else {
        without_key(s.drop_last(), k).push(s.last())
    }
}

proof fn lemma_without_key(s: Seq<UtxoEntry>, k: crate::hash::Hash)
    ensures
        entries_map(without_key(s, k)) == entries_map(s).remove(k),
    decreases s.len(),
{
    if s.len() == 0 {
        assert(entries_map(s).remove(k) =~= Map::empty());
    } else {
        lemma_without_key(s.drop_last(), k);
        if s.last().key == k {
            assert(entries_map(s).remove(k) =~= entries_map(s.drop_last()).remove(k));
        } else {
            let w = without_key(s.drop_last(), k);
            assert(w.push(s.last()).drop_last() =~= w);
            assert(entries_map(s).remove(k) =~= entries_map(s.drop_last()).remove(k).insert(
                s.last().key,
                (s.last().marked, s.last().output),
            ));
        }
    }
}

proof fn lemma_found_last(s: Seq<UtxoEntry>, k: crate::hash::Hash, j: int)
    requires
        0 <= j < s.len(),
        s[j].key == k,
        forall|m: int| j < m < s.len() ==> s[m].key != k,
    ensures
        entries_map(s).contains_key(k),
        entries_map(s)[k] == (s[j].marked, s[j].output),
    decreases s.len(),
{
    if j < s.len() - 1 {
        lemma_found_last(s.drop_last(), k, j);
    }
}

proof fn lemma_absent(s: Seq<UtxoEntry>, k: crate::hash::Hash)
    requires
        forall|m: int| 0 <= m < s.len() ==> s[m].key != k,
    ensures
        !entries_map(s).contains_key(k),
    decreases s.len(),
{
    if s.len() > 0 {
        lemma_absent(s.drop_last(), k);
    }
}

/// The set of unspent outputs, keyed by hash.
pub struct UtxoSet {
    entries: Vec<UtxoEntry>,
}

impl View for UtxoSet {
    type V = Map<crate::hash::Hash, (bool, TransactionOutput)>;

    closed spec fn view(&self) -> Self::V {
        entries_map(self.entries@)
    }
}

impl UtxoSet {
    pub fn new() -> (r: UtxoSet)
        ensures
            r@ == Map::<crate::hash::Hash, (bool, TransactionOutput)>::empty(),
    {
        UtxoSet { entries: Vec::new() }
    }

    pub fn get(&self, k: &crate::hash::Hash) -> (r: Option<(bool, TransactionOutput)>)
        ensures
            r == (if self@.contains_key(*k) {
                Some(self@[*k])
            } else {
                None::<(bool, TransactionOutput)>
            }),
    {
        let mut j: usize = self.entries.len();
        while j > 0
            invariant
                j <= self.entries@.len(),
                forall|m: int| j <= m < self.entries@.len() ==> self.entries@[m].key != *k,
            decreases j,
        {
            let e = self.entries[j - 1];
            if e.key == *k {
                proof {
                    lemma_found_last(self.entries@, *k, j - 1);
                }
                return Some((e.marked, e.output));
            }
            j = j - 1;
        }
        proof {
            lemma_absent(self.entries@, *k);
        }
        None
    }

    pub fn contains_key(&self, k: &crate::hash::Hash) -> (r: bool)
        ensures
            r == self@.contains_key(*k),
    {
        self.get(k).is_some()
    }

    pub fn remove(&mut self, k: &crate::hash::Hash)
        ensures
            final(self)@ == old(self)@.remove(*k),
    {
        let mut kept: Vec<UtxoEntry> = Vec::new();
        let mut i: usize = 0;
        while i < self.entries.len()
            invariant
                i <= self.entries@.len(),
                kept@ == without_key(self.entries@.take(i as int), *k),
            decreases self.entries@.len() - i,
        {
            let e = self.entries[i];
            proof {
                assert(self.entries@.take(i + 1).drop_last() =~= self.entries@.take(i as int));
            }
            if e.key != *k {
                kept.push(e);
            }
            i = i + 1;
        }
        proof {
            assert(self.entries@.take(i as int) =~= self.entries@);
            lemma_without_key(self.entries@, *k);
        }
        self.entries = kept;
    }

    pub fn insert(&mut self, k: crate::hash::Hash, marked: bool, output: TransactionOutput)
        ensures
            final(self)@ == old(self)@.insert(k, (marked, output)),
    {
        self.remove(&k);
        let ghost before = self.entries@;
        self.entries.push(UtxoEntry { key: k, marked, output });
        proof {
            assert(self.entries@.drop_last() =~= before);
            assert(old(self)@.remove(k).insert(k, (marked, output)) =~= old(self)@.insert(
                k,
                (marked, output),
            ));
        }
    }

    /// Sets the mark of the output under `k`, where there is one.
    pub fn set_marked(&mut self, k: &crate::hash::Hash, marked: bool)
        ensures
            final(self)@ == (if old(self)@.contains_key(*k) {
                old(self)@.insert(*k, (marked, old(self)@[*k].1))
            } else {
                old(self)@
            }),
    {
        match self.get(k) {
            Some((_, output)) => {
                self.insert(*k, marked, output);
            },
            None => {},
        }
    }

    /// The entries; where two share a key, the later one counts.
    pub fn entries(&self) -> (r: &Vec<UtxoEntry>)
        ensures
            entries_map(r@) == self@,
    {
        &self.entries
    }
}

} // verus!
