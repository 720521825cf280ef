//! The table that pairs each local file with its remote counterpart.

use vstd::prelude::*;

verus! {

/// A local path that is owned.
pub type LocalPathBuf = String;

/// A remote path that is owned.
pub type RemotePathBuf = String;

/// Whether no local path occurs twice among the entries.
pub open spec fn distinct_locals(entries: Seq<(String, String)>) -> bool {
    forall|i: int, j: int|
        0 <= i < j < entries.len() ==> (#[trigger] entries[i]).0@ != (#[trigger] entries[j]).0@
}

/// Whether some entry has the given local path.
pub open spec fn has_local(entries: Seq<(String, String)>, local: Seq<char>) -> bool {
    exists|i: int| 0 <= i < entries.len() && (#[trigger] entries[i]).0@ == local
}

/// The place of the entry with the given local path.
pub open spec fn place_of(entries: Seq<(String, String)>, local: Seq<char>) -> int {
    choose|i: int| 0 <= i < entries.len() && (#[trigger] entries[i]).0@ == local
}

/// The map that the entries stand for.
pub open spec fn map_of(entries: Seq<(String, String)>) -> Map<Seq<char>, Seq<char>> {
    Map::new(
        |local: Seq<char>| has_local(entries, local),
        |local: Seq<char>| entries[place_of(entries, local)].1@,
    )
}

/// An entry of a table without repeated local paths is what the map holds.
pub proof fn lemma_entry_in_map(entries: Seq<(String, String)>, i: int)
    requires
        distinct_locals(entries),
        0 <= i < entries.len(),
    ensures
        map_of(entries).contains_key(entries[i].0@),
        map_of(entries)[entries[i].0@] == entries[i].1@,
{
    let local = entries[i].0@;
    assert(has_local(entries, local));
    let p = place_of(entries, local);
    assert(p == i) by {
        if p < i {
            assert(entries[p].0@ != entries[i].0@);
        } else if i < p {
            assert(entries[i].0@ != entries[p].0@);
        }
    }
}

/// A map that holds every entry, and no key but their local paths, is the
/// map that the entries stand for.
pub proof fn lemma_map_of_is(entries: Seq<(String, String)>, m: Map<Seq<char>, Seq<char>>)
    requires
        forall|i: int|
            0 <= i < entries.len() ==> m.contains_key((#[trigger] entries[i]).0@) && m[entries[i].0@]
                == entries[i].1@,
        forall|local: Seq<char>| #[trigger] m.contains_key(local) ==> has_local(entries, local),
    ensures
        map_of(entries) == m,
{
    assert forall|local: Seq<char>| #[trigger]
        map_of(entries).contains_key(local) implies m.contains_key(local) && m[local] == map_of(
        entries,
    )[local] by {
        let p = place_of(entries, local);
        assert(entries[p].0@ == local);
    }
    assert(map_of(entries) =~= m);
}

/// A table without repeated local paths stands for a finite map with one key
/// for each entry.
pub proof fn lemma_map_of_len(entries: Seq<(String, String)>)
    requires
        distinct_locals(entries),
    ensures
        map_of(entries).dom().finite(),
        map_of(entries).dom().len() == entries.len(),
    decreases entries.len(),
{
    if entries.len() == 0 {
        assert(map_of(entries).dom() =~= Set::<Seq<char>>::empty());
    } else {
        let front = entries.drop_last();
        let last = entries.last();
        assert(distinct_locals(front)) by {
            assert forall|i: int, j: int| 0 <= i < j < front.len() implies (#[trigger] front[i]).0@
                != (#[trigger] front[j]).0@ by {
                assert(front[i] == entries[i]);
                assert(front[j] == entries[j]);
            }
        }
        lemma_map_of_len(front);
        assert(!map_of(front).dom().contains(last.0@)) by {
            if has_local(front, last.0@) {
                let p = place_of(front, last.0@);
                assert(front[p] == entries[p]);
                assert(entries[p].0@ != entries[entries.len() - 1].0@);
            }
        }
        assert(map_of(entries).dom() =~= map_of(front).dom().insert(last.0@)) by {
            assert forall|local: Seq<char>| has_local(entries, local) implies has_local(
                front,
                local,
            ) || local == last.0@ by {
                let p = place_of(entries, local);
                if p < front.len() {
                    assert(front[p] == entries[p]);
                }
            }
            assert forall|local: Seq<char>| has_local(front, local) implies has_local(
                entries,
                local,
            ) by {
                let p = place_of(front, local);
                assert(entries[p] == front[p]);
            }
            assert(has_local(entries, last.0@)) by {
                assert(entries[entries.len() - 1].0@ == last.0@);
            }
        }
    }
}

/// The pairs of local and remote path: no local path occurs twice, and the
/// pairs keep the order in which their local paths first came.
#[derive(Debug)]
pub struct PathMap {
    entries: Vec<(String, String)>,
}

impl View for PathMap {
    type V = Map<Seq<char>, Seq<char>>;

    closed spec fn view(&self) -> Map<Seq<char>, Seq<char>> {
        map_of(self.entries@)
    }
}

/// The pairs of texts that the entries hold, in order.
pub open spec fn pair_views(entries: Seq<(String, String)>) -> Seq<(Seq<char>, Seq<char>)> {
    Seq::new(entries.len(), |i: int| (entries[i].0@, entries[i].1@))
}

impl PathMap {
    /// The pairs of the table, in the order in which their local paths first
    /// came.
    pub closed spec fn pairs(&self) -> Seq<(Seq<char>, Seq<char>)> {
        pair_views(self.entries@)
    }

    /// The pairs of a table are what its map holds, each local path once.
    pub proof fn lemma_pairs(&self)
        requires
            self.wf(),
        ensures
            forall|i: int|
                0 <= i < self.pairs().len() ==> self@.contains_key((#[trigger] self.pairs()[i]).0)
                    && self@[self.pairs()[i].0] == self.pairs()[i].1,
            forall|i: int, j: int|
                0 <= i < j < self.pairs().len() ==> (#[trigger] self.pairs()[i]).0 != (
                #[trigger] self.pairs()[j]).0,
            forall|local: Seq<char>| #[trigger]
                self@.contains_key(local) ==> exists|i: int|
                    0 <= i < self.pairs().len() && (#[trigger] self.pairs()[i]).0 == local,
    {
        let entries = self.entries@;
        assert forall|i: int| 0 <= i < self.pairs().len() implies self@.contains_key(
            (#[trigger] self.pairs()[i]).0,
        ) && self@[self.pairs()[i].0] == self.pairs()[i].1 by {
            lemma_entry_in_map(entries, i);
        }
        assert forall|i: int, j: int| 0 <= i < j < self.pairs().len() implies (
        #[trigger] self.pairs()[i]).0 != (#[trigger] self.pairs()[j]).0 by {
            assert(entries[i].0@ != entries[j].0@);
        }
        assert forall|local: Seq<char>| #[trigger] self@.contains_key(local) implies exists|i: int|
            0 <= i < self.pairs().len() && (#[trigger] self.pairs()[i]).0 == local by {
            let p = place_of(entries, local);
            assert(self.pairs()[p].0 == local);
        }
    }

    /// What every table keeps: no local path occurs twice.
    pub closed spec fn wf(&self) -> bool {
        distinct_locals(self.entries@)
    }

    /// The empty table.
    pub fn new() -> (m: PathMap)
        ensures
            m.wf(),
            m@ == Map::<Seq<char>, Seq<char>>::empty(),
    {
        let m = PathMap { entries: Vec::new() };
        assert(m@ =~= Map::<Seq<char>, Seq<char>>::empty());
        m
    }

    /// The place of the entry for a local path.
    fn find(&self, local: &str) -> (r: Option<usize>)
        ensures
            match r {
                Some(i) => i < self.entries@.len() && self.entries@[i as int].0@ == local@,
                None => !has_local(self.entries@, local@),
            },
    {
        let wanted = local.to_owned();
        let mut i: usize = 0;
        while i < self.entries.len()
            invariant
                i <= self.entries.len(),
                wanted@ == local@,
                forall|j: int| 0 <= j < i ==> (#[trigger] self.entries@[j]).0@ != local@,
            decreases self.entries.len() - i,
        {
            if self.entries[i].0 == wanted {
                return Some(i);
            }
            i = i + 1;
        }
        None
    }

    /// Whether the table has an entry for a local path.
    pub fn contains_key(&self, local: &str) -> (r: bool)
        ensures
            r == self@.contains_key(local@),
    {
        self.find(local).is_some()
    }

    /// The remote path that is paired with a local path.
    pub fn get(&self, local: &str) -> (r: Option<&String>)
        requires
            self.wf(),
        ensures
            match r {
                Some(remote) => self@.contains_key(local@) && remote@ == self@[local@],
                None => !self@.contains_key(local@),
            },
    {
        match self.find(local) {
            Some(i) => {
                proof {
                    lemma_entry_in_map(self.entries@, i as int);
                }
                Some(&self.entries[i].1)
            },
            None => None,
        }
    }

    /// The number of entries.
    pub fn len(&self) -> (n: usize)
        requires
            self.wf(),
        ensures
            self@.dom().finite(),
            n == self@.dom().len(),
    {
        proof {
            lemma_map_of_len(self.entries@);
        }
        self.entries.len()
    }

    /// Whether the table has no entry.
    pub fn is_empty(&self) -> (r: bool)
        requires
            self.wf(),
        ensures
            r == (self@ == Map::<Seq<char>, Seq<char>>::empty()),
    {
        proof {
            lemma_map_of_len(self.entries@);
            if self.entries@.len() == 0 {
                assert(self@ =~= Map::<Seq<char>, Seq<char>>::empty());
            } else {
                lemma_entry_in_map(self.entries@, 0);
            }
        }
        self.entries.len() == 0
    }

    /// The entries, in the order in which their local paths first came.
    pub fn entries(&self) -> (out: &Vec<(String, String)>)
        requires
            self.wf(),
        ensures
            distinct_locals(out@),
            map_of(out@) == self@,
            pair_views(out@) == self.pairs(),
    {
        &self.entries
    }

    /// Pairs a local path with a remote path. An earlier entry for the same
    /// local path is replaced, in its place.
    pub fn insert(&mut self, local: String, remote: String)
        requires
            old(self).wf(),
        ensures
            final(self).wf(),
            final(self)@ == old(self)@.insert(local@, remote@),
    {
        let ghost before = self.entries@;
        let ghost target = self@.insert(local@, remote@);
        let ghost at: int;
        match self.find(local.as_str()) {
            Some(i) => {
                proof {
                    at = i as int;
                }
                self.entries.set(i, (local, remote));
            },
            None => {
                proof {
                    at = before.len() as int;
                }
                self.entries.push((local, remote));
            },
        }
        proof {
            let after = self.entries@;
            assert(after[at].0@ == local@);
            assert(distinct_locals(after)) by {
                assert forall|a: int, b: int| 0 <= a < b < after.len() implies (#[trigger] after[a]).0@
                    != (#[trigger] after[b]).0@ by {
                    if a < before.len() && b < before.len() {
                        assert(before[a].0@ != before[b].0@);
                    }
                }
            }
            assert forall|j: int| 0 <= j < after.len() implies target.contains_key(
                (#[trigger] after[j]).0@,
            ) && target[after[j].0@] == after[j].1@ by {
                if after[j].0@ != local@ {
                    lemma_entry_in_map(before, j);
                }
            }
            assert forall|k: Seq<char>| #[trigger] target.contains_key(k) implies has_local(
                after,
                k,
            ) by {
                if k == local@ {
                    assert(after[at].0@ == k);
                } else {
                    let p = place_of(before, k);
                    assert(after[p].0@ == k);
                }
            }
            lemma_map_of_is(after, target);
        }
    }

    /// Takes the entry for a local path out of the table and gives its remote
    /// path, if there was one.
    pub fn remove(&mut self, local: &str) -> (r: Option<String>)
        requires
            old(self).wf(),
        ensures
            final(self).wf(),
            final(self)@ == old(self)@.remove(local@),
            match r {
                Some(remote) => old(self)@.contains_key(local@) && remote@ == old(self)@[local@],
                None => !old(self)@.contains_key(local@),
            },
    {
        let ghost before = self.entries@;
        let ghost target = self@.remove(local@);
        match self.find(local) {
            Some(i) => {
                let gone = self.entries.remove(i);
                proof {
                    let after = self.entries@;
                    lemma_entry_in_map(before, i as int);
                    assert forall|a: int, b: int| 0 <= a < b < after.len() implies (
                    #[trigger] after[a]).0@ != (#[trigger] after[b]).0@ by {
                        let a0 = if a < i { a } else { a + 1 };
                        let b0 = if b < i { b } else { b + 1 };
                        assert(after[a] == before[a0]);
                        assert(after[b] == before[b0]);
                    }
                    assert forall|j: int| 0 <= j < after.len() implies target.contains_key(
                        (#[trigger] after[j]).0@,
                    ) && target[after[j].0@] == after[j].1@ by {
                        let j0 = if j < i { j } else { j + 1 };
                        assert(after[j] == before[j0]);
                        lemma_entry_in_map(before, j0);
                        if j0 < i {
                            assert(before[j0].0@ != before[i as int].0@);
                        } else {
                            assert(before[i as int].0@ != before[j0].0@);
                        }
                    }
                    assert forall|k: Seq<char>| #[trigger] target.contains_key(k) implies has_local(
                        after,
                        k,
                    ) by {
                        let p = place_of(before, k);
                        let q = if p < i { p } else { p - 1 };
                        assert(after[q] == before[p]);
                    }
                    lemma_map_of_is(after, target);
                }
                Some(gone.1)
            },
            None => {
                assert(target =~= self@);
                None
            },
        }
    }

    /// Whether two tables pair the same local paths with the same remote
    /// paths, in whatever order.
    pub fn same_as(&self, other: &PathMap) -> (r: bool)
        requires
            self.wf(),
            other.wf(),
        ensures
            r == (self@ == other@),
    {
        let mut i: usize = 0;
        while i < self.entries.len()
            invariant
                i <= self.entries.len(),
                other.wf(),
                distinct_locals(self.entries@),
                forall|j: int|
                    0 <= j < i ==> other@.contains_key((#[trigger] self.entries@[j]).0@)
                        && other@[self.entries@[j].0@] == self.entries@[j].1@,
            decreases self.entries.len() - i,
        {
            proof {
                lemma_entry_in_map(self.entries@, i as int);
            }
            match other.get(self.entries[i].0.as_str()) {
                Some(remote) => {
                    if !(*remote == self.entries[i].1) {
                        return false;
                    }
                },
                None => {
                    return false;
                },
            }
            i = i + 1;
        }
        let mut k: usize = 0;
        while k < other.entries.len()
            invariant
                k <= other.entries.len(),
                self.wf(),
                distinct_locals(other.entries@),
                forall|j: int|
                    0 <= j < k ==> self@.contains_key((#[trigger] other.entries@[j]).0@),
            decreases other.entries.len() - k,
        {
            proof {
                lemma_entry_in_map(other.entries@, k as int);
            }
            if !self.contains_key(other.entries[k].0.as_str()) {
                return false;
            }
            k = k + 1;
        }
        proof {
            assert forall|local: Seq<char>| #[trigger]
                other@.contains_key(local) implies has_local(self.entries@, local) by {
                let p = place_of(other.entries@, local);
                assert(self@.contains_key(other.entries@[p].0@));
            }
            lemma_map_of_is(self.entries@, other@);
        }
        true
    }
}

} // verus!
