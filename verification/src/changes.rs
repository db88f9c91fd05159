//! The changeset: a mapping from path to operation, one entry per path.

use vstd::prelude::*;

use crate::operation::Operation;
use crate::operation::OperationModel;
use crate::paths::str_eq;

verus! {

/// The mapping a list of entries denotes; a later entry for the same path
/// replaces an earlier one.
pub open spec fn entries_map(s: Seq<(String, Operation)>) -> Map<Seq<char>, OperationModel>
    decreases s.len(),
{
    if s.len() == 0 {
        Map::empty()
    } else {
        entries_map(s.subrange(0, s.len() - 1)).insert(s[s.len() - 1].0@, s[s.len() - 1].1@)
    }
}

/// The result of one diff pass: for every changed path, the operation that
/// was observed there.
pub struct Changes {
    entries: Vec<(String, Operation)>,
}

impl View for Changes {
    type V = Map<Seq<char>, OperationModel>;

    closed spec fn view(&self) -> Map<Seq<char>, OperationModel> {
        entries_map(self.entries@)
    }
}

/// Every listed path is in the denoted mapping, and nothing else is.
pub proof fn lemma_entries_map_dom(s: Seq<(String, Operation)>)
    ensures
        forall|i: int| 0 <= i < s.len() ==> entries_map(s).dom().contains(#[trigger] s[i].0@),
        forall|k: Seq<char>|
            entries_map(s).dom().contains(k) ==> exists|i: int|
                0 <= i < s.len() && (#[trigger] s[i].0@) == k,
    decreases s.len(),
{
    if s.len() > 0 {
        let pre = s.subrange(0, s.len() - 1);
        lemma_entries_map_dom(pre);
        assert(forall|i: int| 0 <= i < pre.len() ==> pre[i] == #[trigger] s[i]);
        assert forall|i: int|
            0 <= i < s.len() implies entries_map(s).dom().contains(#[trigger] s[i].0@) by {
            if i < s.len() - 1 {
                assert(entries_map(pre).dom().contains(pre[i].0@));
            }
        }
        assert forall|k: Seq<char>| entries_map(s).dom().contains(k) implies exists|i: int|
            0 <= i < s.len() && (#[trigger] s[i].0@) == k by {
            if k == s[s.len() - 1].0@ {
                assert(s[s.len() - 1].0@ == k);
            } else {
                assert(entries_map(pre).dom().contains(k));
                let i = choose|i: int| 0 <= i < pre.len() && (#[trigger] pre[i].0@) == k;
                assert(s[i].0@ == k);
            }
        }
    }
}

/// With no path listed twice, each entry keeps its own operation.
pub proof fn lemma_entries_map_vals(s: Seq<(String, Operation)>)
    requires
        forall|i: int, j: int| 0 <= i < j < s.len() ==> s[i].0@ != s[j].0@,
    ensures
        forall|i: int|
            0 <= i < s.len() ==> entries_map(s)[#[trigger] s[i].0@] == s[i].1@,
    decreases s.len(),
{
    if s.len() > 0 {
        let pre = s.subrange(0, s.len() - 1);
        assert(forall|i: int| 0 <= i < pre.len() ==> pre[i] == #[trigger] s[i]);
        lemma_entries_map_vals(pre);
        assert forall|i: int|
            0 <= i < s.len() implies entries_map(s)[#[trigger] s[i].0@] == s[i].1@ by {
            if i < s.len() - 1 {
                assert(entries_map(pre)[pre[i].0@] == pre[i].1@);
                assert(s[i].0@ != s[s.len() - 1].0@);
            }
        }
    }
}

impl Changes {
    /// No path listed twice.
    pub closed spec fn wf(self) -> bool {
        forall|i: int, j: int|
            0 <= i < j < self.entries@.len() ==> self.entries@[i].0@ != self.entries@[j].0@
    }

    /// How many paths the changeset holds.
    pub closed spec fn num_entries(self) -> nat {
        self.entries@.len()
    }

    /// An empty changeset.
    pub fn new() -> (r: Changes)
        ensures
            r@ == Map::<Seq<char>, OperationModel>::empty(),
            r.wf(),
            r.num_entries() == 0,
    {
        Changes { entries: Vec::new() }
    }

    /// Records `op` at `path`, replacing what an earlier pass over the
    /// same path recorded.
    pub fn insert(&mut self, path: String, op: Operation)
        requires
            old(self).wf(),
        ensures
            final(self).wf(),
            final(self)@ == old(self)@.insert(path@, op@),
    {
        let ghost s0 = self.entries@;
        let mut i: usize = 0;
        while i < self.entries.len()
            invariant
                self.entries@ == s0,
                s0 == old(self).entries@,
                0 <= i <= s0.len(),
                forall|m: int| 0 <= m < i ==> #[trigger] s0[m].0@ != path@,
                forall|a: int, b: int| 0 <= a < b < s0.len() ==> s0[a].0@ != s0[b].0@,
            decreases s0.len() - i,
        {
            if str_eq(self.entries[i].0.as_str(), path.as_str()) {
                let _ = self.entries.remove(i);
                self.entries.insert(i, (path, op));
                proof {
                    let s1 = self.entries@;
                    assert(s1 =~= s0.update(i as int, s1[i as int]));
                    assert(s1[i as int].0@ == path@ && s1[i as int].1@ == op@);
                    lemma_entries_map_update(s0, i as int, s1[i as int]);
                    assert forall|a: int, b: int|
                        0 <= a < b < s1.len() implies s1[a].0@ != s1[b].0@ by {
                        if a != i && b != i {
                            assert(s1[a] == s0[a] && s1[b] == s0[b]);
                        } else if a == i {
                            assert(s1[b] == s0[b]);
                            assert(s0[a].0@ != s0[b].0@);
                        } else {
                            assert(s1[a] == s0[a]);
                            assert(s0[a].0@ != s0[b].0@);
                        }
                    }
                }
                return ;
            }
            i = i + 1;
        }
        self.entries.push((path, op));
        proof {
            let s1 = self.entries@;
            assert(s1.subrange(0, s1.len() - 1) =~= s0);
            assert(entries_map(s1) == entries_map(s0).insert(path@, op@));
            assert forall|a: int, b: int|
                0 <= a < b < s1.len() implies s1[a].0@ != s1[b].0@ by {
                if b == s1.len() - 1 {
                    assert(s1[a] == s0[a]);
                    assert(s0[a].0@ != path@);
                } else {
                    assert(s1[a] == s0[a] && s1[b] == s0[b]);
                }
            }
        }
    }

    /// The operation recorded at `path`, if any.
    pub fn get(&self, path: &str) -> (r: Option<&Operation>)
        requires
            self.wf(),
        ensures
            match r {
                Some(op) => self@.dom().contains(path@) && self@[path@] == op@,
                None => !self@.dom().contains(path@),
            },
    {
        proof {
            lemma_entries_map_dom(self.entries@);
            lemma_entries_map_vals(self.entries@);
        }
        let ghost s0 = self.entries@;
        let mut i: usize = 0;
        while i < self.entries.len()
            invariant
                self.entries@ == s0,
                0 <= i <= s0.len(),
                forall|m: int| 0 <= m < i ==> #[trigger] s0[m].0@ != path@,
                forall|m: int| 0 <= m < s0.len() ==> entries_map(s0).dom().contains(
                    #[trigger] s0[m].0@,
                ),
                forall|k: Seq<char>|
                    entries_map(s0).dom().contains(k) ==> exists|m: int|
                        0 <= m < s0.len() && (#[trigger] s0[m].0@) == k,
                forall|m: int|
                    0 <= m < s0.len() ==> entries_map(s0)[#[trigger] s0[m].0@] == s0[m].1@,
            decreases s0.len() - i,
        {
            if str_eq(self.entries[i].0.as_str(), path) {
                return Some(&self.entries[i].1);
            }
            i = i + 1;
        }
        proof {
            if entries_map(s0).dom().contains(path@) {
                let m = choose|m: int| 0 <= m < s0.len() && (#[trigger] s0[m].0@) == path@;
                assert(false);
            }
        }
        None
    }

    /// How many paths hold an operation.
    pub fn len(&self) -> (n: usize)
        ensures
            n == self.num_entries(),
    {
        self.entries.len()
    }

    /// The entry at one position of the changeset's backing list.
    pub fn entry_at(&self, i: usize) -> (r: &(String, Operation))
        requires
            self.wf(),
            i < self.num_entries(),
        ensures
            self@.dom().contains(r.0@),
            self@[r.0@] == r.1@,
    {
        proof {
            lemma_entries_map_dom(self.entries@);
            lemma_entries_map_vals(self.entries@);
        }
        &self.entries[i]
    }
}

/// Replacing the entry of a listed path denotes inserting over it.
proof fn lemma_entries_map_update(s: Seq<(String, Operation)>, j: int, pair: (String, Operation))
    requires
        forall|i: int, m: int| 0 <= i < m < s.len() ==> s[i].0@ != s[m].0@,
        0 <= j < s.len(),
        s[j].0@ == pair.0@,
    ensures
        entries_map(s.update(j, pair)) == entries_map(s).insert(pair.0@, pair.1@),
    decreases s.len(),
{
    let s1 = s.update(j, pair);
    let pre = s.subrange(0, s.len() - 1);
    assert(forall|i: int| 0 <= i < pre.len() ==> pre[i] == #[trigger] s[i]);
    if j == s.len() - 1 {
        assert(s1.subrange(0, s1.len() - 1) =~= pre);
        assert(s1[s1.len() - 1] == pair);
        assert(entries_map(s1) == entries_map(pre).insert(pair.0@, pair.1@));
        assert(entries_map(s) == entries_map(pre).insert(s[j].0@, s[j].1@));
        assert(entries_map(s).insert(pair.0@, pair.1@) =~= entries_map(pre).insert(
            pair.0@,
            pair.1@,
        ));
    } else {
        let pre1 = s1.subrange(0, s1.len() - 1);
        assert(pre1 =~= pre.update(j, pair));
        lemma_entries_map_update(pre, j, pair);
        assert(entries_map(pre1) == entries_map(pre).insert(pair.0@, pair.1@));
        let last = s[s.len() - 1];
        assert(s1[s1.len() - 1] == last);
        assert(entries_map(s1) == entries_map(pre).insert(pair.0@, pair.1@).insert(
            last.0@,
            last.1@,
        ));
        assert(s[j].0@ != last.0@);
        assert(entries_map(pre).insert(pair.0@, pair.1@).insert(last.0@, last.1@)
            =~= entries_map(pre).insert(last.0@, last.1@).insert(pair.0@, pair.1@));
        assert(entries_map(s) == entries_map(pre).insert(last.0@, last.1@));
    }
}

} // verus!
