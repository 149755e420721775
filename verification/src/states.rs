//! The identity allocator: a persistent map from path to node identity,
//! together with the monotone identity counter.
//!
//! A path is the ordered sequence of sibling keys leading from the root to a
//! node within one tree snapshot.  Identities start at 1; 0 is the reserved
//! "no parent" sentinel of the root.

use vstd::prelude::*;

verus! {

/// A broken invariant between the diff engine and the patch compiler.
/// These conditions are contract violations, never expected at runtime;
/// each carries the offending path.
#[derive(Debug, Clone, PartialEq)]
pub enum DiffError {
    DuplicatePath(Vec<u64>),
    LookupFailure(Vec<u64>),
    UnsupportedTransition(Vec<u64>),
}

/// Ghost counterpart of `DiffError`.
pub enum ErrV {
    DuplicatePath(Seq<u64>),
    LookupFailure(Seq<u64>),
    UnsupportedTransition(Seq<u64>),
}

impl View for DiffError {
    type V = ErrV;

    open spec fn view(&self) -> ErrV {
        match self {
            DiffError::DuplicatePath(p) => ErrV::DuplicatePath(p@),
            DiffError::LookupFailure(p) => ErrV::LookupFailure(p@),
            DiffError::UnsupportedTransition(p) => ErrV::UnsupportedTransition(p@),
        }
    }
}

/// Compares two paths by value.
pub fn path_eq(a: &Vec<u64>, b: &Vec<u64>) -> (r: bool)
    ensures
        r == (a@ == b@),
{
    let n = a.len();
    if n != b.len() {
        return false;
    }
    let mut i: usize = 0;
    while i < n
        invariant
            n == a.len(),
            n == b.len(),
            0 <= i <= n,
            forall|j: int| 0 <= j < i ==> a@[j] == b@[j],
        decreases n - i,
    {
        if a[i] != b[i] {
            return false;
        }
        i += 1;
    }
    proof {
        assert(a@ =~= b@);
    }
    true
}

/// Returns a path equal to the given one.
pub fn copy_path(p: &Vec<u64>) -> (r: Vec<u64>)
    ensures
        r@ == p@,
{
    let n = p.len();
    let mut out: Vec<u64> = Vec::new();
    let mut i: usize = 0;
    while i < n
        invariant
            n == p.len(),
            0 <= i <= n,
            out@.len() == i,
            forall|j: int| 0 <= j < i ==> out@[j] == p@[j],
        decreases n - i,
    {
        out.push(p[i]);
        i += 1;
    }
    proof {
        assert(out@ =~= p@);
    }
    out
}

/// Returns the path one segment shorter than `p`.
pub fn path_parent(p: &Vec<u64>) -> (r: Vec<u64>)
    requires
        p@.len() > 0,
    ensures
        r@ == p@.drop_last(),
{
    let mut out = copy_path(p);
    out.pop();
    proof {
        assert(out@ =~= p@.drop_last());
    }
    out
}

/// Returns the path of the `key`-keyed child of the node at `p`.
pub fn path_child(p: &Vec<u64>, key: u64) -> (r: Vec<u64>)
    ensures
        r@ == p@.push(key),
{
    let mut out = copy_path(p);
    out.push(key);
    out
}

/// The map an entry list stands for.
pub open spec fn entries_map(s: Seq<(Vec<u64>, u64)>) -> Map<Seq<u64>, u64>
    decreases s,
{
    if s.len() == 0 {
        Map::empty()
    } else {
        entries_map(s.drop_last()).insert(s.last().0@, s.last().1)
    }
}

/// Entry keys are pairwise distinct.
pub open spec fn entries_unique(s: Seq<(Vec<u64>, u64)>) -> bool {
    forall|i: int, j: int| 0 <= i < j < s.len() ==> s[i].0@ != s[j].0@
}

/// A key held by no entry is absent from the map.
pub proof fn lemma_entries_absent(s: Seq<(Vec<u64>, u64)>, k: Seq<u64>)
    requires
        forall|i: int| 0 <= i < s.len() ==> s[i].0@ != k,
    ensures
        !entries_map(s).contains_key(k),
    decreases s,
{
    if s.len() > 0 {
        assert(forall|i: int| 0 <= i < s.len() - 1 ==> s.drop_last()[i] == s[i]);
        lemma_entries_absent(s.drop_last(), k);
    }
}

/// An entry whose key recurs in no later entry is in the map with its value.
pub proof fn lemma_entries_at(s: Seq<(Vec<u64>, u64)>, i: int)
    requires
        0 <= i < s.len(),
        forall|j: int| i < j < s.len() ==> s[j].0@ != s[i].0@,
    ensures
        entries_map(s).contains_key(s[i].0@),
        entries_map(s)[s[i].0@] == s[i].1,
    decreases s,
{
    if i < s.len() - 1 {
        assert(forall|j: int| 0 <= j < s.len() - 1 ==> s.drop_last()[j] == s[j]);
        lemma_entries_at(s.drop_last(), i);
        assert(s.last().0@ != s[i].0@);
    }
}

/// Removing the entry at `i` removes exactly its key from the map.
pub proof fn lemma_entries_remove(s: Seq<(Vec<u64>, u64)>, i: int)
    requires
        0 <= i < s.len(),
        entries_unique(s),
    ensures
        entries_map(s.remove(i)) == entries_map(s).remove(s[i].0@),
    decreases s,
{
    let dl = s.drop_last();
    assert(forall|j: int| 0 <= j < s.len() - 1 ==> dl[j] == s[j]);
    if i == s.len() - 1 {
        assert(forall|j: int| 0 <= j < dl.len() ==> dl[j].0@ != s[i].0@);
        lemma_entries_absent(dl, s[i].0@);
        assert(s.remove(i) =~= dl);
        assert(entries_map(s).remove(s[i].0@) =~= entries_map(dl));
    } else {
        lemma_entries_remove(dl, i);
        let r = s.remove(i);
        assert(r.len() == s.len() - 1);
        assert(r.drop_last() =~= dl.remove(i));
        assert(r.last() == s.last());
        assert(entries_map(r) == entries_map(dl.remove(i)).insert(s.last().0@, s.last().1));
        assert(s.last().0@ != s[i].0@);
        assert(entries_map(dl).remove(s[i].0@).insert(s.last().0@, s.last().1)
            =~= entries_map(dl).insert(s.last().0@, s.last().1).remove(s[i].0@));
    }
}

/// Every value of the map is the value of some entry.
pub proof fn lemma_entries_values(s: Seq<(Vec<u64>, u64)>, k: Seq<u64>)
    requires
        entries_map(s).contains_key(k),
    ensures
        exists|i: int| 0 <= i < s.len() && s[i].0@ == k
            && s[i].1 == entries_map(s)[k],
    decreases s,
{
    if s.len() > 0 {
        if s.last().0@ == k && entries_map(s)[k] == s.last().1 {
            assert(s[s.len() - 1].0@ == k && s[s.len() - 1].1 == entries_map(s)[k]);
        } else {
            lemma_entries_values(s.drop_last(), k);
            let i = choose|i: int| 0 <= i < s.drop_last().len() && s.drop_last()[i].0@ == k
                && s.drop_last()[i].1 == entries_map(s.drop_last())[k];
            assert(s[i] == s.drop_last()[i]);
        }
    }
}

/// The path-to-identity map and the next-identity counter.  It persists
/// across the whole lifetime of a context and is mutated only while a diff
/// pass runs.
#[derive(Debug)]
pub struct NodeStates {
    pub entries: Vec<(Vec<u64>, u64)>,
    pub next_id: u64,
}

impl NodeStates {
    /// The map this state stands for.
    pub open spec fn m(self) -> Map<Seq<u64>, u64> {
        entries_map(self.entries@)
    }

    /// The next identity to hand out.
    pub open spec fn next(self) -> int {
        self.next_id as int
    }

    /// Well-formed state: unique paths, every stored identity positive and
    /// below the counter.
    pub open spec fn wf(self) -> bool {
        &&& entries_unique(self.entries@)
        &&& forall|i: int| 0 <= i < self.entries@.len()
            ==> 1 <= (#[trigger] self.entries@[i]).1 < self.next_id
        &&& self.next_id >= 1
    }

    /// In a well-formed state, every stored identity lies strictly below
    /// the counter and is positive.
    pub proof fn lemma_value_bound(self, path: Seq<u64>)
        requires
            self.wf(),
            self.m().contains_key(path),
        ensures
            1 <= self.m()[path] < self.next(),
    {
        lemma_entries_values(self.entries@, path);
    }

    /// A fresh state: empty map, counter at 1.
    pub fn new() -> (r: NodeStates)
        ensures
            r.m() == Map::<Seq<u64>, u64>::empty(),
            r.next() == 1,
            r.wf(),
    {
        NodeStates { entries: Vec::new(), next_id: 1 }
    }

    /// Index of the entry holding `path`, if any.
    fn find(&self, path: &Vec<u64>) -> (r: Option<usize>)
        requires
            self.wf(),
        ensures
            r is None ==> !self.m().contains_key(path@),
            r matches Some(i) ==> {
                &&& i < self.entries@.len()
                &&& self.entries@[i as int].0@ == path@
                &&& self.m().contains_key(path@)
                &&& self.m()[path@] == self.entries@[i as int].1
            },
    {
        let n = self.entries.len();
        let mut i: usize = 0;
        while i < n
            invariant
                self.wf(),
                n == self.entries@.len(),
                0 <= i <= n,
                forall|j: int| 0 <= j < i ==> self.entries@[j].0@ != path@,
            decreases n - i,
        {
            if path_eq(&self.entries[i].0, path) {
                proof {
                    lemma_entries_at(self.entries@, i as int);
                }
                return Some(i);
            }
            i += 1;
        }
        proof {
            lemma_entries_absent(self.entries@, path@);
        }
        None
    }

    /// Hands out a fresh identity for `path`.  Fails with `DuplicatePath`,
    /// and changes nothing, exactly when the path already has one.
    pub fn allocate(&mut self, path: &Vec<u64>) -> (r: Result<u64, DiffError>)
        requires
            old(self).wf(),
            old(self).next() < u64::MAX as int,
        ensures
            final(self).wf(),
            old(self).m().contains_key(path@) ==> {
                &&& r matches Err(e) && e@ == ErrV::DuplicatePath(path@)
                &&& final(self).m() == old(self).m()
                &&& final(self).next() == old(self).next()
            },
            !old(self).m().contains_key(path@) ==> {
                &&& r matches Ok(id) && id as int == old(self).next()
                &&& final(self).m() == old(self).m().insert(path@, (old(self).next() as u64))
                &&& final(self).next() == old(self).next() + 1
            },
    {
        match self.find(path) {
            Some(_) => Err(DiffError::DuplicatePath(copy_path(path))),
            None => {
                let id = self.next_id;
                self.entries.push((copy_path(path), id));
                self.next_id = id + 1;
                proof {
                    let s0 = old(self).entries@;
                    let s1 = self.entries@;
                    assert forall|j: int| 0 <= j < s0.len() implies s0[j].0@ != path@ by {
                        if s0[j].0@ == path@ {
                            lemma_entries_at(s0, j);
                        }
                    }
                    assert(s1.drop_last() =~= s0);
                    assert(s1.last() == (s1.last().0, id));
                    assert(s1.last().0@ == path@);
                    assert(self.m() == entries_map(s0).insert(path@, id));
                    assert(forall|j: int| 0 <= j < s0.len() ==> s1[j] == s0[j]);
                }
                Ok(id)
            }
        }
    }

    /// Looks the identity of `path` up.  Fails with `LookupFailure` exactly
    /// when the path has none.
    pub fn lookup(&self, path: &Vec<u64>) -> (r: Result<u64, DiffError>)
        requires
            self.wf(),
        ensures
            self.m().contains_key(path@)
                ==> (r matches Ok(id) && id == self.m()[path@]),
            !self.m().contains_key(path@)
                ==> (r matches Err(e) && e@ == ErrV::LookupFailure(path@)),
    {
        match self.find(path) {
            Some(i) => Ok(self.entries[i].1),
            None => Err(DiffError::LookupFailure(copy_path(path))),
        }
    }

    /// Removes and returns the identity of `path`.  Fails with
    /// `LookupFailure`, and changes nothing, exactly when the path has none.
    pub fn retire(&mut self, path: &Vec<u64>) -> (r: Result<u64, DiffError>)
        requires
            old(self).wf(),
        ensures
            final(self).wf(),
            final(self).next() == old(self).next(),
            old(self).m().contains_key(path@) ==> {
                &&& r matches Ok(id) && id == old(self).m()[path@]
                &&& final(self).m() == old(self).m().remove(path@)
            },
            !old(self).m().contains_key(path@) ==> {
                &&& r matches Err(e) && e@ == ErrV::LookupFailure(path@)
                &&& final(self).m() == old(self).m()
            },
    {
        match self.find(path) {
            Some(i) => {
                let (_, id) = self.entries.remove(i);
                proof {
                    lemma_entries_remove(old(self).entries@, i as int);
                    assert(forall|a: int, b: int|
                        0 <= a < b < self.entries@.len()
                            ==> self.entries@[a] == old(self).entries@.remove(i as int)[a]
                                && self.entries@[b] == old(self).entries@.remove(i as int)[b]);
                }
                Ok(id)
            }
            None => Err(DiffError::LookupFailure(copy_path(path))),
        }
    }
}

} // verus!
