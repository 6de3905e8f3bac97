//! The index: from a value's digest to the metadata of its record, kept in 256
//! branches chosen by the first byte of the digest. A digest is entered once; a
//! later entry with the same digest is refused.
use vstd::prelude::*;
use crate::codec::{hex_chars, hex_encode};
use crate::storage::Metadata;

verus! {

/// How many branches the index has: one per value of a digest's first byte.
pub const BRANCH_NUMBER: usize = 256;

/// The index of stored records.
pub struct Index {
    branches: Vec<Vec<Metadata>>,
}

/// The first entry of `branch` whose digest is `hash`.
pub open spec fn find_in(branch: Seq<Metadata>, hash: Seq<u8>) -> Option<Metadata>
    decreases branch.len(),
{
    if branch.len() == 0 {
        None
    } else if branch[0].hash@ == hash {
        Some(branch[0])
    } else {
        find_in(branch.drop_first(), hash)
    }
}

/// What an index with these branches answers for `hash`.
pub open spec fn lookup_in(branches: Seq<Seq<Metadata>>, hash: Seq<u8>) -> Option<Metadata> {
    if hash.len() == 32 && (hash[0] as int) < branches.len() {
        find_in(branches[hash[0] as int], hash)
    } else {
        None
    }
}

/// The entries of the branches, branch by branch, each branch in the order its
/// entries were made.
pub open spec fn all_entries(branches: Seq<Seq<Metadata>>) -> Seq<Metadata>
    decreases branches.len(),
{
    if branches.len() == 0 {
        Seq::empty()
    } else {
        all_entries(branches.drop_last()) + branches.last()
    }
}

/// The branches of an empty index.
pub open spec fn empty_branches() -> Seq<Seq<Metadata>> {
    Seq::new(BRANCH_NUMBER as nat, |b: int| Seq::<Metadata>::empty())
}

/// The branches once `entry` is entered: appended to the branch of its digest's
/// first byte, unless its digest is already found.
pub open spec fn enter(branches: Seq<Seq<Metadata>>, entry: Metadata) -> Seq<Seq<Metadata>> {
    if lookup_in(branches, entry.hash@) is None {
        branches.update(
            entry.hash@[0] as int,
            branches[entry.hash@[0] as int].push(entry),
        )
    } else {
        branches
    }
}

/// The branches once `entries` are entered one by one, in order.
pub open spec fn enter_all(branches: Seq<Seq<Metadata>>, entries: Seq<Metadata>) -> Seq<
    Seq<Metadata>,
>
    decreases entries.len(),
{
    if entries.len() == 0 {
        branches
    } else {
        enter(enter_all(branches, entries.drop_last()), entries.last())
    }
}

/// The entries of `entries` that are new when entered one by one into `branches`,
/// in order: those that are appended to the index file.
pub open spec fn fresh_entries(branches: Seq<Seq<Metadata>>, entries: Seq<Metadata>) -> Seq<
    Metadata,
>
    decreases entries.len(),
{
    if entries.len() == 0 {
        Seq::empty()
    } else {
        let prev = fresh_entries(branches, entries.drop_last());
        if lookup_in(enter_all(branches, entries.drop_last()), entries.last().hash@) is None {
            prev.push(entries.last())
        } else {
            prev
        }
    }
}

impl Index {
    /// The index has one branch per first byte, each entry sits in the branch of
    /// its digest's first byte, and no digest is entered twice.
    pub closed spec fn wf(&self) -> bool {
        &&& self.branches.len() == BRANCH_NUMBER
        &&& forall|b: int, i: int|
            #![trigger self.branches@[b]@[i]]
            0 <= b < BRANCH_NUMBER && 0 <= i < self.branches@[b]@.len()
                ==> self.branches@[b]@[i].hash@[0] == b
        &&& forall|b: int, i: int, j: int|
            #![trigger self.branches@[b]@[i], self.branches@[b]@[j]]
            0 <= b < BRANCH_NUMBER && 0 <= i < j < self.branches@[b]@.len()
                ==> self.branches@[b]@[i].hash@ != self.branches@[b]@[j].hash@
    }

    /// The branches of the index.
    pub closed spec fn branches(&self) -> Seq<Seq<Metadata>> {
        Seq::new(self.branches@.len(), |b: int| self.branches@[b]@)
    }

    /// What the index answers for `hash`.
    pub open spec fn lookup(&self, hash: Seq<u8>) -> Option<Metadata> {
        lookup_in(self.branches(), hash)
    }

    /// An empty index.
    pub fn new() -> (index: Index)
        ensures
            index.wf(),
            index.branches() == empty_branches(),
            index.branches().len() == BRANCH_NUMBER,
            forall|b: int| 0 <= b < BRANCH_NUMBER ==> (#[trigger] index.branches()[b]).len() == 0,
            forall|hash: Seq<u8>| index.lookup(hash) is None,
    {
        let mut branches: Vec<Vec<Metadata>> = Vec::new();
        while branches.len() < BRANCH_NUMBER
            invariant
                branches.len() <= BRANCH_NUMBER,
                forall|b: int| 0 <= b < branches.len() ==> (#[trigger] branches@[b])@.len() == 0,
            decreases BRANCH_NUMBER - branches.len(),
        {
            branches.push(Vec::new());
        }
        let index = Index { branches };
        assert forall|b: int| 0 <= b < BRANCH_NUMBER implies #[trigger] index.branches()[b]
            =~= empty_branches()[b] by {
            assert(index.branches()[b] == index.branches@[b]@);
        }
        assert(index.branches() =~= empty_branches());
        assert forall|hash: Seq<u8>| index.lookup(hash) is None by {
            if hash.len() == 32 && (hash[0] as int) < index.branches().len() {
                assert(index.branches()[hash[0] as int].len() == 0);
            }
        }
        index
    }

    /// An index of the entries read from the index file, in the order read: each
    /// digest finds the first entry read with it.
    pub fn load(entries: &[Metadata]) -> (index: Index)
        ensures
            index.wf(),
            index.branches() == enter_all(empty_branches(), entries@),
            forall|hash: Seq<u8>| #[trigger] index.lookup(hash) == find_in(entries@, hash),
    {
        let mut index = Index::new();
        let mut i: usize = 0;
        assert(entries@.take(0) =~= Seq::<Metadata>::empty());
        while i < entries.len()
            invariant
                i <= entries.len(),
                index.wf(),
                index.branches() == enter_all(empty_branches(), entries@.take(i as int)),
                forall|hash: Seq<u8>|
                    #[trigger] index.lookup(hash) == find_in(entries@.take(i as int), hash),
            decreases entries.len() - i,
        {
            let ghost before = index;
            index.insert_mem(&entries[i]);
            assert(entries@.take(i + 1) =~= entries@.take(i as int).push(entries@[i as int]));
            assert(entries@.take(i + 1).drop_last() =~= entries@.take(i as int));
            assert forall|hash: Seq<u8>| #[trigger] index.lookup(hash) == find_in(
                entries@.take(i + 1),
                hash,
            ) by {
                lemma_find_in_push(entries@.take(i as int), entries@[i as int], hash);
                assert(before.lookup(hash) == find_in(entries@.take(i as int), hash));
            }
            i = i + 1;
        }
        assert(entries@.take(i as int) =~= entries@);
        index
    }

    /// The entry stored under `hash`, if any.
    pub fn get(&self, hash: &[u8; 32]) -> (res: Option<Metadata>)
        requires
            self.wf(),
        ensures
            res == self.lookup(hash@),
    {
        let branch = &self.branches[hash[0] as usize];
        let ghost whole = branch@;
        assert(whole.skip(0) =~= whole);
        assert(self.branches()[hash@[0] as int] == whole);
        assert(hash@.len() == 32);
        assert(self.lookup(hash@) == find_in(whole, hash@));
        let mut i: usize = 0;
        while i < branch.len()
            invariant
                i <= branch.len(),
                whole == branch@,
                self.lookup(hash@) == find_in(whole, hash@),
                find_in(whole, hash@) == find_in(whole.skip(i as int), hash@),
            decreases branch.len() - i,
        {
            let entry = &branch[i];
            assert(whole.skip(i as int)[0] == whole[i as int]);
            assert(whole.skip(i as int).drop_first() =~= whole.skip(i + 1));
            if same_digest(hash, &entry.hash) {
                assert(find_in(whole.skip(i as int), hash@) == Some(*entry));
                return Some(*entry);
            }
            i = i + 1;
        }
        assert(whole.skip(i as int).len() == 0);
        None
    }

    /// Enters `entry` unless an entry with its digest is already stored; answers
    /// the entry where it was entered.
    pub fn insert_mem(&mut self, entry: &Metadata) -> (res: Option<Metadata>)
        requires
            old(self).wf(),
        ensures
            final(self).wf(),
            final(self).branches() == enter(old(self).branches(), *entry),
            old(self).lookup(entry.hash@) is Some ==> {
                &&& res is None
                &&& final(self).branches() == old(self).branches()
            },
            old(self).lookup(entry.hash@) is None ==> {
                &&& res == Some(*entry)
                &&& final(self).branches() == old(self).branches().update(
                    entry.hash@[0] as int,
                    old(self).branches()[entry.hash@[0] as int].push(*entry),
                )
            },
            forall|hash: Seq<u8>|
                #![trigger final(self).lookup(hash)]
                final(self).lookup(hash) == if hash == entry.hash@ && old(self).lookup(hash) is None {
                    Some(*entry)
                } else {
                    old(self).lookup(hash)
                },
    {
        if self.get(&entry.hash).is_some() {
            return None;
        }
        let b = entry.hash[0] as usize;
        let ghost old_branches = self.branches();
        let ghost old_branch = self.branches@[b as int]@;
        proof {
            lemma_find_in_none(old_branch, entry.hash@);
        }
        let mut branch: Vec<Metadata> = Vec::new();
        self.branches.set_and_swap(b, &mut branch);
        branch.push(*entry);
        self.branches.set_and_swap(b, &mut branch);
        assert forall|c: int, i: int, j: int|
            #![trigger self.branches@[c]@[i], self.branches@[c]@[j]]
            0 <= c < BRANCH_NUMBER && 0 <= i < j < self.branches@[c]@.len()
                implies self.branches@[c]@[i].hash@ != self.branches@[c]@[j].hash@ by {
            if c == b as int && j == old_branch.len() {
                assert(self.branches@[c]@[i] == old_branch[i]);
            }
        }
        assert(self.branches() =~= old_branches.update(b as int, old_branch.push(*entry)));
        assert forall|hash: Seq<u8>|
            #![trigger self.lookup(hash)]
            self.lookup(hash) == if hash == entry.hash@ && old(self).lookup(hash) is None {
                Some(*entry)
            } else {
                old(self).lookup(hash)
            } by {
            if hash.len() == 32 && hash[0] as int == b as int {
                lemma_find_in_push(old_branch, *entry, hash);
            }
        }
        Some(*entry)
    }

    /// Enters `entry` as `insert_mem` does; answers the key of the entry's value
    /// (its digest in lowercase hexadecimal) and whether the entry was new, and so
    /// is to be appended to the index file.
    pub fn insert(&mut self, entry: Metadata) -> (res: (String, bool))
        requires
            old(self).wf(),
        ensures
            final(self).wf(),
            res.0@ == hex_chars(entry.hash@),
            res.1 == (old(self).lookup(entry.hash@) is None),
            final(self).branches() == enter(old(self).branches(), entry),
            forall|hash: Seq<u8>|
                #![trigger final(self).lookup(hash)]
                final(self).lookup(hash) == if hash == entry.hash@ && old(self).lookup(hash) is None {
                    Some(entry)
                } else {
                    old(self).lookup(hash)
                },
            old(self).lookup(entry.hash@) is Some ==> final(self).branches() == old(self).branches(),
    {
        let fresh = self.insert_mem(&entry).is_some();
        (hex_encode(&entry.hash), fresh)
    }

    /// All entries, branch by branch, each branch in the order its entries were made.
    pub fn entries(&self) -> (res: Vec<Metadata>)
        requires
            self.wf(),
        ensures
            res@ == all_entries(self.branches()),
            forall|i: int, j: int|
                0 <= i < j < res@.len() ==> #[trigger] res@[i].hash@ != #[trigger] res@[j].hash@,
            forall|i: int| 0 <= i < res@.len() ==> self.lookup(#[trigger] res@[i].hash@) == Some(res@[i]),
            forall|hash: Seq<u8>| #[trigger] self.lookup(hash) matches Some(m) ==> res@.contains(m),
            forall|hash: Seq<u8>| #[trigger] find_in(res@, hash) == self.lookup(hash),
    {
        proof {
            self.lemma_entries(BRANCH_NUMBER as nat);
            assert(self.branches().take(BRANCH_NUMBER as int) =~= self.branches());
            let es = all_entries(self.branches());
            assert forall|hash: Seq<u8>| #[trigger] find_in(es, hash) == self.lookup(hash) by {
                lemma_find_in_member(es, hash);
                lemma_find_in_matches(es, hash);
                if let Some(m) = self.lookup(hash) {
                    let p = choose|p: int| 0 <= p < es.len() && es[p] == m;
                    lemma_lookup_matches(self.branches(), hash);
                    lemma_find_in_distinct(es, p);
                } else if let Some(m) = find_in(es, hash) {
                    let p = choose|p: int| 0 <= p < es.len() && es[p] == m;
                    assert(self.lookup(es[p].hash@) == Some(es[p]));
                }
            }
        }
        let mut res: Vec<Metadata> = Vec::new();
        let mut b: usize = 0;
        while b < self.branches.len()
            invariant
                b <= self.branches.len(),
                self.branches.len() == BRANCH_NUMBER,
                res@ == all_entries(self.branches().take(b as int)),
            decreases self.branches.len() - b,
        {
            let branch = &self.branches[b];
            let ghost before = res@;
            let mut i: usize = 0;
            while i < branch.len()
                invariant
                    i <= branch.len(),
                    res@ == before + branch@.take(i as int),
                decreases branch.len() - i,
            {
                res.push(branch[i]);
                i = i + 1;
                assert(res@ =~= before + branch@.take(i as int));
            }
            assert(branch@.take(i as int) =~= branch@);
            assert(self.branches().take(b + 1).drop_last() =~= self.branches().take(b as int));
            b = b + 1;
        }
        assert(self.branches().take(b as int) =~= self.branches());
        res
    }
}

impl Index {
    /// The entries of the first `k` branches each sit in the branch of their
    /// digest's first byte, are found by their digest, and hold no digest twice;
    /// every entry found by a digest of those branches is among them.
    proof fn lemma_entries(&self, k: nat)
        requires
            self.wf(),
            k <= BRANCH_NUMBER,
        ensures
            ({
                let bs = self.branches();
                let es = all_entries(bs.take(k as int));
                &&& forall|i: int| 0 <= i < es.len() ==> (#[trigger] es[i]).hash@[0] < k
                &&& forall|i: int, j: int|
                    0 <= i < j < es.len() ==> #[trigger] es[i].hash@ != #[trigger] es[j].hash@
                &&& forall|i: int| 0 <= i < es.len() ==> self.lookup(#[trigger] es[i].hash@) == Some(es[i])
                &&& forall|hash: Seq<u8>|
                    #[trigger] self.lookup(hash) matches Some(m) ==> hash.len() == 32 && hash[0] < k
                        ==> es.contains(m)
            }),
        decreases k,
    {
        let bs = self.branches();
        if k == 0 {
            assert(bs.take(0) =~= Seq::<Seq<Metadata>>::empty());
        } else {
            let j = (k - 1) as int;
            self.lemma_entries(j as nat);
            let prev = all_entries(bs.take(j));
            let branch = bs[j];
            assert(bs.take(k as int).drop_last() =~= bs.take(j));
            let es = all_entries(bs.take(k as int));
            assert(es =~= prev + branch);
            assert forall|p: int, q: int|
                0 <= p < q < branch.len() implies #[trigger] branch[p].hash@ != #[trigger] branch[q].hash@ by {
                assert(self.branches@[j]@[p] == branch[p]);
                assert(self.branches@[j]@[q] == branch[q]);
            }
            assert forall|p: int| 0 <= p < branch.len() implies (#[trigger] branch[p]).hash@[0] == j by {
                assert(self.branches@[j]@[p] == branch[p]);
            }
            assert forall|i: int| 0 <= i < es.len() implies (#[trigger] es[i]).hash@[0] < k by {
                if i < prev.len() {
                    assert(es[i] == prev[i]);
                } else {
                    assert(es[i] == branch[i - prev.len()]);
                }
            }
            assert forall|i: int, i2: int|
                0 <= i < i2 < es.len() implies #[trigger] es[i].hash@ != #[trigger] es[i2].hash@ by {
                if i2 < prev.len() {
                    assert(es[i] == prev[i] && es[i2] == prev[i2]);
                } else if i < prev.len() {
                    assert(es[i] == prev[i]);
                    assert(es[i2] == branch[i2 - prev.len()]);
                    assert(prev[i].hash@[0] < j);
                } else {
                    assert(es[i] == branch[i - prev.len()]);
                    assert(es[i2] == branch[i2 - prev.len()]);
                }
            }
            assert forall|i: int| 0 <= i < es.len() implies self.lookup(#[trigger] es[i].hash@) == Some(
                es[i],
            ) by {
                if i < prev.len() {
                    assert(es[i] == prev[i]);
                } else {
                    let p = i - prev.len();
                    assert(es[i] == branch[p]);
                    lemma_find_in_distinct(branch, p);
                    assert(branch[p].hash@.len() == 32);
                }
            }
            assert forall|hash: Seq<u8>|
                #[trigger] self.lookup(hash) matches Some(m) ==> hash.len() == 32 && hash[0] < k
                    ==> es.contains(m) by {
                if let Some(m) = self.lookup(hash) {
                    if hash.len() == 32 && hash[0] < k {
                        if hash[0] < j {
                            let i = choose|i: int| 0 <= i < prev.len() && prev[i] == m;
                            assert(es[i] == prev[i]);
                        } else {
                            lemma_find_in_member(branch, hash);
                            let p = choose|p: int| 0 <= p < branch.len() && branch[p] == m;
                            assert(es[prev.len() + p] == branch[p]);
                        }
                    }
                }
            }
        }
    }
}

/// The index and the index file agree: an index that answers as loading the file
/// would still does so once an entry is entered, and, where the entry was new,
/// appended to the file.
pub proof fn lemma_index_file_agrees(before: Index, after: Index, file: Seq<Metadata>, entry: Metadata)
    requires
        forall|hash: Seq<u8>| #[trigger] before.lookup(hash) == find_in(file, hash),
        forall|hash: Seq<u8>|
            #[trigger] after.lookup(hash) == if hash == entry.hash@ && before.lookup(hash) is None {
                Some(entry)
            } else {
                before.lookup(hash)
            },
    ensures
        forall|hash: Seq<u8>|
            #[trigger] after.lookup(hash) == find_in(
                if before.lookup(entry.hash@) is None {
                    file.push(entry)
                } else {
                    file
                },
                hash,
            ),
{
    assert forall|hash: Seq<u8>|
        #[trigger] after.lookup(hash) == find_in(
            if before.lookup(entry.hash@) is None {
                file.push(entry)
            } else {
                file
            },
            hash,
        ) by {
        lemma_find_in_push(file, entry, hash);
        assert(before.lookup(hash) == find_in(file, hash));
        assert(before.lookup(entry.hash@) == find_in(file, entry.hash@));
        lemma_find_in_matches(file, entry.hash@);
    }
}

/// Entering a new entry appends it at the end of the branch of its digest's
/// first byte and leaves everything else as it was; entering an entry whose digest
/// is found changes nothing.
pub proof fn lemma_enter_appends(branches: Seq<Seq<Metadata>>, entry: Metadata)
    requires
        branches.len() == BRANCH_NUMBER,
    ensures
        ({
            let b = entry.hash@[0] as int;
            let after = enter(branches, entry);
            &&& after.len() == branches.len()
            &&& lookup_in(branches, entry.hash@) is None ==> {
                &&& after[b].len() == branches[b].len() + 1
                &&& after[b].last() == entry
                &&& after[b].drop_last() == branches[b]
                &&& forall|c: int| 0 <= c < branches.len() && c != b ==> #[trigger] after[c]
                    == branches[c]
            }
            &&& lookup_in(branches, entry.hash@) is Some ==> after == branches
        }),
{
    assert(entry.hash@.len() == 32);
    let b = entry.hash@[0] as int;
    if lookup_in(branches, entry.hash@) is None {
        assert(enter(branches, entry)[b].drop_last() =~= branches[b]);
    }
}

/// Entering entries one list after another is entering the two lists joined.
pub proof fn lemma_enter_all_append(
    branches: Seq<Seq<Metadata>>,
    first: Seq<Metadata>,
    second: Seq<Metadata>,
)
    ensures
        enter_all(branches, first + second) == enter_all(enter_all(branches, first), second),
    decreases second.len(),
{
    if second.len() == 0 {
        assert(first + second =~= first);
    } else {
        assert((first + second).drop_last() =~= first + second.drop_last());
        assert((first + second).last() == second.last());
        lemma_enter_all_append(branches, first, second.drop_last());
    }
}

/// Entering only the entries that are new gives the same branches as entering
/// them all: an entry whose digest is found changes nothing.
pub proof fn lemma_enter_fresh_only(branches: Seq<Seq<Metadata>>, entries: Seq<Metadata>)
    ensures
        enter_all(branches, fresh_entries(branches, entries)) == enter_all(branches, entries),
    decreases entries.len(),
{
    if entries.len() > 0 {
        let init = entries.drop_last();
        lemma_enter_fresh_only(branches, init);
        let prev = fresh_entries(branches, init);
        if lookup_in(enter_all(branches, init), entries.last().hash@) is None {
            assert(prev.push(entries.last()).drop_last() =~= prev);
        }
    }
}

/// The index file reloads as the live index: an index loaded from a file, with
/// entries entered afterwards and the new ones appended to the file, has exactly
/// the branches that loading the extended file gives.
pub proof fn lemma_reload_after_inserts(file: Seq<Metadata>, inserted: Seq<Metadata>)
    ensures
        enter_all(
            empty_branches(),
            file + fresh_entries(enter_all(empty_branches(), file), inserted),
        ) == enter_all(enter_all(empty_branches(), file), inserted),
{
    let loaded = enter_all(empty_branches(), file);
    lemma_enter_all_append(empty_branches(), file, fresh_entries(loaded, inserted));
    lemma_enter_fresh_only(loaded, inserted);
}

/// Entering keeps one branch per first byte.
pub proof fn lemma_enter_all_len(branches: Seq<Seq<Metadata>>, entries: Seq<Metadata>)
    requires
        branches.len() == BRANCH_NUMBER,
    ensures
        enter_all(branches, entries).len() == BRANCH_NUMBER,
    decreases entries.len(),
{
    if entries.len() > 0 {
        lemma_enter_all_len(branches, entries.drop_last());
    }
}

/// What an index answers once an entry is entered.
pub proof fn lemma_enter_lookup(branches: Seq<Seq<Metadata>>, entry: Metadata, hash: Seq<u8>)
    requires
        branches.len() == BRANCH_NUMBER,
    ensures
        lookup_in(enter(branches, entry), hash) == if hash == entry.hash@ && lookup_in(
            branches,
            hash,
        ) is None {
            Some(entry)
        } else {
            lookup_in(branches, hash)
        },
{
    assert(entry.hash@.len() == 32);
    if lookup_in(branches, entry.hash@) is None && hash.len() == 32 && hash[0] == entry.hash@[0] {
        lemma_find_in_push(branches[hash[0] as int], entry, hash);
    }
}

/// In a branch with no digest twice, each entry is what its digest finds.
proof fn lemma_find_in_distinct(branch: Seq<Metadata>, p: int)
    requires
        0 <= p < branch.len(),
        forall|i: int, j: int|
            0 <= i < j < branch.len() ==> #[trigger] branch[i].hash@ != #[trigger] branch[j].hash@,
    ensures
        find_in(branch, branch[p].hash@) == Some(branch[p]),
    decreases p,
{
    if p > 0 {
        let rest = branch.drop_first();
        assert(branch[0].hash@ != branch[p].hash@);
        assert(rest[p - 1] == branch[p]);
        assert forall|i: int, j: int|
            0 <= i < j < rest.len() implies #[trigger] rest[i].hash@ != #[trigger] rest[j].hash@ by {
            assert(rest[i] == branch[i + 1] && rest[j] == branch[j + 1]);
        }
        lemma_find_in_distinct(rest, p - 1);
    }
}

/// What a branch finds is one of its entries.
proof fn lemma_find_in_member(branch: Seq<Metadata>, hash: Seq<u8>)
    ensures
        find_in(branch, hash) matches Some(m) ==> branch.contains(m),
    decreases branch.len(),
{
    if branch.len() > 0 && branch[0].hash@ != hash {
        lemma_find_in_member(branch.drop_first(), hash);
        if let Some(m) = find_in(branch, hash) {
            let p = choose|p: int| 0 <= p < branch.drop_first().len() && branch.drop_first()[p] == m;
            assert(branch[p + 1] == m);
        }
    }
}

/// Whether two digests are equal.
fn same_digest(a: &[u8; 32], b: &[u8; 32]) -> (same: bool)
    ensures
        same == (a@ == b@),
{
    let mut i: usize = 0;
    while i < 32
        invariant
            i <= 32,
            forall|j: int| 0 <= j < i ==> a@[j] == b@[j],
        decreases 32 - i,
    {
        if a[i] != b[i] {
            return false;
        }
        i = i + 1;
    }
    assert(a@ =~= b@);
    true
}

/// A branch that answers nothing for `hash` holds no entry with that digest.
proof fn lemma_find_in_none(branch: Seq<Metadata>, hash: Seq<u8>)
    requires
        find_in(branch, hash) is None,
    ensures
        forall|i: int| 0 <= i < branch.len() ==> (#[trigger] branch[i]).hash@ != hash,
    decreases branch.len(),
{
    if branch.len() > 0 {
        lemma_find_in_none(branch.drop_first(), hash);
        assert forall|i: int| 0 <= i < branch.len() implies (#[trigger] branch[i]).hash@ != hash by {
            if i > 0 {
                assert(branch[i] == branch.drop_first()[i - 1]);
            }
        }
    }
}

/// Appending an entry to a branch changes its answer only for the entry's digest,
/// and only where the branch had no answer for it.
proof fn lemma_find_in_push(branch: Seq<Metadata>, entry: Metadata, hash: Seq<u8>)
    ensures
        find_in(branch.push(entry), hash) == if find_in(branch, hash) is None && entry.hash@ == hash {
            Some(entry)
        } else {
            find_in(branch, hash)
        },
    decreases branch.len(),
{
    if branch.len() == 0 {
        assert(branch.push(entry).drop_first() =~= Seq::<Metadata>::empty());
    } else {
        assert(branch.push(entry).drop_first() =~= branch.drop_first().push(entry));
        lemma_find_in_push(branch.drop_first(), entry, hash);
    }
}

/// An answer of the index is an entry with the digest asked for.
pub proof fn lemma_lookup_matches(branches: Seq<Seq<Metadata>>, hash: Seq<u8>)
    ensures
        lookup_in(branches, hash) matches Some(m) ==> m.hash@ == hash,
{
    if hash.len() == 32 && (hash[0] as int) < branches.len() {
        lemma_find_in_matches(branches[hash[0] as int], hash);
    }
}

proof fn lemma_find_in_matches(branch: Seq<Metadata>, hash: Seq<u8>)
    ensures
        find_in(branch, hash) matches Some(m) ==> m.hash@ == hash,
    decreases branch.len(),
{
    if branch.len() > 0 {
        lemma_find_in_matches(branch.drop_first(), hash);
    }
}

} // verus!
