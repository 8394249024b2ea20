//! The registry of piece groups: which cells came from the same piece.

use vstd::prelude::*;
use vstd::seq_lib::{seq_to_set_is_finite, lemma_seq_contains_after_push};

verus! {

/// Why a group was not registered.
#[derive(Clone, Copy, Debug, PartialEq, Eq, Structural)]
pub enum RegistryError {
    /// An identifier was never issued.
    UnknownId,
    /// An identifier is in a group already, or was detached before.
    IdTaken,
    /// An identifier is listed twice.
    DuplicateId,
}

/// How an identifier stands with the registry.
#[derive(Clone, Copy, Debug, PartialEq, Eq, Structural)]
enum Standing {
    Unregistered,
    Member,
    Detached,
}

/// The record of one identifier: the other members of its group.
struct Entry {
    standing: Standing,
    siblings: Vec<usize>,
}

/// The registry: a table from cell identifier to the other cells of its
/// group. Identifiers are issued in turn, from zero, and none is used again
/// once it has been detached.
pub struct Registry {
    entries: Vec<Entry>,
}

/// What a registry holds.
pub struct RegistryView {
    /// How many identifiers were issued: those below this number.
    pub issued: nat,
    /// For each identifier with a record, the other members of its group.
    pub groups: Map<usize, Set<usize>>,
    /// The identifiers that were detached.
    pub detached: Set<usize>,
}

impl RegistryView {
    /// The other members of the group of `id`; none where `id` has no record.
    pub open spec fn group(self, id: usize) -> Set<usize> {
        if self.groups.dom().contains(id) {
            self.groups[id]
        } else {
            Set::empty()
        }
    }

    /// Whoever lists another as sibling is listed by it in turn.
    pub open spec fn symmetric(self) -> bool {
        forall|a: usize, b: usize| #[trigger]
            self.group(a).contains(b) ==> self.group(b).contains(a)
    }

    /// The records are consistent: they belong to issued identifiers that
    /// were not detached, no cell is its own sibling, every sibling has a
    /// record, and the sibling relation is symmetric.
    pub open spec fn valid(self) -> bool {
        &&& forall|a: usize| #[trigger] self.groups.dom().contains(a) ==> a < self.issued
        &&& forall|a: usize| #[trigger]
            self.detached.contains(a) ==> a < self.issued && !self.groups.dom().contains(a)
        &&& forall|a: usize| #[trigger]
            self.groups.dom().contains(a) ==> self.groups[a].finite() && !self.groups[a].contains(
                a,
            )
        &&& forall|a: usize, b: usize|
            self.groups.dom().contains(a) && #[trigger] self.groups[a].contains(b)
                ==> self.groups.dom().contains(b) && self.groups[b].contains(a)
    }

    /// What `register_group` answers for the identifiers `ids`.
    pub open spec fn registrable(self, ids: Seq<usize>) -> Result<(), RegistryError> {
        if exists|i: int| 0 <= i < ids.len() && #[trigger] ids[i] >= self.issued {
            Err(RegistryError::UnknownId)
        } else if exists|i: int|
            0 <= i < ids.len() && (self.groups.dom().contains(#[trigger] ids[i])
                || self.detached.contains(ids[i])) {
            Err(RegistryError::IdTaken)
        } else if !ids.no_duplicates() {
            Err(RegistryError::DuplicateId)
        } else {
            Ok(())
        }
    }

    /// The registry with `ids` as one more group, each member linked to
    /// every other.
    pub open spec fn with_group(self, ids: Seq<usize>) -> RegistryView {
        RegistryView {
            groups: Map::new(
                |id: usize| self.groups.dom().contains(id) || ids.contains(id),
                |id: usize|
                    if ids.contains(id) {
                        ids.to_set().remove(id)
                    } else {
                        self.groups[id]
                    },
            ),
            ..self
        }
    }

    /// The registry after every identifier of `ids` was detached.
    pub open spec fn without_all(self, ids: Set<usize>) -> RegistryView {
        RegistryView {
            issued: self.issued,
            groups: Map::new(
                |k: usize| self.groups.dom().contains(k) && !ids.contains(k),
                |k: usize| self.groups[k].difference(ids),
            ),
            detached: Set::new(
                |k: usize|
                    self.detached.contains(k) || (ids.contains(k) && self.groups.dom().contains(k)),
            ),
        }
    }

    /// The registry after `id` was detached: its record is gone and no other
    /// record lists it. Where `id` has no record, nothing changes.
    pub open spec fn without(self, id: usize) -> RegistryView {
        if self.groups.dom().contains(id) {
            RegistryView {
                issued: self.issued,
                groups: Map::new(
                    |k: usize| self.groups.dom().contains(k) && k != id,
                    |k: usize| self.groups[k].remove(id),
                ),
                detached: self.detached.insert(id),
            }
        } else {
            self
        }
    }
}

/// In a consistent registry the sibling relation is symmetric.
pub proof fn lemma_valid_is_symmetric(v: RegistryView)
    requires
        v.valid(),
    ensures
        v.symmetric(),
{
    assert forall|a: usize, b: usize| #[trigger] v.group(a).contains(b) implies v.group(
        b,
    ).contains(a) by {
        assert(v.groups.dom().contains(a));
        assert(v.groups[a].contains(b));
    }
}

/// Detaching keeps a registry consistent, leaves the detached identifier
/// without siblings, and leaves it in nobody's list: if it no longer lists
/// another, the other no longer lists it.
pub proof fn lemma_detach_symmetric(v: RegistryView, id: usize)
    requires
        v.valid(),
    ensures
        v.without(id).valid(),
        v.without(id).symmetric(),
        v.groups.dom().contains(id) ==> v.without(id).group(id) == Set::<usize>::empty(),
        forall|other: usize|
            v.groups.dom().contains(id) ==> !(#[trigger] v.without(id).group(other)).contains(id),
        forall|other: usize|
            other != id ==> #[trigger] v.without(id).group(other) == v.group(other).remove(id),
{
    let w = v.without(id);
    if v.groups.dom().contains(id) {
        assert forall|a: usize| #[trigger] w.groups.dom().contains(a) implies w.groups[a].finite()
            && !w.groups[a].contains(a) by {
            assert(v.groups.dom().contains(a));
        }
        assert forall|a: usize, b: usize|
            w.groups.dom().contains(a) && #[trigger] w.groups[a].contains(
                b,
            ) implies w.groups.dom().contains(b) && w.groups[b].contains(a) by {
            assert(v.groups.dom().contains(a));
            assert(v.groups[a].contains(b));
        }
    }
    lemma_valid_is_symmetric(w);
    assert forall|other: usize| other != id implies #[trigger] w.group(other) == v.group(
        other,
    ).remove(id) by {
        assert(w.group(other) =~= v.group(other).remove(id));
    }
}

/// Detaching nobody changes nothing.
pub proof fn lemma_without_none(v: RegistryView)
    ensures
        v.without_all(Set::empty()) == v,
{
    let w = v.without_all(Set::empty());
    assert forall|k: usize| w.groups.dom().contains(k) implies w.groups[k] == v.groups[k] by {
        assert(w.groups[k] =~= v.groups[k]);
    }
    assert(w.groups =~= v.groups);
    assert(w.detached =~= v.detached);
}

/// Detaching one more identifier after a set of them is detaching the set
/// with that one added.
pub proof fn lemma_without_one_more(v: RegistryView, ids: Set<usize>, id: usize)
    requires
        v.valid(),
    ensures
        v.without_all(ids).without(id) == v.without_all(ids.insert(id)),
{
    let a = v.without_all(ids).without(id);
    let b = v.without_all(ids.insert(id));
    assert forall|k: usize| a.groups.dom().contains(k) <==> b.groups.dom().contains(k) by {}
    assert forall|k: usize| a.groups.dom().contains(k) implies a.groups[k] == b.groups[k] by {
        if !v.groups.dom().contains(id) {
            assert(!v.groups[k].contains(id));
        }
        assert(a.groups[k] =~= b.groups[k]);
    }
    assert(a.groups =~= b.groups);
    assert(a.detached =~= b.detached);
}

/// Detaching one set of identifiers after another is detaching both.
pub proof fn lemma_without_all_twice(v: RegistryView, a: Set<usize>, b: Set<usize>)
    ensures
        v.without_all(a).without_all(b) == v.without_all(a.union(b)),
{
    let l = v.without_all(a).without_all(b);
    let r = v.without_all(a.union(b));
    assert forall|k: usize| l.groups.dom().contains(k) implies l.groups[k] == r.groups[k] by {
        assert(l.groups[k] =~= r.groups[k]);
    }
    assert(l.groups =~= r.groups);
    assert(l.detached =~= r.detached);
}

/// The entry `b` is a member that lists `a`.
spec fn linked(entries: Seq<Entry>, a: usize, b: usize) -> bool {
    &&& b < entries.len()
    &&& b != a
    &&& entries[b as int].standing is Member
    &&& entries[b as int].siblings@.contains(a)
}

/// The records of the table are consistent.
spec fn table_ok(entries: Seq<Entry>) -> bool {
    &&& forall|a: usize|
        a < entries.len() ==> (#[trigger] entries[a as int]).siblings@.no_duplicates()
    &&& forall|a: usize, i: int|
        a < entries.len() && entries[a as int].standing is Member && 0 <= i
            < entries[a as int].siblings@.len() ==> linked(
            entries,
            a,
            #[trigger] entries[a as int].siblings@[i],
        )
}

/// What a table of records holds.
spec fn table_view(entries: Seq<Entry>) -> RegistryView {
    RegistryView {
        issued: entries.len(),
        groups: Map::new(
            |id: usize| id < entries.len() && entries[id as int].standing is Member,
            |id: usize| entries[id as int].siblings@.to_set(),
        ),
        detached: Set::new(
            |id: usize| id < entries.len() && entries[id as int].standing is Detached,
        ),
    }
}

/// A consistent table holds a consistent registry.
proof fn lemma_table_valid(entries: Seq<Entry>)
    requires
        table_ok(entries),
    ensures
        table_view(entries).valid(),
{
    broadcast use seq_to_set_is_finite;

    let v = table_view(entries);
    assert forall|a: usize| #[trigger] v.groups.dom().contains(a) implies v.groups[a].finite()
        && !v.groups[a].contains(a) by {
        let s = entries[a as int].siblings@;
        if s.contains(a) {
            let i = choose|i: int| 0 <= i < s.len() && s[i] == a;
            assert(linked(entries, a, entries[a as int].siblings@[i]));
        }
    }
    assert forall|a: usize, b: usize|
        v.groups.dom().contains(a) && #[trigger] v.groups[a].contains(
            b,
        ) implies v.groups.dom().contains(b) && v.groups[b].contains(a) by {
        let s = entries[a as int].siblings@;
        let i = choose|i: int| 0 <= i < s.len() && s[i] == b;
        assert(linked(entries, a, entries[a as int].siblings@[i]));
    }
}

/// The table `after` arises from the consistent table `before` by giving
/// the identifiers `ids`, all without a record and each listed once, the
/// others of `ids` as siblings: then `after` is consistent and holds what
/// `before` holds and the new group.
proof fn lemma_register_table(before: Seq<Entry>, after: Seq<Entry>, ids: Seq<usize>)
    requires
        table_ok(before),
        before.len() == after.len(),
        ids.no_duplicates(),
        forall|k: int| 0 <= k < ids.len() ==> #[trigger] ids[k] < before.len(),
        forall|k: int|
            0 <= k < ids.len() ==> before[(#[trigger] ids[k]) as int].standing is Unregistered,
        forall|a: usize|
            a < before.len() && !ids.contains(a) ==> (#[trigger] after[a as int])
                == before[a as int],
        forall|a: usize|
            a < before.len() && ids.contains(a) ==> (#[trigger] after[a as int]).standing is Member
                && after[a as int].siblings@.no_duplicates(),
        forall|a: usize, x: usize|
            a < before.len() && ids.contains(a) ==> (#[trigger] after[a as int].siblings@.contains(
                x,
            ) <==> ids.contains(x) && x != a),
    ensures
        table_ok(after),
        table_view(after).valid(),
        table_view(after) == table_view(before).with_group(ids),
{
    assert forall|a: usize| a < after.len() implies (
    #[trigger] after[a as int]).siblings@.no_duplicates() by {
        if !ids.contains(a) {
            assert(after[a as int] == before[a as int]);
        }
    }
    assert forall|a: usize, j: int|
        a < after.len() && after[a as int].standing is Member && 0 <= j
            < after[a as int].siblings@.len() implies linked(
        after,
        a,
        #[trigger] after[a as int].siblings@[j],
    ) by {
        let b = after[a as int].siblings@[j];
        assert(after[a as int].siblings@.contains(b));
        if ids.contains(a) {
            assert(ids.contains(b) && b != a);
            let m = choose|m: int| 0 <= m < ids.len() && ids[m] == b;
            assert(ids[m] < before.len());
            assert(after[b as int].siblings@.contains(a));
        } else {
            assert(after[a as int] == before[a as int]);
            assert(linked(before, a, before[a as int].siblings@[j]));
            if ids.contains(b) {
                let m = choose|m: int| 0 <= m < ids.len() && ids[m] == b;
                assert(before[ids[m] as int].standing is Unregistered);
            }
            assert(after[b as int] == before[b as int]);
        }
    }
    lemma_table_valid(after);
    let want = table_view(before).with_group(ids);
    let got = table_view(after);
    assert forall|id: usize| got.groups.dom().contains(id) <==> want.groups.dom().contains(
        id,
    ) by {
        if ids.contains(id) {
            let k = choose|k: int| 0 <= k < ids.len() && ids[k] == id;
            assert(ids[k] < before.len());
            assert(after[id as int].standing is Member);
        } else if id < before.len() {
            assert(after[id as int] == before[id as int]);
        }
    }
    assert forall|id: usize| got.groups.dom().contains(id) implies got.groups[id]
        == want.groups[id] by {
        if ids.contains(id) {
            assert(after[id as int].siblings@.to_set() =~= ids.to_set().remove(id));
        } else {
            assert(after[id as int] == before[id as int]);
        }
    }
    assert(got.groups =~= want.groups);
    assert forall|id: usize| got.detached.contains(id) <==> want.detached.contains(id) by {
        if id < before.len() {
            if ids.contains(id) {
                let k = choose|k: int| 0 <= k < ids.len() && ids[k] == id;
                assert(before[ids[k] as int].standing is Unregistered);
                assert(after[id as int].standing is Member);
            } else {
                assert(after[id as int] == before[id as int]);
            }
        }
    }
    assert(got.detached =~= want.detached);
}

/// The table `after` arises from the consistent table `before` by taking
/// `id` out of every list and marking it detached: then `after` is
/// consistent and holds what `before` holds without `id`.
proof fn lemma_detach_table(before: Seq<Entry>, after: Seq<Entry>, id: usize)
    requires
        table_ok(before),
        before.len() == after.len(),
        id < before.len(),
        before[id as int].standing is Member,
        after[id as int].standing is Detached,
        after[id as int].siblings@.len() == 0,
        forall|a: usize|
            a < after.len() && a != id ==> (#[trigger] after[a as int]).standing
                == before[a as int].standing && after[a as int].siblings@.no_duplicates(),
        forall|a: usize, x: usize|
            a < after.len() && a != id && before[a as int].standing is Member ==> (
            #[trigger] after[a as int].siblings@.contains(x) <==> before[a as int].siblings@.contains(
                x,
            ) && x != id),
    ensures
        table_ok(after),
        table_view(after).valid(),
        table_view(after) == table_view(before).without(id),
{
    assert forall|a: usize, i: int|
        a < after.len() && after[a as int].standing is Member && 0 <= i
            < after[a as int].siblings@.len() implies linked(
        after,
        a,
        #[trigger] after[a as int].siblings@[i],
    ) by {
        let b = after[a as int].siblings@[i];
        assert(after[a as int].siblings@.contains(b));
        assert(before[a as int].siblings@.contains(b) && b != id);
        let j = choose|j: int|
            0 <= j < before[a as int].siblings@.len() && before[a as int].siblings@[j] == b;
        assert(linked(before, a, before[a as int].siblings@[j]));
        assert(before[b as int].siblings@.contains(a));
        assert(after[b as int].siblings@.contains(a));
    }
    lemma_table_valid(after);
    let want = table_view(before).without(id);
    let got = table_view(after);
    assert forall|k: usize| got.groups.dom().contains(k) implies got.groups[k]
        == want.groups[k] by {
        assert(after[k as int].siblings@.to_set() =~= before[k as int].siblings@.to_set().remove(
            id,
        ));
    }
    assert(got.groups =~= want.groups);
    assert(got.detached =~= want.detached);
}

/// Copies a list, leaving out `id`.
fn list_without(list: &Vec<usize>, id: usize) -> (out: Vec<usize>)
    requires
        list@.no_duplicates(),
    ensures
        out@.no_duplicates(),
        forall|x: usize| out@.contains(x) <==> list@.contains(x) && x != id,
{
    let mut out: Vec<usize> = Vec::new();
    let mut i: usize = 0;
    while i < list.len()
        invariant
            i <= list@.len(),
            list@.no_duplicates(),
            out@.no_duplicates(),
            forall|x: usize|
                out@.contains(x) <==> (exists|k: int| 0 <= k < i && list@[k] == x) && x != id,
        decreases list@.len() - i,
    {
        let x = list[i];
        if x != id {
            proof {
                broadcast use lemma_seq_contains_after_push;

                assert(!out@.contains(x)) by {
                    if out@.contains(x) {
                        let k = choose|k: int| 0 <= k < i && list@[k] == x;
                        assert(list@[k] == list@[i as int]);
                    }
                }
                let pushed = out@.push(x);
                assert forall|y: usize|
                    pushed.contains(y) <==> (exists|k: int| 0 <= k < i + 1 && list@[k] == y) && y
                        != id by {
                    if pushed.contains(y) {
                        if y == x {
                            assert(list@[i as int] == y);
                        } else {
                            assert(out@.contains(y));
                            let k = choose|k: int| 0 <= k < i && list@[k] == y;
                            assert(0 <= k < i + 1 && list@[k] == y);
                        }
                    }
                    if (exists|k: int| 0 <= k < i + 1 && list@[k] == y) && y != id {
                        let k = choose|k: int| 0 <= k < i + 1 && list@[k] == y;
                        if k < i {
                            assert(out@.contains(y));
                        }
                    }
                }
            }
            out.push(x);
        } else {
            proof {
                assert forall|y: usize|
                    out@.contains(y) <==> (exists|k: int| 0 <= k < i + 1 && list@[k] == y) && y
                        != id by {
                    if out@.contains(y) {
                        let k = choose|k: int| 0 <= k < i && list@[k] == y;
                        assert(0 <= k < i + 1 && list@[k] == y);
                    }
                    if (exists|k: int| 0 <= k < i + 1 && list@[k] == y) && y != id {
                        let k = choose|k: int| 0 <= k < i + 1 && list@[k] == y;
                        assert(k < i);
                    }
                }
            }
        }
        i += 1;
    }
    out
}

impl View for Registry {
    type V = RegistryView;

    closed spec fn view(&self) -> RegistryView {
        table_view(self.entries@)
    }
}

impl Registry {
    /// The table is consistent with itself.
    pub closed spec fn inv(&self) -> bool {
        table_ok(self.entries@)
    }

    /// The registry is in order: its table is consistent, and so is what it
    /// holds.
    pub open spec fn wf(&self) -> bool {
        self.inv() && self@.valid()
    }

    /// A registry that has issued no identifier.
    pub fn new() -> (r: Registry)
        ensures
            r.wf(),
            r@.issued == 0,
            r@.groups == Map::<usize, Set<usize>>::empty(),
            r@.detached == Set::<usize>::empty(),
    {
        let r = Registry { entries: Vec::new() };
        proof {
            lemma_table_valid(r.entries@);
            assert(r@.groups =~= Map::<usize, Set<usize>>::empty());
            assert(r@.detached =~= Set::<usize>::empty());
        }
        r
    }

    /// Number of identifiers issued so far.
    pub fn issued(&self) -> (n: usize)
        ensures
            n == self@.issued,
    {
        self.entries.len()
    }

    /// Issues the next identifier. It has no record yet.
    pub fn issue(&mut self) -> (id: usize)
        requires
            old(self).wf(),
        ensures
            final(self).wf(),
            id == old(self)@.issued,
            final(self)@ == (RegistryView { issued: old(self)@.issued + 1, ..old(self)@ }),
    {
        let id = self.entries.len();
        self.entries.push(Entry { standing: Standing::Unregistered, siblings: Vec::new() });
        proof {
            let before = old(self).entries@;
            let after = self.entries@;
            assert forall|a: usize, i: int|
                a < after.len() && after[a as int].standing is Member && 0 <= i
                    < after[a as int].siblings@.len() implies linked(
                after,
                a,
                #[trigger] after[a as int].siblings@[i],
            ) by {
                assert(after[a as int] == before[a as int]);
                let b = before[a as int].siblings@[i];
                assert(linked(before, a, b));
                assert(after[b as int] == before[b as int]);
            }
            assert forall|a: usize| a < after.len() implies (
            #[trigger] after[a as int]).siblings@.no_duplicates() by {
                if a < before.len() {
                    assert(after[a as int] == before[a as int]);
                }
            }
            lemma_table_valid(after);
            assert(table_view(after).groups =~= table_view(before).groups);
            assert(table_view(after).detached =~= table_view(before).detached);
        }
        id
    }

    /// Tells whether `id` has a record, that is, belongs to a group.
    pub fn has_record(&self, id: usize) -> (b: bool)
        ensures
            b == self@.groups.dom().contains(id),
    {
        id < self.entries.len() && matches!(self.entries[id].standing, Standing::Member)
    }

    /// Tells whether `id` was detached.
    pub fn was_detached(&self, id: usize) -> (b: bool)
        ensures
            b == self@.detached.contains(id),
    {
        id < self.entries.len() && matches!(self.entries[id].standing, Standing::Detached)
    }

    /// The other members of the group of `id`, each once. A cell without a
    /// record, and one whose siblings are all gone, has none.
    pub fn group_of(&self, id: usize) -> (members: Vec<usize>)
        requires
            self.wf(),
        ensures
            members@.to_set() == self@.group(id),
            members@.no_duplicates(),
    {
        if id < self.entries.len() && matches!(self.entries[id].standing, Standing::Member) {
            let members = list_without(&self.entries[id].siblings, id);
            proof {
                let s = self.entries@[id as int].siblings@;
                assert(self@.groups[id] == s.to_set());
                assert(!self@.groups[id].contains(id));
                assert(members@.to_set() =~= s.to_set());
            }
            members
        } else {
            let members: Vec<usize> = Vec::new();
            assert(members@.to_set() =~= Set::<usize>::empty());
            members
        }
    }

    /// Tells whether the identifiers `ids` can be registered as a group,
    /// and if not, why.
    pub fn check_group(&self, ids: &Vec<usize>) -> (r: Result<(), RegistryError>)
        ensures
            r == self@.registrable(ids@),
    {
        let n = ids.len();
        let mut i: usize = 0;
        while i < n
            invariant
                i <= n,
                n == ids@.len(),
                forall|k: int| 0 <= k < i ==> #[trigger] ids@[k] < self@.issued,
            decreases n - i,
        {
            if ids[i] >= self.entries.len() {
                return Err(RegistryError::UnknownId);
            }
            i += 1;
        }
        i = 0;
        while i < n
            invariant
                i <= n,
                n == ids@.len(),
                forall|k: int| 0 <= k < n ==> #[trigger] ids@[k] < self@.issued,
                forall|k: int|
                    0 <= k < i ==> !self@.groups.dom().contains(#[trigger] ids@[k])
                        && !self@.detached.contains(ids@[k]),
            decreases n - i,
        {
            if !matches!(self.entries[ids[i]].standing, Standing::Unregistered) {
                assert(self@.groups.dom().contains(ids@[i as int]) || self@.detached.contains(
                    ids@[i as int],
                ));
                return Err(RegistryError::IdTaken);
            }
            i += 1;
        }
        i = 0;
        while i < n
            invariant
                i <= n,
                n == ids@.len(),
                forall|k: int| 0 <= k < n ==> #[trigger] ids@[k] < self@.issued,
                forall|k: int|
                    0 <= k < n ==> !self@.groups.dom().contains(#[trigger] ids@[k])
                        && !self@.detached.contains(ids@[k]),
                forall|a: int, b: int| 0 <= a < i && a < b < n ==> ids@[a] != ids@[b],
            decreases n - i,
        {
            let mut j: usize = i + 1;
            while j < n
                invariant
                    i < j <= n,
                    n == ids@.len(),
                    forall|k: int| 0 <= k < n ==> #[trigger] ids@[k] < self@.issued,
                    forall|k: int|
                        0 <= k < n ==> !self@.groups.dom().contains(#[trigger] ids@[k])
                            && !self@.detached.contains(ids@[k]),
                    forall|b: int| i < b < j ==> ids@[i as int] != ids@[b],
                decreases n - j,
            {
                if ids[i] == ids[j] {
                    assert(!ids@.no_duplicates());
                    return Err(RegistryError::DuplicateId);
                }
                j += 1;
            }
            i += 1;
        }
        assert(ids@.no_duplicates());
        Ok(())
    }

    /// Records the cells `ids` as one group, each the sibling of every
    /// other. The identifiers must have been issued, be new to the registry,
    /// and be listed once each; otherwise nothing is recorded.
    pub fn register_group(&mut self, ids: &Vec<usize>) -> (r: Result<(), RegistryError>)
        requires
            old(self).wf(),
        ensures
            final(self).wf(),
            r == old(self)@.registrable(ids@),
            r.is_ok() ==> final(self)@ == old(self)@.with_group(ids@),
            r.is_err() ==> final(self)@ == old(self)@,
    {
        match self.check_group(ids) {
            Err(e) => {
                return Err(e);
            },
            Ok(()) => {},
        }
        let n = ids.len();
        let ghost before = self.entries@;
        let mut i: usize = 0;
        while i < n
            invariant
                i <= n,
                n == ids@.len(),
                ids@.no_duplicates(),
                before.len() == self.entries@.len(),
                forall|k: int| 0 <= k < n ==> #[trigger] ids@[k] < before.len(),
                forall|a: usize|
                    a < before.len() && !ids@.take(i as int).contains(a) ==> (
                    #[trigger] self.entries@[a as int]) == before[a as int],
                forall|a: usize|
                    a < before.len() && ids@.take(i as int).contains(a) ==> (
                    #[trigger] self.entries@[a as int]).standing is Member
                        && self.entries@[a as int].siblings@.no_duplicates(),
                forall|a: usize, x: usize|
                    a < before.len() && ids@.take(i as int).contains(a) ==> (
                    #[trigger] self.entries@[a as int].siblings@.contains(x) <==> ids@.contains(x)
                        && x != a),
            decreases n - i,
        {
            let id = ids[i];
            let siblings = list_without(ids, id);
            let ghost mid = self.entries@;
            self.entries[id] = Entry { standing: Standing::Member, siblings };
            proof {
                let t0 = ids@.take(i as int);
                let t1 = ids@.take(i + 1);
                assert(t1[i as int] == id);
                assert(!t0.contains(id)) by {
                    if t0.contains(id) {
                        let k = choose|k: int| 0 <= k < t0.len() && t0[k] == id;
                        assert(ids@[k] == ids@[i as int]);
                    }
                }
                assert forall|a: usize| t1.contains(a) <==> t0.contains(a) || a == id by {
                    if t1.contains(a) {
                        let k = choose|k: int| 0 <= k < t1.len() && t1[k] == a;
                        if k < i {
                            assert(t0[k] == a);
                        }
                    }
                    if t0.contains(a) {
                        let k = choose|k: int| 0 <= k < t0.len() && t0[k] == a;
                        assert(t1[k] == a);
                    }
                }
                assert forall|a: usize| a < before.len() && a != id implies self.entries@[a as int]
                    == mid[a as int] by {}
            }
            i += 1;
        }
        proof {
            assert(ids@.take(n as int) =~= ids@);
            lemma_register_table(before, self.entries@, ids@);
        }
        Ok(())
    }

    /// Detaches `id`: takes it out of the sibling list of every other member
    /// of its group and deletes its own record. An identifier without a
    /// record is left as it is. Afterwards the sibling relation is symmetric
    /// as before: nobody lists `id`, and `id` lists nobody.
    pub fn detach(&mut self, id: usize)
        requires
            old(self).wf(),
        ensures
            final(self).wf(),
            final(self)@ == old(self)@.without(id),
            final(self)@.symmetric(),
    {
        proof {
            lemma_detach_symmetric(old(self)@, id);
        }
        if !(id < self.entries.len() && matches!(self.entries[id].standing, Standing::Member)) {
            return ;
        }
        let ghost before = self.entries@;
        let ghost list = before[id as int].siblings@;
        let n = self.entries[id].siblings.len();
        let mut i: usize = 0;
        while i < n
            invariant
                i <= n,
                n == list.len(),
                id < before.len(),
                before[id as int].standing is Member,
                list == before[id as int].siblings@,
                table_ok(before),
                before.len() == self.entries@.len(),
                self.entries@[id as int] == before[id as int],
                forall|a: usize|
                    a < before.len() && !list.take(i as int).contains(a) ==> (
                    #[trigger] self.entries@[a as int]) == before[a as int],
                forall|a: usize|
                    a < before.len() && list.take(i as int).contains(a) ==> (
                    #[trigger] self.entries@[a as int]).standing is Member
                        && self.entries@[a as int].siblings@.no_duplicates(),
                forall|a: usize, x: usize|
                    a < before.len() && list.take(i as int).contains(a) ==> (
                    #[trigger] self.entries@[a as int].siblings@.contains(x)
                        <==> before[a as int].siblings@.contains(x) && x != id),
            decreases n - i,
        {
            let sibling = self.entries[id].siblings[i];
            let ghost t0 = list.take(i as int);
            let ghost t1 = list.take(i + 1);
            proof {
                assert(linked(before, id, before[id as int].siblings@[i as int]));
                assert(!t0.contains(sibling)) by {
                    if t0.contains(sibling) {
                        let k = choose|k: int| 0 <= k < t0.len() && t0[k] == sibling;
                        assert(list[k] == list[i as int]);
                    }
                }
                assert(self.entries@[sibling as int] == before[sibling as int]);
            }
            let siblings = list_without(&self.entries[sibling].siblings, id);
            let ghost mid = self.entries@;
            self.entries[sibling] = Entry { standing: Standing::Member, siblings };
            proof {
                assert(t1[i as int] == sibling);
                assert forall|a: usize| t1.contains(a) <==> t0.contains(a) || a == sibling by {
                    if t1.contains(a) {
                        let k = choose|k: int| 0 <= k < t1.len() && t1[k] == a;
                        if k < i {
                            assert(t0[k] == a);
                        }
                    }
                    if t0.contains(a) {
                        let k = choose|k: int| 0 <= k < t0.len() && t0[k] == a;
                        assert(t1[k] == a);
                    }
                }
                assert forall|a: usize|
                    a < before.len() && a != sibling implies self.entries@[a as int]
                    == mid[a as int] by {}
            }
            i += 1;
        }
        let ghost mid = self.entries@;
        self.entries[id] = Entry { standing: Standing::Detached, siblings: Vec::new() };
        proof {
            let after = self.entries@;
            assert(list.take(n as int) =~= list);
            assert forall|a: usize| a < before.len() && a != id implies after[a as int]
                == mid[a as int] by {}
            assert forall|a: usize| a < after.len() && a != id implies (
            #[trigger] after[a as int]).standing == before[a as int].standing
                && after[a as int].siblings@.no_duplicates() by {
                if list.contains(a) {
                    let k = choose|k: int| 0 <= k < list.len() && list[k] == a;
                    assert(linked(before, id, before[id as int].siblings@[k]));
                } else {
                    assert(mid[a as int] == before[a as int]);
                }
            }
            assert forall|a: usize, x: usize|
                a < after.len() && a != id && before[a as int].standing is Member implies (
            #[trigger] after[a as int].siblings@.contains(x) <==> before[a as int].siblings@.contains(
                x,
            ) && x != id) by {
                if !list.contains(a) {
                    assert(mid[a as int] == before[a as int]);
                    if before[a as int].siblings@.contains(id) {
                        let j = choose|j: int|
                            0 <= j < before[a as int].siblings@.len()
                                && before[a as int].siblings@[j] == id;
                        assert(linked(before, a, before[a as int].siblings@[j]));
                    }
                }
            }
            lemma_detach_table(before, after, id);
        }
    }
}

} // verus!
