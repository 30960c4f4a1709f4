//! Metadata records stored in the catalog and their pure, in-memory
//! operations: `ShareMeta` with its grant bookkeeping, the per-account
//! membership record, and the two reverse-index records.

use vstd::prelude::*;

use crate::types::ShareGrantEntry;
use crate::types::ShareGrantObject;

verus! {

/// The set of views of a sequence of account names.
pub open spec fn accounts_set(s: Seq<String>) -> Set<Seq<char>>
    decreases s.len(),
{
    if s.len() == 0 {
        Set::empty()
    } else {
        accounts_set(s.drop_last()).insert(s.last()@)
    }
}

/// Membership in `accounts_set` is membership (by view) in the sequence.
pub proof fn lemma_accounts_set_contains(s: Seq<String>, a: Seq<char>)
    ensures
        accounts_set(s).contains(a) <==> (exists|i: int| 0 <= i < s.len() && s[i]@ == a),
    decreases s.len(),
{
    if s.len() > 0 {
        lemma_accounts_set_contains(s.drop_last(), a);
        if exists|i: int| 0 <= i < s.len() && s[i]@ == a {
            let i = choose|i: int| 0 <= i < s.len() && s[i]@ == a;
            if i < s.len() - 1 {
                assert(s.drop_last()[i]@ == a);
            }
        }
    }
}

/// The set of a sequence of share ids.
pub open spec fn ids_set(s: Seq<u64>) -> Set<u64>
    decreases s.len(),
{
    if s.len() == 0 {
        Set::empty()
    } else {
        ids_set(s.drop_last()).insert(s.last())
    }
}

/// Membership in `ids_set` is membership in the sequence.
pub proof fn lemma_ids_set_contains(s: Seq<u64>, id: u64)
    ensures
        ids_set(s).contains(id) <==> s.contains(id),
    decreases s.len(),
{
    if s.len() > 0 {
        lemma_ids_set_contains(s.drop_last(), id);
        if s.contains(id) {
            let i = choose|i: int| 0 <= i < s.len() && s[i] == id;
            if i < s.len() - 1 {
                assert(s.drop_last()[i] == id);
            }
        }
    }
}

/// The map from granted object to grant entry held by a sequence of
/// entries; a later entry for the same object wins.
pub open spec fn entries_map(s: Seq<ShareGrantEntry>) -> Map<ShareGrantObject, ShareGrantEntry>
    decreases s.len(),
{
    if s.len() == 0 {
        Map::empty()
    } else {
        entries_map(s.drop_last()).insert(s.last().object, s.last())
    }
}

/// An object is a key of `entries_map` exactly when some entry carries it.
pub proof fn lemma_entries_map_contains(s: Seq<ShareGrantEntry>, o: ShareGrantObject)
    ensures
        entries_map(s).contains_key(o) <==> (exists|i: int| 0 <= i < s.len() && s[i].object == o),
    decreases s.len(),
{
    if s.len() > 0 {
        lemma_entries_map_contains(s.drop_last(), o);
        if exists|i: int| 0 <= i < s.len() && s[i].object == o {
            let i = choose|i: int| 0 <= i < s.len() && s[i].object == o;
            if i < s.len() - 1 {
                assert(s.drop_last()[i].object == o);
            }
        }
    }
}

/// When the entries carry pairwise distinct objects, the map returns the
/// unique entry that carries the key.
pub proof fn lemma_entries_map_index(s: Seq<ShareGrantEntry>, i: int)
    requires
        forall|j: int, k: int|
            0 <= j < k < s.len() ==> (#[trigger] s[j]).object != (#[trigger] s[k]).object,
        0 <= i < s.len(),
    ensures
        entries_map(s).contains_key(s[i].object),
        entries_map(s)[s[i].object] == s[i],
    decreases s.len(),
{
    if i < s.len() - 1 {
        lemma_entries_map_index(s.drop_last(), i);
        assert(s.drop_last()[i] == s[i]);
        assert(s[i].object != s.last().object);
    }
}

/// Per-(account, share) membership record. Its existence in the catalog
/// asserts that the account is invited to the share.
pub struct ShareAccountMeta {
    pub account: String,
    pub share_id: u64,
    pub share_on: u64,
}

/// Mathematical image of a `ShareAccountMeta`.
pub struct ShareAccountMetaV {
    pub account: Seq<char>,
    pub share_id: u64,
    pub share_on: u64,
}

impl View for ShareAccountMeta {
    type V = ShareAccountMetaV;

    open spec fn view(&self) -> ShareAccountMetaV {
        ShareAccountMetaV {
            account: self.account@,
            share_id: self.share_id,
            share_on: self.share_on,
        }
    }
}

impl ShareAccountMeta {
    /// Build a fresh membership record.
    pub fn new(account: String, share_id: u64, share_on: u64) -> (r: Self)
        ensures
            r@ == (ShareAccountMetaV { account: account@, share_id, share_on }),
    {
        ShareAccountMeta { account, share_id, share_on }
    }
}

impl Clone for ShareAccountMeta {
    fn clone(&self) -> (r: Self)
        ensures
            r@ == self@,
    {
        ShareAccountMeta {
            account: self.account.clone(),
            share_id: self.share_id,
            share_on: self.share_on,
        }
    }
}

/// Reverse index record: the ids of every share that currently references
/// a given object.
pub struct ObjectSharedByShareIds {
    pub share_ids: Vec<u64>,
}

impl View for ObjectSharedByShareIds {
    type V = Set<u64>;

    open spec fn view(&self) -> Set<u64> {
        ids_set(self.share_ids@)
    }
}

impl ObjectSharedByShareIds {
    /// The ids listed are pairwise distinct.
    pub open spec fn wf(&self) -> bool {
        forall|i: int, j: int|
            0 <= i < j < self.share_ids@.len() ==> self.share_ids@[i] != self.share_ids@[j]
    }

    /// An empty reverse index record.
    pub fn empty() -> (r: Self)
        ensures
            r@ == Set::<u64>::empty(),
            r.wf(),
    {
        ObjectSharedByShareIds { share_ids: Vec::new() }
    }

    /// Whether `share_id` is listed.
    pub fn contains(&self, share_id: u64) -> (r: bool)
        ensures
            r == self@.contains(share_id),
    {
        proof {
            lemma_ids_set_contains(self.share_ids@, share_id);
        }
        let n = self.share_ids.len();
        let mut i: usize = 0;
        while i < n
            invariant
                0 <= i <= n,
                forall|k: int| 0 <= k < i ==> self.share_ids@[k] != share_id,
            decreases n - i,
        {
            if self.share_ids[i] == share_id {
                return true;
            }
            i += 1;
        }
        false
    }

    /// List `share_id`; listing an id twice changes nothing.
    pub fn add(&mut self, share_id: u64)
        requires
            old(self).wf(),
        ensures
            final(self).wf(),
            final(self)@ == old(self)@.insert(share_id),
    {
        proof {
            lemma_ids_set_contains(self.share_ids@, share_id);
        }
        if !self.contains(share_id) {
            self.share_ids.push(share_id);
            proof {
                assert(self.share_ids@.drop_last() == old(self).share_ids@);
            }
        } else {
            proof {
                assert(old(self)@.insert(share_id) =~= old(self)@);
            }
        }
    }

    /// Unlist `share_id`; unlisting an absent id changes nothing.
    pub fn remove(&mut self, share_id: u64)
        requires
            old(self).wf(),
        ensures
            final(self).wf(),
            final(self)@ == old(self)@.remove(share_id),
    {
        let ghost s0 = self.share_ids@;
        proof {
            lemma_ids_set_contains(s0, share_id);
        }
        let n = self.share_ids.len();
        let mut i: usize = 0;
        while i < n
            invariant
                0 <= i <= n,
                self.share_ids@ == s0,
                forall|k: int| 0 <= k < i ==> s0[k] != share_id,
            decreases n - i,
        {
            if self.share_ids[i] == share_id {
                self.share_ids.remove(i);
                proof {
                    lemma_ids_set_removed(s0, i as int);
                }
                return ;
            }
            i += 1;
        }
        proof {
            assert(!s0.contains(share_id));
            assert(old(self)@.remove(share_id) =~= old(self)@);
        }
    }
}

impl Clone for ObjectSharedByShareIds {
    fn clone(&self) -> (r: Self)
        ensures
            r@ == self@,
            r.wf() == self.wf(),
    {
        let mut ids: Vec<u64> = Vec::new();
        let n = self.share_ids.len();
        let mut i: usize = 0;
        while i < n
            invariant
                0 <= i <= n,
                ids@ == self.share_ids@.take(i as int),
            decreases n - i,
        {
            ids.push(self.share_ids[i]);
            proof {
                assert(ids@ =~= self.share_ids@.take(i + 1 as int));
            }
            i += 1;
        }
        proof {
            assert(ids@ =~= self.share_ids@);
        }
        ObjectSharedByShareIds { share_ids: ids }
    }
}

/// Removing the element at position `i` of a duplicate-free sequence
/// removes exactly that element from the set of its members.
proof fn lemma_ids_set_removed(s: Seq<u64>, i: int)
    requires
        0 <= i < s.len(),
        forall|j: int, k: int| 0 <= j < k < s.len() ==> s[j] != s[k],
    ensures
        ids_set(s.remove(i)) == ids_set(s).remove(s[i]),
        forall|j: int, k: int|
            0 <= j < k < s.remove(i).len() ==> s.remove(i)[j] != s.remove(i)[k],
{
    let r = s.remove(i);
    assert forall|j: int, k: int| 0 <= j < k < r.len() implies r[j] != r[k] by {
        if k < i {
            assert(r[j] == s[j] && r[k] == s[k]);
        } else if j < i {
            assert(r[j] == s[j] && r[k] == s[k + 1]);
        } else {
            assert(r[j] == s[j + 1] && r[k] == s[k + 1]);
        }
    }
    assert forall|x: u64| ids_set(r).contains(x) implies ids_set(s).remove(s[i]).contains(x) by {
        lemma_ids_set_contains(r, x);
        lemma_ids_set_contains(s, x);
        let j = choose|j: int| 0 <= j < r.len() && r[j] == x;
        if j < i {
            assert(s[j] == x);
            assert(x != s[i]);
        } else {
            assert(s[j + 1] == x);
            assert(x != s[i]);
        }
    }
    assert forall|x: u64| ids_set(s).remove(s[i]).contains(x) implies ids_set(r).contains(x) by {
        lemma_ids_set_contains(r, x);
        lemma_ids_set_contains(s, x);
        let j = choose|j: int| 0 <= j < s.len() && s[j] == x;
        if j < i {
            assert(r[j] == x);
        } else {
            assert(j != i);
            assert(r[j - 1] == x);
        }
    }
    assert(ids_set(s.remove(i)) =~= ids_set(s).remove(s[i]));
}

/// The metadata the database catalog keeps of a database, as far as the
/// share catalog reads or writes it: the ids of the shares that currently
/// grant the database.
pub struct DatabaseMeta {
    pub shared_by: Vec<u64>,
}

impl View for DatabaseMeta {
    type V = Set<u64>;

    open spec fn view(&self) -> Set<u64> {
        ids_set(self.shared_by@)
    }
}

impl DatabaseMeta {
    /// The ids listed are pairwise distinct.
    pub open spec fn wf(&self) -> bool {
        forall|i: int, j: int|
            0 <= i < j < self.shared_by@.len() ==> self.shared_by@[i] != self.shared_by@[j]
    }

    /// A database shared by nobody.
    pub fn new() -> (r: Self)
        ensures
            r@ == Set::<u64>::empty(),
            r.wf(),
    {
        DatabaseMeta { shared_by: Vec::new() }
    }

    /// Whether `share_id` currently shares the database.
    pub fn contains(&self, share_id: u64) -> (r: bool)
        ensures
            r == self@.contains(share_id),
    {
        proof {
            lemma_ids_set_contains(self.shared_by@, share_id);
        }
        let n = self.shared_by.len();
        let mut i: usize = 0;
        while i < n
            invariant
                0 <= i <= n,
                forall|k: int| 0 <= k < i ==> self.shared_by@[k] != share_id,
            decreases n - i,
        {
            if self.shared_by[i] == share_id {
                return true;
            }
            i += 1;
        }
        false
    }

    /// Record that `share_id` shares the database.
    pub fn insert(&mut self, share_id: u64)
        requires
            old(self).wf(),
        ensures
            final(self).wf(),
            final(self)@ == old(self)@.insert(share_id),
    {
        proof {
            lemma_ids_set_contains(self.shared_by@, share_id);
        }
        if !self.contains(share_id) {
            self.shared_by.push(share_id);
            proof {
                assert(self.shared_by@.drop_last() == old(self).shared_by@);
            }
        } else {
            proof {
                assert(old(self)@.insert(share_id) =~= old(self)@);
            }
        }
    }

    /// Record that `share_id` no longer shares the database.
    pub fn remove(&mut self, share_id: u64)
        requires
            old(self).wf(),
        ensures
            final(self).wf(),
            final(self)@ == old(self)@.remove(share_id),
    {
        let ghost s0 = self.shared_by@;
        proof {
            lemma_ids_set_contains(s0, share_id);
        }
        let n = self.shared_by.len();
        let mut i: usize = 0;
        while i < n
            invariant
                0 <= i <= n,
                self.shared_by@ == s0,
                forall|k: int| 0 <= k < i ==> s0[k] != share_id,
            decreases n - i,
        {
            if self.shared_by[i] == share_id {
                self.shared_by.remove(i);
                proof {
                    lemma_ids_set_removed(s0, i as int);
                }
                return ;
            }
            i += 1;
        }
        proof {
            assert(!s0.contains(share_id));
            assert(old(self)@.remove(share_id) =~= old(self)@);
        }
    }
}

impl Clone for DatabaseMeta {
    fn clone(&self) -> (r: Self)
        ensures
            r@ == self@,
            r.wf() == self.wf(),
    {
        let mut ids: Vec<u64> = Vec::new();
        let n = self.shared_by.len();
        let mut i: usize = 0;
        while i < n
            invariant
                0 <= i <= n,
                ids@ == self.shared_by@.take(i as int),
            decreases n - i,
        {
            ids.push(self.shared_by[i]);
            proof {
                assert(ids@ =~= self.shared_by@.take(i + 1 as int));
            }
            i += 1;
        }
        proof {
            assert(ids@ =~= self.shared_by@);
        }
        DatabaseMeta { shared_by: ids }
    }
}

/// The metadata the database catalog keeps of a table. The share catalog
/// never reads its content; it only pins the record's sequence number in
/// transaction conditions.
#[derive(Clone, Copy, PartialEq, Eq, Structural)]
pub struct TableMeta {
    pub created_on: u64,
}

/// Updating position `i` with an entry that carries the same object
/// overwrites that object's binding in the entry map.
pub proof fn lemma_entries_map_update(s: Seq<ShareGrantEntry>, i: int, e: ShareGrantEntry)
    requires
        forall|j: int, k: int|
            0 <= j < k < s.len() ==> (#[trigger] s[j]).object != (#[trigger] s[k]).object,
        0 <= i < s.len(),
        e.object == s[i].object,
    ensures
        entries_map(s.update(i, e)) == entries_map(s).insert(e.object, e),
        forall|j: int, k: int|
            0 <= j < k < s.update(i, e).len() ==> (#[trigger] s.update(i, e)[j]).object != (
            #[trigger] s.update(i, e)[k]).object,
    decreases s.len(),
{
    let t = s.update(i, e);
    if i < s.len() - 1 {
        assert(t.drop_last() =~= s.drop_last().update(i, e));
        assert(t.last() == s.last());
        lemma_entries_map_update(s.drop_last(), i, e);
        assert(e.object != s.last().object);
        assert(entries_map(s.drop_last()).insert(e.object, e).insert(s.last().object, s.last())
            =~= entries_map(s.drop_last()).insert(s.last().object, s.last()).insert(e.object, e));
    } else {
        assert(t.drop_last() =~= s.drop_last());
        assert(t.last() == e);
        assert(entries_map(s.drop_last()).insert(e.object, e) =~= entries_map(s.drop_last()).insert(
            s[i].object,
            s[i],
        ).insert(e.object, e));
    }
}

/// Removing the entry at position `i` of an object-unique sequence removes
/// exactly that object's binding from the entry map.
pub proof fn lemma_entries_map_removed(s: Seq<ShareGrantEntry>, i: int)
    requires
        forall|j: int, k: int|
            0 <= j < k < s.len() ==> (#[trigger] s[j]).object != (#[trigger] s[k]).object,
        0 <= i < s.len(),
    ensures
        entries_map(s.remove(i)) == entries_map(s).remove(s[i].object),
        forall|j: int, k: int|
            0 <= j < k < s.remove(i).len() ==> (#[trigger] s.remove(i)[j]).object != (
            #[trigger] s.remove(i)[k]).object,
    decreases s.len(),
{
    let r = s.remove(i);
    assert forall|j: int, k: int| 0 <= j < k < r.len() implies (#[trigger] r[j]).object != (
    #[trigger] r[k]).object by {
        if k < i {
            assert(r[j] == s[j] && r[k] == s[k]);
        } else if j < i {
            assert(r[j] == s[j] && r[k] == s[k + 1]);
        } else {
            assert(r[j] == s[j + 1] && r[k] == s[k + 1]);
        }
    }
    if i < s.len() - 1 {
        assert(r.drop_last() =~= s.drop_last().remove(i));
        assert(r.last() == s.last());
        lemma_entries_map_removed(s.drop_last(), i);
        assert(s[i].object != s.last().object);
        assert(entries_map(s.drop_last()).remove(s[i].object).insert(s.last().object, s.last())
            =~= entries_map(s.drop_last()).insert(s.last().object, s.last()).remove(s[i].object));
    } else {
        assert(r =~= s.drop_last());
        lemma_entries_map_contains(s.drop_last(), s[i].object);
        assert(!entries_map(s.drop_last()).contains_key(s[i].object));
        assert(entries_map(s.drop_last()) =~= entries_map(s.drop_last()).insert(
            s[i].object,
            s[i],
        ).remove(s[i].object));
    }
}

/// The authoritative state of one share.
pub struct ShareMeta {
    /// At most one database grant.
    pub database: Option<ShareGrantEntry>,
    /// The table grants, at most one per object.
    pub entries: Vec<ShareGrantEntry>,
    /// The accounts to which the share is offered, pairwise distinct.
    pub accounts: Vec<String>,
    pub comment: Option<String>,
    pub share_on: u64,
    pub update_on: u64,
}

/// Mathematical image of a `ShareMeta`.
pub struct ShareMetaV {
    pub database: Option<ShareGrantEntry>,
    pub entries: Map<ShareGrantObject, ShareGrantEntry>,
    pub accounts: Set<Seq<char>>,
    pub comment: Option<Seq<char>>,
    pub share_on: u64,
    pub update_on: u64,
}

impl View for ShareMeta {
    type V = ShareMetaV;

    open spec fn view(&self) -> ShareMetaV {
        ShareMetaV {
            database: self.database,
            entries: entries_map(self.entries@),
            accounts: accounts_set(self.accounts@),
            comment: match self.comment {
                Some(ref c) => Some(c@),
                None => None,
            },
            share_on: self.share_on,
            update_on: self.update_on,
        }
    }
}

impl ShareMetaV {
    /// Whether the share currently grants anything on `o`.
    pub open spec fn grants_object(self, o: ShareGrantObject) -> bool {
        (match self.database {
            Some(e) => e.object == o,
            None => false,
        }) || self.entries.contains_key(o)
    }

    /// The grant entry held for `o`, the database grant taking precedence.
    pub open spec fn grant_entry_of(self, o: ShareGrantObject) -> Option<ShareGrantEntry> {
        match self.database {
            Some(e) => if e.object == o {
                Some(e)
            } else if self.entries.contains_key(o) {
                Some(self.entries[o])
            } else {
                None
            },
            None => if self.entries.contains_key(o) {
                Some(self.entries[o])
            } else {
                None
            },
        }
    }

    /// Whether every bit of `privileges` is already granted on `o`.
    pub open spec fn has_granted(self, o: ShareGrantObject, privileges: u64) -> bool {
        match self.grant_entry_of(o) {
            Some(e) => privileges & e.privileges == privileges,
            None => false,
        }
    }
}

impl ShareMeta {
    /// The representation invariant: accounts and granted objects are
    /// pairwise distinct, the one `database` slot really holds a database,
    /// and the `entries` hold only tables.
    pub open spec fn wf(&self) -> bool {
        &&& forall|i: int, j: int|
            0 <= i < j < self.accounts@.len() ==> (#[trigger] self.accounts@[i])@ != (
            #[trigger] self.accounts@[j])@
        &&& forall|i: int, j: int|
            0 <= i < j < self.entries@.len() ==> (#[trigger] self.entries@[i]).object != (
            #[trigger] self.entries@[j]).object
        &&& forall|i: int|
            0 <= i < self.entries@.len() ==> (#[trigger] self.entries@[i]).object is Table
        &&& match self.database {
            Some(e) => e.object is Database,
            None => true,
        }
    }

    /// A fresh share: no grants, no accounts.
    pub fn new(share_on: u64, comment: Option<String>) -> (r: Self)
        ensures
            r.wf(),
            r@.database is None,
            r@.entries == Map::<ShareGrantObject, ShareGrantEntry>::empty(),
            r@.accounts == Set::<Seq<char>>::empty(),
            r@.comment == (match comment {
                Some(c) => Some(c@),
                None => None::<Seq<char>>,
            }),
            r@.share_on == share_on,
            r@.update_on == share_on,
    {
        ShareMeta {
            database: None,
            entries: Vec::new(),
            accounts: Vec::new(),
            comment,
            share_on,
            update_on: share_on,
        }
    }

    /// Whether `account` is listed on the share.
    pub fn has_account(&self, account: &String) -> (r: bool)
        ensures
            r == self@.accounts.contains(account@),
    {
        proof {
            lemma_accounts_set_contains(self.accounts@, account@);
        }
        let n = self.accounts.len();
        let mut i: usize = 0;
        while i < n
            invariant
                0 <= i <= n,
                forall|k: int| 0 <= k < i ==> (#[trigger] self.accounts@[k])@ != account@,
            decreases n - i,
        {
            if self.accounts[i] == *account {
                return true;
            }
            i += 1;
        }
        false
    }

    /// List `account` on the share; listing it twice changes nothing.
    pub fn add_account(&mut self, account: String)
        requires
            old(self).wf(),
        ensures
            final(self).wf(),
            final(self)@ == (ShareMetaV { accounts: old(self)@.accounts.insert(account@), ..old(
                self,
            )@ }),
    {
        proof {
            lemma_accounts_set_contains(self.accounts@, account@);
        }
        if !self.has_account(&account) {
            self.accounts.push(account);
            proof {
                assert(self.accounts@.drop_last() == old(self).accounts@);
            }
        } else {
            proof {
                assert(old(self)@.accounts.insert(account@) =~= old(self)@.accounts);
            }
        }
    }

    /// Unlist `account`; unlisting an absent account changes nothing.
    pub fn del_account(&mut self, account: &String)
        requires
            old(self).wf(),
        ensures
            final(self).wf(),
            final(self)@ == (ShareMetaV { accounts: old(self)@.accounts.remove(account@), ..old(
                self,
            )@ }),
    {
        let ghost s0 = self.accounts@;
        proof {
            lemma_accounts_set_contains(s0, account@);
        }
        let n = self.accounts.len();
        let mut i: usize = 0;
        while i < n
            invariant
                0 <= i <= n,
                *self == (ShareMeta { accounts: self.accounts, ..*old(self) }),
                self.accounts@ == s0,
                forall|k: int| 0 <= k < i ==> (#[trigger] s0[k])@ != account@,
            decreases n - i,
        {
            if self.accounts[i] == *account {
                self.accounts.remove(i);
                proof {
                    lemma_accounts_set_removed(s0, i as int);
                }
                return ;
            }
            i += 1;
        }
        proof {
            assert(!accounts_set(s0).contains(account@));
            assert(old(self)@.accounts.remove(account@) =~= old(self)@.accounts);
        }
    }

    /// The accounts listed on the share, in storage order.
    pub fn get_accounts(&self) -> (r: Vec<String>)
        ensures
            r@.len() == self.accounts@.len(),
            forall|i: int| 0 <= i < r@.len() ==> (#[trigger] r@[i])@ == self.accounts@[i]@,
            accounts_set(r@) == self@.accounts,
    {
        let mut r: Vec<String> = Vec::new();
        let n = self.accounts.len();
        let mut i: usize = 0;
        while i < n
            invariant
                0 <= i <= n,
                r@.len() == i,
                forall|k: int| 0 <= k < i ==> (#[trigger] r@[k])@ == self.accounts@[k]@,
            decreases n - i,
        {
            r.push(self.accounts[i].clone());
            i += 1;
        }
        proof {
            lemma_accounts_set_congruent(r@, self.accounts@);
        }
        r
    }

    /// The grant entry held for `object`, if any.
    pub fn get_grant_entry(&self, object: ShareGrantObject) -> (r: Option<ShareGrantEntry>)
        requires
            self.wf(),
        ensures
            r == self@.grant_entry_of(object),
    {
        if let Some(e) = self.database {
            if e.object == object {
                return Some(e);
            }
        }
        proof {
            lemma_entries_map_contains(self.entries@, object);
        }
        let n = self.entries.len();
        let mut i: usize = 0;
        while i < n
            invariant
                0 <= i <= n,
                forall|k: int| 0 <= k < i ==> (#[trigger] self.entries@[k]).object != object,
            decreases n - i,
        {
            if self.entries[i].object == object {
                proof {
                    lemma_entries_map_index(self.entries@, i as int);
                }
                return Some(self.entries[i]);
            }
            i += 1;
        }
        None
    }

    /// Whether every bit of `privileges` is already granted on `object`.
    pub fn has_granted_privileges(&self, object: ShareGrantObject, privileges: u64) -> (r: bool)
        requires
            self.wf(),
        ensures
            r == self@.has_granted(object, privileges),
    {
        match self.get_grant_entry(object) {
            Some(e) => privileges & e.privileges == privileges,
            None => false,
        }
    }

    /// Record a grant of `privileges` on `object`. A database grant
    /// replaces the database slot with a fresh entry; a table grant merges
    /// the new bits into the table's entry, or inserts one.
    pub fn grant_object_privileges(
        &mut self,
        object: ShareGrantObject,
        privileges: u64,
        grant_on: u64,
    )
        requires
            old(self).wf(),
            object is Database ==> (match old(self).database {
                Some(e) => e.object == object,
                None => true,
            }),
        ensures
            final(self).wf(),
            object is Database ==> final(self)@ == (ShareMetaV {
                database: Some(ShareGrantEntry { object, privileges, grant_on }),
                ..old(self)@
            }),
            object is Table ==> final(self)@ == (ShareMetaV {
                entries: old(self)@.entries.insert(
                    object,
                    ShareGrantEntry {
                        object,
                        privileges: (match old(self)@.entries.get(object) {
                            Some(e) => e.privileges | privileges,
                            None => privileges,
                        }),
                        grant_on,
                    },
                ),
                ..old(self)@
            }),
    {
        match object {
            ShareGrantObject::Database(_) => {
                self.database = Some(ShareGrantEntry { object, privileges, grant_on });
            },
            ShareGrantObject::Table(_) => {
                proof {
                    lemma_entries_map_contains(self.entries@, object);
                }
                let n = self.entries.len();
                let mut i: usize = 0;
                while i < n
                    invariant
                        0 <= i <= n,
                        *self == *old(self),
                        forall|k: int| 0 <= k < i ==> (#[trigger] self.entries@[k]).object != object,
                    decreases n - i,
                {
                    if self.entries[i].object == object {
                        proof {
                            lemma_entries_map_index(self.entries@, i as int);
                        }
                        let merged = ShareGrantEntry {
                            object,
                            privileges: self.entries[i].privileges | privileges,
                            grant_on,
                        };
                        proof {
                            lemma_entries_map_update(self.entries@, i as int, merged);
                        }
                        self.entries.set(i, merged);
                        return ;
                    }
                    i += 1;
                }
                let fresh = ShareGrantEntry { object, privileges, grant_on };
                self.entries.push(fresh);
                proof {
                    assert(self.entries@.drop_last() == old(self).entries@);
                    assert(!old(self)@.entries.contains_key(object));
                }
            },
        }
    }

    /// Clear `privileges` on `object`. A grant whose bits all clear is
    /// removed; removing the database grant is refused (nothing changes,
    /// and `false` comes back) while table grants linger.
    pub fn revoke_object_privileges(
        &mut self,
        object: ShareGrantObject,
        privileges: u64,
        update_on: u64,
    ) -> (ok: bool)
        requires
            old(self).wf(),
            old(self)@.grants_object(object),
            object is Database ==> (match old(self).database {
                Some(e) => e.object == object,
                None => false,
            }),
        ensures
            final(self).wf(),
            ({
                let stored = old(self)@.grant_entry_of(object).unwrap().privileges;
                let left = stored & !privileges;
                match object {
                    ShareGrantObject::Database(_) => {
                        if left == 0 && old(self)@.entries != Map::<
                            ShareGrantObject,
                            ShareGrantEntry,
                        >::empty() {
                            !ok && final(self)@ == old(self)@
                        } else if left == 0 {
                            ok && final(self)@ == (ShareMetaV {
                                database: None,
                                update_on,
                                ..old(self)@
                            })
                        } else {
                            ok && final(self)@ == (ShareMetaV {
                                database: Some(
                                    ShareGrantEntry {
                                        object,
                                        privileges: left,
                                        grant_on: old(self)@.grant_entry_of(
                                            object,
                                        ).unwrap().grant_on,
                                    },
                                ),
                                update_on,
                                ..old(self)@
                            })
                        }
                    },
                    ShareGrantObject::Table(_) => {
                        ok && (if left == 0 {
                            final(self)@ == (ShareMetaV {
                                entries: old(self)@.entries.remove(object),
                                update_on,
                                ..old(self)@
                            })
                        } else {
                            final(self)@ == (ShareMetaV {
                                entries: old(self)@.entries.insert(
                                    object,
                                    ShareGrantEntry {
                                        object,
                                        privileges: left,
                                        grant_on: old(self)@.grant_entry_of(
                                            object,
                                        ).unwrap().grant_on,
                                    },
                                ),
                                update_on,
                                ..old(self)@
                            })
                        })
                    },
                }
            }),
    {
        match object {
            ShareGrantObject::Database(_) => {
                let e = self.database.unwrap();
                let left = e.privileges & !privileges;
                if left == 0 {
                    if self.entries.len() > 0 {
                        proof {
                            lemma_entries_map_contains(self.entries@, self.entries@[0].object);
                            assert(entries_map(self.entries@).contains_key(
                                self.entries@[0].object,
                            ));
                            assert(old(self)@.entries != Map::<
                                ShareGrantObject,
                                ShareGrantEntry,
                            >::empty());
                        }
                        return false;
                    }
                    proof {
                        assert(entries_map(self.entries@) =~= Map::<
                            ShareGrantObject,
                            ShareGrantEntry,
                        >::empty());
                    }
                    self.database = None;
                    self.update_on = update_on;
                    true
                } else {
                    self.database = Some(
                        ShareGrantEntry { object, privileges: left, grant_on: e.grant_on },
                    );
                    self.update_on = update_on;
                    true
                }
            },
            ShareGrantObject::Table(_) => {
                proof {
                    lemma_entries_map_contains(self.entries@, object);
                    if old(self)@.entries.contains_key(object) {
                    }
                }
                let ghost s0 = self.entries@;
                let n = self.entries.len();
                let mut i: usize = 0;
                while i < n
                    invariant
                        0 <= i <= n,
                        *self == (ShareMeta { entries: self.entries, ..*old(self) }),
                        self.entries@ == s0,
                        forall|k: int| 0 <= k < i ==> (#[trigger] s0[k]).object != object,
                    decreases n - i,
                {
                    if self.entries[i].object == object {
                        proof {
                            lemma_entries_map_index(s0, i as int);
                        }
                        let e = self.entries[i];
                        let left = e.privileges & !privileges;
                        if left == 0 {
                            self.entries.remove(i);
                            proof {
                                lemma_entries_map_removed(s0, i as int);
                            }
                        } else {
                            let kept = ShareGrantEntry {
                                object,
                                privileges: left,
                                grant_on: e.grant_on,
                            };
                            proof {
                                lemma_entries_map_update(s0, i as int, kept);
                            }
                            self.entries.set(i, kept);
                        }
                        self.update_on = update_on;
                        return true;
                    }
                    i += 1;
                }
                proof {
                    assert(!entries_map(s0).contains_key(object));
                    assert(false);
                }
                false
            },
        }
    }
}

impl Clone for ShareMeta {
    fn clone(&self) -> (r: Self)
        ensures
            r@ == self@,
            r.wf() == self.wf(),
    {
        let mut entries: Vec<ShareGrantEntry> = Vec::new();
        let n = self.entries.len();
        let mut i: usize = 0;
        while i < n
            invariant
                0 <= i <= n,
                entries@ == self.entries@.take(i as int),
            decreases n - i,
        {
            entries.push(self.entries[i]);
            proof {
                assert(entries@ =~= self.entries@.take(i + 1 as int));
            }
            i += 1;
        }
        let mut accounts: Vec<String> = Vec::new();
        let m = self.accounts.len();
        let mut j: usize = 0;
        while j < m
            invariant
                0 <= j <= m,
                accounts@.len() == j,
                forall|k: int| 0 <= k < j ==> accounts@[k] == self.accounts@[k],
            decreases m - j,
        {
            accounts.push(self.accounts[j].clone());
            j += 1;
        }
        proof {
            assert(entries@ =~= self.entries@);
            assert(accounts@ =~= self.accounts@);
        }
        ShareMeta {
            database: self.database,
            entries,
            accounts,
            comment: match &self.comment {
                Some(c) => Some(c.clone()),
                None => None,
            },
            share_on: self.share_on,
            update_on: self.update_on,
        }
    }
}

/// Removing the element at position `i` of a duplicate-free (by view)
/// sequence of names removes exactly that name from the set of views.
pub proof fn lemma_accounts_set_removed(s: Seq<String>, i: int)
    requires
        0 <= i < s.len(),
        forall|j: int, k: int| 0 <= j < k < s.len() ==> (#[trigger] s[j])@ != (#[trigger] s[k])@,
    ensures
        accounts_set(s.remove(i)) == accounts_set(s).remove(s[i]@),
        forall|j: int, k: int|
            0 <= j < k < s.remove(i).len() ==> (#[trigger] s.remove(i)[j])@ != (#[trigger] s.remove(
                i,
            )[k])@,
{
    let r = s.remove(i);
    assert forall|j: int, k: int| 0 <= j < k < r.len() implies (#[trigger] r[j])@ != (
    #[trigger] r[k])@ by {
        if k < i {
            assert(r[j] == s[j] && r[k] == s[k]);
        } else if j < i {
            assert(r[j] == s[j] && r[k] == s[k + 1]);
        } else {
            assert(r[j] == s[j + 1] && r[k] == s[k + 1]);
        }
    }
    assert forall|x: Seq<char>| accounts_set(r).contains(x) implies accounts_set(s).remove(
        s[i]@,
    ).contains(x) by {
        lemma_accounts_set_contains(r, x);
        lemma_accounts_set_contains(s, x);
        let j = choose|j: int| 0 <= j < r.len() && r[j]@ == x;
        if j < i {
            assert(s[j]@ == x);
        } else {
            assert(s[j + 1]@ == x);
        }
    }
    assert forall|x: Seq<char>| accounts_set(s).remove(s[i]@).contains(x) implies accounts_set(
        r,
    ).contains(x) by {
        lemma_accounts_set_contains(r, x);
        lemma_accounts_set_contains(s, x);
        let j = choose|j: int| 0 <= j < s.len() && s[j]@ == x;
        if j < i {
            assert(r[j]@ == x);
        } else {
            assert(j != i);
            assert(r[j - 1]@ == x);
        }
    }
    assert(accounts_set(s.remove(i)) =~= accounts_set(s).remove(s[i]@));
}

/// Two name sequences equal element-by-element (by view) hold the same set
/// of views.
pub proof fn lemma_accounts_set_congruent(a: Seq<String>, b: Seq<String>)
    requires
        a.len() == b.len(),
        forall|i: int| 0 <= i < a.len() ==> (#[trigger] a[i])@ == b[i]@,
    ensures
        accounts_set(a) == accounts_set(b),
    decreases a.len(),
{
    if a.len() > 0 {
        lemma_accounts_set_congruent(a.drop_last(), b.drop_last());
        assert(accounts_set(a) =~= accounts_set(b));
    } else {
        assert(accounts_set(a) =~= accounts_set(b));
    }
}

} // verus!
