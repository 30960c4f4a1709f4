//! The versioned key-value store underneath the catalog: the key spaces,
//! the stored values, per-key sequence numbers, and atomic multi-key
//! conditional transactions.
//!
//! Every stored value carries a sequence number assigned by the store on
//! the write that produced it; sequence number `0` means "absent". A
//! transaction commits exactly when every one of its conditions pins the
//! current sequence number of its key.

use vstd::prelude::*;

use crate::meta::DatabaseMeta;
use crate::meta::ObjectSharedByShareIds;
use crate::meta::ShareAccountMeta;
use crate::meta::ShareAccountMetaV;
use crate::meta::ShareMeta;
use crate::meta::ShareMetaV;
use crate::meta::TableMeta;
use crate::types::DBIdTableName;
use crate::types::DBIdTableNameV;
use crate::types::DatabaseNameIdent;
use crate::types::DatabaseNameIdentV;
use crate::types::ShareAccountNameIdent;
use crate::types::ShareAccountNameIdentV;
use crate::types::ShareGrantObject;
use crate::types::ShareNameIdent;
use crate::types::ShareNameIdentV;

verus! {

/// A key of the store, one variant per key space.
pub enum Key {
    /// `(tenant, share_name) -> share_id`
    ShareName(ShareNameIdent),
    /// `share_id -> ShareMeta`
    ShareId(u64),
    /// `share_id -> (tenant, share_name)`, the reverse of `ShareName`
    ShareIdToName(u64),
    /// `(account, share_id) -> ShareAccountMeta`
    ShareAccount(ShareAccountNameIdent),
    /// `object -> ObjectSharedByShareIds`, the reverse index
    Object(ShareGrantObject),
    /// `(tenant, db_name) -> db_id`
    DatabaseName(DatabaseNameIdent),
    /// `db_id -> DatabaseMeta`
    DatabaseId(u64),
    /// `db_id -> (tenant, db_name)`
    DatabaseIdToName(u64),
    /// `(db_id, table_name) -> table_id`
    DbIdTableName(DBIdTableName),
    /// `table_id -> TableMeta`
    TableId(u64),
    /// `table_id -> (db_id, table_name)`
    TableIdToName(u64),
}

/// Mathematical image of a `Key`.
pub enum KeyV {
    ShareName(ShareNameIdentV),
    ShareId(u64),
    ShareIdToName(u64),
    ShareAccount(ShareAccountNameIdentV),
    Object(ShareGrantObject),
    DatabaseName(DatabaseNameIdentV),
    DatabaseId(u64),
    DatabaseIdToName(u64),
    DbIdTableName(DBIdTableNameV),
    TableId(u64),
    TableIdToName(u64),
}

impl View for Key {
    type V = KeyV;

    open spec fn view(&self) -> KeyV {
        match self {
            Key::ShareName(x) => KeyV::ShareName(x@),
            Key::ShareId(x) => KeyV::ShareId(*x),
            Key::ShareIdToName(x) => KeyV::ShareIdToName(*x),
            Key::ShareAccount(x) => KeyV::ShareAccount(x@),
            Key::Object(x) => KeyV::Object(*x),
            Key::DatabaseName(x) => KeyV::DatabaseName(x@),
            Key::DatabaseId(x) => KeyV::DatabaseId(*x),
            Key::DatabaseIdToName(x) => KeyV::DatabaseIdToName(*x),
            Key::DbIdTableName(x) => KeyV::DbIdTableName(x@),
            Key::TableId(x) => KeyV::TableId(*x),
            Key::TableIdToName(x) => KeyV::TableIdToName(*x),
        }
    }
}

impl Clone for Key {
    fn clone(&self) -> (r: Self)
        ensures
            r@ == self@,
    {
        match self {
            Key::ShareName(x) => Key::ShareName(x.clone()),
            Key::ShareId(x) => Key::ShareId(*x),
            Key::ShareIdToName(x) => Key::ShareIdToName(*x),
            Key::ShareAccount(x) => Key::ShareAccount(x.clone()),
            Key::Object(x) => Key::Object(*x),
            Key::DatabaseName(x) => Key::DatabaseName(x.clone()),
            Key::DatabaseId(x) => Key::DatabaseId(*x),
            Key::DatabaseIdToName(x) => Key::DatabaseIdToName(*x),
            Key::DbIdTableName(x) => Key::DbIdTableName(x.clone()),
            Key::TableId(x) => Key::TableId(*x),
            Key::TableIdToName(x) => Key::TableIdToName(*x),
        }
    }
}

/// Whether two keys name the same record.
pub fn key_eq(a: &Key, b: &Key) -> (r: bool)
    ensures
        r == (a@ == b@),
{
    match (a, b) {
        (Key::ShareName(x), Key::ShareName(y)) => x.tenant == y.tenant && x.share_name
            == y.share_name,
        (Key::ShareId(x), Key::ShareId(y)) => x == y,
        (Key::ShareIdToName(x), Key::ShareIdToName(y)) => x == y,
        (Key::ShareAccount(x), Key::ShareAccount(y)) => x.account == y.account && x.share_id
            == y.share_id,
        (Key::Object(x), Key::Object(y)) => x == y,
        (Key::DatabaseName(x), Key::DatabaseName(y)) => x.tenant == y.tenant && x.db_name
            == y.db_name,
        (Key::DatabaseId(x), Key::DatabaseId(y)) => x == y,
        (Key::DatabaseIdToName(x), Key::DatabaseIdToName(y)) => x == y,
        (Key::DbIdTableName(x), Key::DbIdTableName(y)) => x.db_id == y.db_id && x.table_name
            == y.table_name,
        (Key::TableId(x), Key::TableId(y)) => x == y,
        (Key::TableIdToName(x), Key::TableIdToName(y)) => x == y,
        _ => false,
    }
}

/// A value of the store, one variant per record kind.
pub enum Value {
    Id(u64),
    ShareMeta(ShareMeta),
    ShareAccountMeta(ShareAccountMeta),
    ShareName(ShareNameIdent),
    ShareIds(ObjectSharedByShareIds),
    DatabaseMeta(DatabaseMeta),
    DatabaseName(DatabaseNameIdent),
    TableMeta(TableMeta),
    TableName(DBIdTableName),
}

/// Mathematical image of a `Value`.
pub enum ValueV {
    Id(u64),
    ShareMeta(ShareMetaV),
    ShareAccountMeta(ShareAccountMetaV),
    ShareName(ShareNameIdentV),
    ShareIds(Set<u64>),
    DatabaseMeta(Set<u64>),
    DatabaseName(DatabaseNameIdentV),
    TableMeta(TableMeta),
    TableName(DBIdTableNameV),
}

impl View for Value {
    type V = ValueV;

    open spec fn view(&self) -> ValueV {
        match self {
            Value::Id(x) => ValueV::Id(*x),
            Value::ShareMeta(x) => ValueV::ShareMeta(x@),
            Value::ShareAccountMeta(x) => ValueV::ShareAccountMeta(x@),
            Value::ShareName(x) => ValueV::ShareName(x@),
            Value::ShareIds(x) => ValueV::ShareIds(x@),
            Value::DatabaseMeta(x) => ValueV::DatabaseMeta(x@),
            Value::DatabaseName(x) => ValueV::DatabaseName(x@),
            Value::TableMeta(x) => ValueV::TableMeta(*x),
            Value::TableName(x) => ValueV::TableName(x@),
        }
    }
}

impl Value {
    /// Representation invariant of the record: duplicate-free id lists and
    /// a well-formed share state.
    pub open spec fn wf(&self) -> bool {
        match self {
            Value::ShareMeta(x) => x.wf(),
            Value::ShareIds(x) => x.wf(),
            Value::DatabaseMeta(x) => x.wf(),
            _ => true,
        }
    }
}

impl Clone for Value {
    fn clone(&self) -> (r: Self)
        ensures
            r@ == self@,
            r.wf() == self.wf(),
    {
        match self {
            Value::Id(x) => Value::Id(*x),
            Value::ShareMeta(x) => Value::ShareMeta(x.clone()),
            Value::ShareAccountMeta(x) => Value::ShareAccountMeta(x.clone()),
            Value::ShareName(x) => Value::ShareName(x.clone()),
            Value::ShareIds(x) => Value::ShareIds(x.clone()),
            Value::DatabaseMeta(x) => Value::DatabaseMeta(x.clone()),
            Value::DatabaseName(x) => Value::DatabaseName(x.clone()),
            Value::TableMeta(x) => Value::TableMeta(*x),
            Value::TableName(x) => Value::TableName(x.clone()),
        }
    }
}

/// Whether a value is of the record kind its key space stores.
pub open spec fn typed(k: KeyV, v: ValueV) -> bool {
    match k {
        KeyV::ShareName(_) => v is Id,
        KeyV::ShareId(_) => v is ShareMeta,
        KeyV::ShareIdToName(_) => v is ShareName,
        KeyV::ShareAccount(_) => v is ShareAccountMeta,
        KeyV::Object(_) => v is ShareIds,
        KeyV::DatabaseName(_) => v is Id,
        KeyV::DatabaseId(_) => v is DatabaseMeta,
        KeyV::DatabaseIdToName(_) => v is DatabaseName,
        KeyV::DbIdTableName(_) => v is Id,
        KeyV::TableId(_) => v is TableMeta,
        KeyV::TableIdToName(_) => v is TableName,
    }
}

/// One `seq == expected` predicate of a transaction.
pub struct TxnCondition {
    pub key: Key,
    pub seq: u64,
}

/// Mathematical image of a `TxnCondition`.
pub struct TxnConditionV {
    pub key: KeyV,
    pub seq: u64,
}

impl View for TxnCondition {
    type V = TxnConditionV;

    open spec fn view(&self) -> TxnConditionV {
        TxnConditionV { key: self.key@, seq: self.seq }
    }
}

/// One write of a transaction.
pub enum TxnOp {
    Put(Key, Value),
    Del(Key),
}

/// Mathematical image of a `TxnOp`.
pub enum TxnOpV {
    Put(KeyV, ValueV),
    Del(KeyV),
}

impl View for TxnOp {
    type V = TxnOpV;

    open spec fn view(&self) -> TxnOpV {
        match self {
            TxnOp::Put(k, v) => TxnOpV::Put(k@, v@),
            TxnOp::Del(k) => TxnOpV::Del(k@),
        }
    }
}

impl TxnOp {
    /// The write stores a well-formed record of its key space's kind.
    pub open spec fn wf(&self) -> bool {
        match self {
            TxnOp::Put(k, v) => typed(k@, v@) && v.wf(),
            TxnOp::Del(_) => true,
        }
    }
}

/// An atomic conditional multi-write: if every condition pins the current
/// sequence number of its key, all writes apply; otherwise none does.
pub struct TxnRequest {
    pub condition: Vec<TxnCondition>,
    pub if_then: Vec<TxnOp>,
}

impl TxnRequest {
    /// Every write is well formed.
    pub open spec fn wf(&self) -> bool {
        forall|i: int| 0 <= i < self.if_then@.len() ==> (#[trigger] self.if_then@[i]).wf()
    }
}

} // verus!

verus! {

/// The map from key view to `(sequence number, value view)` held by a
/// sequence of rows; a later row for the same key wins.
pub open spec fn rows_map(s: Seq<(Key, u64, Value)>) -> Map<KeyV, (u64, ValueV)>
    decreases s.len(),
{
    if s.len() == 0 {
        Map::empty()
    } else {
        rows_map(s.drop_last()).insert(s.last().0@, (s.last().1, s.last().2@))
    }
}

/// A key view is a key of `rows_map` exactly when some row carries it.
pub proof fn lemma_rows_map_contains(s: Seq<(Key, u64, Value)>, k: KeyV)
    ensures
        rows_map(s).contains_key(k) <==> (exists|i: int| 0 <= i < s.len() && s[i].0@ == k),
    decreases s.len(),
{
    if s.len() > 0 {
        lemma_rows_map_contains(s.drop_last(), k);
        if exists|i: int| 0 <= i < s.len() && s[i].0@ == k {
            let i = choose|i: int| 0 <= i < s.len() && s[i].0@ == k;
            if i < s.len() - 1 {
                assert(s.drop_last()[i].0@ == k);
            }
        }
    }
}

/// When the rows carry pairwise distinct keys, the map returns the unique
/// row that carries the key.
pub proof fn lemma_rows_map_index(s: Seq<(Key, u64, Value)>, i: int)
    requires
        forall|j: int, k: int|
            0 <= j < k < s.len() ==> (#[trigger] s[j]).0@ != (#[trigger] s[k]).0@,
        0 <= i < s.len(),
    ensures
        rows_map(s).contains_key(s[i].0@),
        rows_map(s)[s[i].0@] == (s[i].1, s[i].2@),
    decreases s.len(),
{
    if i < s.len() - 1 {
        lemma_rows_map_index(s.drop_last(), i);
        assert(s.drop_last()[i] == s[i]);
        assert(s[i].0@ != s.last().0@);
    }
}

/// Updating position `i` with a row that carries the same key overwrites
/// that key's binding.
pub proof fn lemma_rows_map_update(s: Seq<(Key, u64, Value)>, i: int, r: (Key, u64, Value))
    requires
        forall|j: int, k: int|
            0 <= j < k < s.len() ==> (#[trigger] s[j]).0@ != (#[trigger] s[k]).0@,
        0 <= i < s.len(),
        r.0@ == s[i].0@,
    ensures
        rows_map(s.update(i, r)) == rows_map(s).insert(r.0@, (r.1, r.2@)),
        forall|j: int, k: int|
            0 <= j < k < s.update(i, r).len() ==> (#[trigger] s.update(i, r)[j]).0@ != (
            #[trigger] s.update(i, r)[k]).0@,
    decreases s.len(),
{
    let t = s.update(i, r);
    if i < s.len() - 1 {
        assert(t.drop_last() =~= s.drop_last().update(i, r));
        assert(t.last() == s.last());
        lemma_rows_map_update(s.drop_last(), i, r);
        assert(r.0@ != s.last().0@);
        assert(rows_map(s.drop_last()).insert(r.0@, (r.1, r.2@)).insert(
            s.last().0@,
            (s.last().1, s.last().2@),
        ) =~= rows_map(s.drop_last()).insert(s.last().0@, (s.last().1, s.last().2@)).insert(
            r.0@,
            (r.1, r.2@),
        ));
    } else {
        assert(t.drop_last() =~= s.drop_last());
        assert(t.last() == r);
        assert(rows_map(s.drop_last()).insert(r.0@, (r.1, r.2@)) =~= rows_map(
            s.drop_last(),
        ).insert(s[i].0@, (s[i].1, s[i].2@)).insert(r.0@, (r.1, r.2@)));
    }
}

/// Removing the row at position `i` of a key-unique sequence removes
/// exactly that key's binding.
pub proof fn lemma_rows_map_removed(s: Seq<(Key, u64, Value)>, i: int)
    requires
        forall|j: int, k: int|
            0 <= j < k < s.len() ==> (#[trigger] s[j]).0@ != (#[trigger] s[k]).0@,
        0 <= i < s.len(),
    ensures
        rows_map(s.remove(i)) == rows_map(s).remove(s[i].0@),
        forall|j: int, k: int|
            0 <= j < k < s.remove(i).len() ==> (#[trigger] s.remove(i)[j]).0@ != (
            #[trigger] s.remove(i)[k]).0@,
    decreases s.len(),
{
    let r = s.remove(i);
    assert forall|j: int, k: int| 0 <= j < k < r.len() implies (#[trigger] r[j]).0@ != (
    #[trigger] r[k]).0@ by {
        if k < i {
            assert(r[j] == s[j] && r[k] == s[k]);
        } else if j < i {
            assert(r[j] == s[j] && r[k] == s[k + 1]);
        } else {
            assert(r[j] == s[j + 1] && r[k] == s[k + 1]);
        }
    }
    if i < s.len() - 1 {
        assert(r.drop_last() =~= s.drop_last().remove(i));
        assert(r.last() == s.last());
        lemma_rows_map_removed(s.drop_last(), i);
        assert(s[i].0@ != s.last().0@);
        assert(rows_map(s.drop_last()).remove(s[i].0@).insert(
            s.last().0@,
            (s.last().1, s.last().2@),
        ) =~= rows_map(s.drop_last()).insert(s.last().0@, (s.last().1, s.last().2@)).remove(
            s[i].0@,
        ));
    } else {
        assert(r =~= s.drop_last());
        lemma_rows_map_contains(s.drop_last(), s[i].0@);
        assert(!rows_map(s.drop_last()).contains_key(s[i].0@));
        assert(rows_map(s.drop_last()) =~= rows_map(s.drop_last()).insert(
            s[i].0@,
            (s[i].1, s[i].2@),
        ).remove(s[i].0@));
    }
}

/// Mathematical image of the whole store.
pub struct KvStateV {
    /// Key -> (sequence number, value).
    pub map: Map<KeyV, (u64, ValueV)>,
    /// The sequence number the next committed transaction will stamp.
    pub next_seq: u64,
    /// The next id the allocator will hand out.
    pub next_id: u64,
}

/// The sequence number currently held by `k`; `0` when absent.
pub open spec fn seq_of(m: Map<KeyV, (u64, ValueV)>, k: KeyV) -> u64 {
    if m.contains_key(k) {
        m[k].0
    } else {
        0
    }
}

/// Whether every condition pins the current sequence number of its key.
pub open spec fn conds_hold(m: Map<KeyV, (u64, ValueV)>, cs: Seq<TxnConditionV>) -> bool {
    forall|i: int| 0 <= i < cs.len() ==> seq_of(m, (#[trigger] cs[i]).key) == cs[i].seq
}

/// The effect of one write, stamped `seq`.
pub open spec fn apply_op(m: Map<KeyV, (u64, ValueV)>, op: TxnOpV, seq: u64) -> Map<
    KeyV,
    (u64, ValueV),
> {
    match op {
        TxnOpV::Put(k, v) => m.insert(k, (seq, v)),
        TxnOpV::Del(k) => m.remove(k),
    }
}

/// The effect of a sequence of writes applied in order, all stamped `seq`.
pub open spec fn apply_ops(m: Map<KeyV, (u64, ValueV)>, ops: Seq<TxnOpV>, seq: u64) -> Map<
    KeyV,
    (u64, ValueV),
>
    decreases ops.len(),
{
    if ops.len() == 0 {
        m
    } else {
        apply_ops(apply_op(m, ops.first(), seq), ops.drop_first(), seq)
    }
}

/// Applying no writes changes nothing.
pub proof fn lemma_apply_ops_empty(m: Map<KeyV, (u64, ValueV)>, seq: u64)
    ensures
        apply_ops(m, Seq::<TxnOpV>::empty(), seq) == m,
{
}

/// Writes apply in order: the last write applies to the effect of the
/// ones before it.
pub proof fn lemma_apply_ops_push(
    m: Map<KeyV, (u64, ValueV)>,
    ops: Seq<TxnOpV>,
    op: TxnOpV,
    seq: u64,
)
    ensures
        apply_ops(m, ops.push(op), seq) == apply_op(apply_ops(m, ops, seq), op, seq),
    decreases ops.len(),
{
    if ops.len() == 0 {
        assert(ops.push(op).drop_first() =~= Seq::<TxnOpV>::empty());
        assert(ops.push(op).first() == op);
        assert(apply_ops(m, ops, seq) == m);
        assert(apply_ops(m, ops.push(op), seq) == apply_ops(
            apply_op(m, op, seq),
            ops.push(op).drop_first(),
            seq,
        ));
        assert(apply_ops(apply_op(m, op, seq), Seq::<TxnOpV>::empty(), seq) == apply_op(
            m,
            op,
            seq,
        ));
    } else {
        assert(ops.push(op).first() == ops.first());
        assert(ops.push(op).drop_first() =~= ops.drop_first().push(op));
        lemma_apply_ops_push(apply_op(m, ops.first(), seq), ops.drop_first(), op, seq);
        assert(apply_ops(m, ops.push(op), seq) == apply_ops(
            apply_op(m, ops.first(), seq),
            ops.drop_first().push(op),
            seq,
        ));
        assert(apply_ops(m, ops, seq) == apply_ops(
            apply_op(m, ops.first(), seq),
            ops.drop_first(),
            seq,
        ));
    }
}

/// The in-memory versioned store.
pub struct KvStore {
    /// The rows, one per bound key.
    pub rows: Vec<(Key, u64, Value)>,
    /// The sequence number the next committed transaction will stamp.
    pub next_seq: u64,
    /// The next id the allocator will hand out.
    pub next_id: u64,
}

impl View for KvStore {
    type V = KvStateV;

    open spec fn view(&self) -> KvStateV {
        KvStateV { map: rows_map(self.rows@), next_seq: self.next_seq, next_id: self.next_id }
    }
}

impl KvStore {
    /// The representation invariant: keys pairwise distinct, each row's
    /// sequence number already stamped (below `next_seq`) and nonzero,
    /// each value well formed and of its key space's kind.
    pub open spec fn wf(&self) -> bool {
        &&& forall|j: int, k: int|
            0 <= j < k < self.rows@.len() ==> (#[trigger] self.rows@[j]).0@ != (
            #[trigger] self.rows@[k]).0@
        &&& forall|i: int|
            0 <= i < self.rows@.len() ==> 1 <= (#[trigger] self.rows@[i]).1 < self.next_seq
        &&& forall|i: int|
            0 <= i < self.rows@.len() ==> typed((#[trigger] self.rows@[i]).0@, self.rows@[i].2@)
                && self.rows@[i].2.wf()
        &&& self.next_seq >= 1
        &&& self.next_id >= 1
    }

    /// An empty store.
    pub fn new() -> (r: Self)
        ensures
            r.wf(),
            r@.map == Map::<KeyV, (u64, ValueV)>::empty(),
            r@.next_seq == 1,
            r@.next_id == 1,
    {
        KvStore { rows: Vec::new(), next_seq: 1, next_id: 1 }
    }

    /// The position of the row holding `key`, if any.
    fn find(&self, key: &Key) -> (r: Option<usize>)
        ensures
            match r {
                Some(i) => i < self.rows@.len() && self.rows@[i as int].0@ == key@,
                None => !self@.map.contains_key(key@),
            },
    {
        proof {
            lemma_rows_map_contains(self.rows@, key@);
        }
        let n = self.rows.len();
        let mut i: usize = 0;
        while i < n
            invariant
                0 <= i <= n,
                forall|k: int| 0 <= k < i ==> (#[trigger] self.rows@[k]).0@ != key@,
            decreases n - i,
        {
            if key_eq(&self.rows[i].0, key) {
                return Some(i);
            }
            i += 1;
        }
        None
    }

    /// Read a key: its current sequence number and value, `(0, None)` when
    /// absent.
    pub fn get(&self, key: &Key) -> (r: (u64, Option<Value>))
        requires
            self.wf(),
        ensures
            match self@.map.get(key@) {
                Some(p) => r.0 == p.0 && 1 <= r.0 && (match r.1 {
                    Some(v) => v@ == p.1 && v.wf() && typed(key@, v@),
                    None => false,
                }),
                None => r == (0u64, None::<Value>),
            },
    {
        match self.find(key) {
            Some(i) => {
                proof {
                    lemma_rows_map_index(self.rows@, i as int);
                }
                let (_, seq, v) = &self.rows[i];
                (*seq, Some(v.clone()))
            },
            None => (0, None),
        }
    }

    /// Read a key of a `u64`-valued key space, `(0, 0)` when absent.
    pub fn get_u64(&self, key: &Key) -> (r: (u64, u64))
        requires
            self.wf(),
            key@ is ShareName || key@ is DatabaseName || key@ is DbIdTableName,
        ensures
            match self@.map.get(key@) {
                Some(p) => r.0 == p.0 && 1 <= r.0 && p.1 == ValueV::Id(r.1),
                None => r == (0u64, 0u64),
            },
    {
        let (seq, v) = self.get(key);
        match v {
            Some(Value::Id(x)) => (seq, x),
            _ => (0, 0),
        }
    }

    /// Allocate a fresh id from the store's monotonic counter. No id is
    /// ever handed out twice.
    pub fn fetch_id(&mut self) -> (r: u64)
        requires
            old(self).wf(),
            old(self)@.next_id < u64::MAX,
        ensures
            final(self).wf(),
            r == old(self)@.next_id,
            final(self)@.map == old(self)@.map,
            final(self)@.next_seq == old(self)@.next_seq,
            final(self)@.next_id == old(self)@.next_id + 1,
    {
        let id = self.next_id;
        self.next_id = self.next_id + 1;
        id
    }

    /// Bind `key` to `value` at sequence number `seq`, replacing any
    /// earlier binding.
    fn put_row(&mut self, key: Key, seq: u64, value: Value)
        requires
            forall|j: int, k: int|
                0 <= j < k < old(self).rows@.len() ==> (#[trigger] old(self).rows@[j]).0@ != (
                #[trigger] old(self).rows@[k]).0@,
        ensures
            final(self)@.map == old(self)@.map.insert(key@, (seq, value@)),
            final(self)@.next_seq == old(self)@.next_seq,
            final(self)@.next_id == old(self)@.next_id,
            forall|j: int, k: int|
                0 <= j < k < final(self).rows@.len() ==> (#[trigger] final(self).rows@[j]).0@ != (
                #[trigger] final(self).rows@[k]).0@,
            forall|i: int|
                0 <= i < final(self).rows@.len() ==> ((#[trigger] final(self).rows@[i]) == (
                key,
                seq,
                value,
            ) || old(self).rows@.contains(final(self).rows@[i])),
    {
        match self.find(&key) {
            Some(i) => {
                proof {
                    lemma_rows_map_update(self.rows@, i as int, (key, seq, value));
                }
                self.rows.set(i, (key, seq, value));
            },
            None => {
                self.rows.push((key, seq, value));
                proof {
                    assert(self.rows@.drop_last() == old(self).rows@);
                    lemma_rows_map_contains(old(self).rows@, self.rows@.last().0@);
                }
            },
        }
    }

    /// Drop the binding of `key`, if any.
    fn del_row(&mut self, key: &Key)
        requires
            forall|j: int, k: int|
                0 <= j < k < old(self).rows@.len() ==> (#[trigger] old(self).rows@[j]).0@ != (
                #[trigger] old(self).rows@[k]).0@,
        ensures
            final(self)@.map == old(self)@.map.remove(key@),
            final(self)@.next_seq == old(self)@.next_seq,
            final(self)@.next_id == old(self)@.next_id,
            forall|j: int, k: int|
                0 <= j < k < final(self).rows@.len() ==> (#[trigger] final(self).rows@[j]).0@ != (
                #[trigger] final(self).rows@[k]).0@,
            forall|i: int|
                0 <= i < final(self).rows@.len() ==> old(self).rows@.contains(
                    #[trigger] final(self).rows@[i],
                ),
    {
        match self.find(key) {
            Some(i) => {
                proof {
                    lemma_rows_map_removed(self.rows@, i as int);
                    assert(forall|a: int|
                        0 <= a < self.rows@.remove(i as int).len() ==> self.rows@.contains(
                            #[trigger] self.rows@.remove(i as int)[a],
                        ));
                }
                self.rows.remove(i);
            },
            None => {
                proof {
                    assert(old(self)@.map.remove(key@) =~= old(self)@.map);
                }
            },
        }
    }

    /// A bound key holds a stamped, well-typed record.
    pub proof fn lemma_typed(&self, k: KeyV)
        requires
            self.wf(),
        ensures
            self@.map.contains_key(k) ==> typed(k, self@.map[k].1) && 1 <= self@.map[k].0
                < self@.next_seq,
    {
        if self@.map.contains_key(k) {
            lemma_rows_map_contains(self.rows@, k);
            let i = choose|i: int| 0 <= i < self.rows@.len() && self.rows@[i].0@ == k;
            lemma_rows_map_index(self.rows@, i);
        }
    }

    /// Commit an atomic conditional multi-write. The transaction succeeds
    /// exactly when every condition pins the current sequence number of
    /// its key; then all writes apply, stamped with one fresh sequence
    /// number. On failure the store is untouched.
    pub fn send_txn(&mut self, txn: &TxnRequest) -> (succ: bool)
        requires
            old(self).wf(),
            txn.wf(),
            old(self)@.next_seq < u64::MAX,
        ensures
            final(self).wf(),
            succ == conds_hold(old(self)@.map, txn.condition@.map_values(|c: TxnCondition| c@)),
            succ ==> final(self)@.map == apply_ops(
                old(self)@.map,
                txn.if_then@.map_values(|op: TxnOp| op@),
                old(self)@.next_seq,
            ) && final(self)@.next_seq == old(self)@.next_seq + 1 && final(self)@.next_id == old(
                self,
            )@.next_id,
            !succ ==> *final(self) == *old(self),
    {
        let ghost cs = txn.condition@.map_values(|c: TxnCondition| c@);
        let n = txn.condition.len();
        let mut i: usize = 0;
        while i < n
            invariant
                0 <= i <= n,
                *self == *old(self),
                forall|k: int| 0 <= k < i ==> seq_of(self@.map, (#[trigger] cs[k]).key) == cs[k].seq,
            decreases n - i,
        {
            let c = &txn.condition[i];
            let (seq, _) = self.get(&c.key);
            if seq != c.seq {
                proof {
                    assert(seq_of(self@.map, cs[i as int].key) != cs[i as int].seq);
                }
                return false;
            }
            i += 1;
        }
        let ghost m0 = self@.map;
        let ghost ops = txn.if_then@.map_values(|op: TxnOp| op@);
        proof {
            assert(ops.skip(0) =~= ops);
        }
        let stamp = self.next_seq;
        let p = txn.if_then.len();
        let mut j: usize = 0;
        while j < p
            invariant
                0 <= j <= p,
                apply_ops(m0, ops, stamp) == apply_ops(self@.map, ops.skip(j as int), stamp),
                self.next_seq == old(self).next_seq,
                self.next_id == old(self).next_id,
                stamp == old(self).next_seq,
                forall|a: int, b: int|
                    0 <= a < b < self.rows@.len() ==> (#[trigger] self.rows@[a]).0@ != (
                    #[trigger] self.rows@[b]).0@,
                forall|a: int|
                    0 <= a < self.rows@.len() ==> 1 <= (#[trigger] self.rows@[a]).1 && (
                    self.rows@[a].1 < old(self).next_seq || self.rows@[a].1 == stamp),
                forall|a: int|
                    0 <= a < self.rows@.len() ==> typed(
                        (#[trigger] self.rows@[a]).0@,
                        self.rows@[a].2@,
                    ) && self.rows@[a].2.wf(),
            decreases p - j,
        {
            let ghost pre = self@.map;
            proof {
                assert(ops.skip(j as int).first() == ops[j as int]);
                assert(ops.skip(j as int).drop_first() =~= ops.skip(j as int + 1));
            }
            match &txn.if_then[j] {
                TxnOp::Put(k, v) => {
                    assert(txn.if_then@[j as int].wf());
                    self.put_row(k.clone(), stamp, v.clone());
                },
                TxnOp::Del(k) => {
                    self.del_row(k);
                },
            }
            proof {
                assert(self@.map == apply_op(pre, ops[j as int], stamp));
            }
            j += 1;
        }
        proof {
            assert(ops.skip(p as int) =~= Seq::<TxnOpV>::empty());
        }
        self.next_seq = self.next_seq + 1;
        true
    }
}

} // verus!

verus! {

impl KvStore {
    /// Every share name bound under `tenant`, in row order.
    pub fn list_shares_of_tenant(&self, tenant: &String) -> (r: Vec<ShareNameIdent>)
        requires
            self.wf(),
        ensures
            forall|i: int|
                0 <= i < r@.len() ==> (#[trigger] r@[i])@.tenant == tenant@
                    && crate::state::share_id_of(self@.map, tenant@, r@[i]@.share_name) is Some,
            forall|n: Seq<char>|
                crate::state::share_id_of(self@.map, tenant@, n) is Some ==> exists|i: int|
                    0 <= i < r@.len() && (#[trigger] r@[i])@.share_name == n,
    {
        let mut r: Vec<ShareNameIdent> = Vec::new();
        let rows_n = self.rows.len();
        let mut i: usize = 0;
        while i < rows_n
            invariant
                0 <= i <= rows_n,
                forall|k: int|
                    0 <= k < r@.len() ==> (#[trigger] r@[k])@.tenant == tenant@
                        && crate::state::share_id_of(self@.map, tenant@, r@[k]@.share_name) is Some,
                forall|k: int|
                    0 <= k < i ==> (match (#[trigger] self.rows@[k]).0@ {
                        KeyV::ShareName(nm) => nm.tenant == tenant@ ==> exists|l: int|
                            0 <= l < r@.len() && (#[trigger] r@[l])@.share_name == nm.share_name,
                        _ => true,
                    }),
            decreases rows_n - i,
        {
            let ghost r_before = r@;
            let row_matches = match &self.rows[i].0 {
                Key::ShareName(ident) => ident.tenant == *tenant,
                _ => false,
            };
            if row_matches {
                proof {
                    lemma_rows_map_index(self.rows@, i as int);
                }
                match &self.rows[i].0 {
                    Key::ShareName(ident) => {
                        r.push(ident.clone());
                        proof {
                            assert(r@.last()@.share_name == ident@.share_name);
                        }
                    },
                    _ => {},
                }
            }
            proof {
                assert forall|k: int|
                    0 <= k < i + 1 implies (match (#[trigger] self.rows@[k]).0@ {
                    KeyV::ShareName(nm) => nm.tenant == tenant@ ==> exists|l: int|
                        0 <= l < r@.len() && (#[trigger] r@[l])@.share_name == nm.share_name,
                    _ => true,
                }) by {
                    if k < i {
                        match self.rows@[k].0@ {
                            KeyV::ShareName(nm) => {
                                if nm.tenant == tenant@ {
                                    let l = choose|l: int|
                                        0 <= l < r_before.len() && (#[trigger] r_before[l])@.share_name
                                            == nm.share_name;
                                    assert(r@[l]@.share_name == nm.share_name);
                                }
                            },
                            _ => {},
                        }
                    } else {
                        match self.rows@[k].0@ {
                            KeyV::ShareName(nm) => {
                                if nm.tenant == tenant@ {
                                    assert(r@.last()@.share_name == nm.share_name);
                                }
                            },
                            _ => {},
                        }
                    }
                }
            }
            i += 1;
        }
        proof {
            assert forall|n: Seq<char>|
                crate::state::share_id_of(self@.map, tenant@, n) is Some implies exists|l: int|
                0 <= l < r@.len() && (#[trigger] r@[l])@.share_name == n by {
                let k = KeyV::ShareName(ShareNameIdentV { tenant: tenant@, share_name: n });
                lemma_rows_map_contains(self.rows@, k);
                let j = choose|j: int| 0 <= j < self.rows@.len() && (#[trigger] self.rows@[j]).0@ == k;
                assert(match self.rows@[j].0@ {
                    KeyV::ShareName(nm) => nm.tenant == tenant@ && nm.share_name == n,
                    _ => false,
                });
            }
        }
        r
    }

    /// Every membership handle of `account`, in row order.
    pub fn list_accounts_of(&self, account: &String) -> (r: Vec<ShareAccountNameIdent>)
        requires
            self.wf(),
        ensures
            forall|i: int|
                0 <= i < r@.len() ==> (#[trigger] r@[i])@.account == account@
                    && crate::state::account_of(self@.map, account@, r@[i]@.share_id) is Some,
            forall|id: u64|
                crate::state::account_of(self@.map, account@, id) is Some ==> exists|i: int|
                    0 <= i < r@.len() && (#[trigger] r@[i])@.share_id == id,
    {
        let mut r: Vec<ShareAccountNameIdent> = Vec::new();
        let rows_n = self.rows.len();
        let mut i: usize = 0;
        while i < rows_n
            invariant
                0 <= i <= rows_n,
                forall|k: int|
                    0 <= k < r@.len() ==> (#[trigger] r@[k])@.account == account@
                        && crate::state::account_of(self@.map, account@, r@[k]@.share_id) is Some,
                forall|k: int|
                    0 <= k < i ==> (match (#[trigger] self.rows@[k]).0@ {
                        KeyV::ShareAccount(akv) => akv.account == account@ ==> exists|l: int|
                            0 <= l < r@.len() && (#[trigger] r@[l])@.share_id == akv.share_id,
                        _ => true,
                    }),
            decreases rows_n - i,
        {
            let ghost r_before = r@;
            let row_matches = match &self.rows[i].0 {
                Key::ShareAccount(ident) => ident.account == *account,
                _ => false,
            };
            if row_matches {
                proof {
                    lemma_rows_map_index(self.rows@, i as int);
                }
                match &self.rows[i].0 {
                    Key::ShareAccount(ident) => {
                        r.push(ident.clone());
                        proof {
                            assert(r@.last()@.share_id == ident@.share_id);
                        }
                    },
                    _ => {},
                }
            }
            proof {
                assert forall|k: int|
                    0 <= k < i + 1 implies (match (#[trigger] self.rows@[k]).0@ {
                    KeyV::ShareAccount(akv) => akv.account == account@ ==> exists|l: int|
                        0 <= l < r@.len() && (#[trigger] r@[l])@.share_id == akv.share_id,
                    _ => true,
                }) by {
                    if k < i {
                        match self.rows@[k].0@ {
                            KeyV::ShareAccount(akv) => {
                                if akv.account == account@ {
                                    let l = choose|l: int|
                                        0 <= l < r_before.len() && (#[trigger] r_before[l])@.share_id
                                            == akv.share_id;
                                    assert(r@[l]@.share_id == akv.share_id);
                                }
                            },
                            _ => {},
                        }
                    } else {
                        match self.rows@[k].0@ {
                            KeyV::ShareAccount(akv) => {
                                if akv.account == account@ {
                                    assert(r@.last()@.share_id == akv.share_id);
                                }
                            },
                            _ => {},
                        }
                    }
                }
            }
            i += 1;
        }
        proof {
            assert forall|id: u64|
                crate::state::account_of(self@.map, account@, id) is Some implies exists|l: int|
                0 <= l < r@.len() && (#[trigger] r@[l])@.share_id == id by {
                let k = KeyV::ShareAccount(ShareAccountNameIdentV { account: account@, share_id: id });
                lemma_rows_map_contains(self.rows@, k);
                let j = choose|j: int| 0 <= j < self.rows@.len() && (#[trigger] self.rows@[j]).0@ == k;
                assert(match self.rows@[j].0@ {
                    KeyV::ShareAccount(akv) => akv.account == account@ && akv.share_id == id,
                    _ => false,
                });
            }
        }
        r
    }
}

} // verus!
