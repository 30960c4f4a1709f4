//! Registration of the database catalog's own records, as far as the
//! share catalog needs them: a database with its empty `shared_by` set,
//! and a table under a database. The share operations only read these
//! records (and maintain `shared_by`); something must first create them.

use vstd::prelude::*;

use crate::kv::seq_of;
use crate::kv::Key;
use crate::kv::KeyV;
use crate::kv::KvStore;
use crate::kv::TxnCondition;
use crate::kv::TxnOp;
use crate::kv::TxnOpV;
use crate::kv::TxnRequest;
use crate::kv::Value;
use crate::kv::ValueV;
use crate::meta::DatabaseMeta;
use crate::meta::TableMeta;
use crate::state::db_id_of;
use crate::state::db_name_key;
use crate::state::inv;
use crate::state::table_id_of;
use crate::state::table_name_key;
use crate::types::DBIdTableName;
use crate::types::DBIdTableNameV;
use crate::types::DatabaseNameIdent;
use crate::types::DatabaseNameIdentV;
use crate::types::ShareError;

verus! {

/// Register a database under a tenant's namespace. A name already bound
/// yields the existing id and changes nothing.
pub fn create_database(kv: &mut KvStore, tenant: &String, db_name: &String) -> (r: u64)
    requires
        old(kv).wf(),
        inv(old(kv)@),
        old(kv)@.next_seq < u64::MAX,
        old(kv)@.next_id < u64::MAX,
    ensures
        final(kv).wf(),
        inv(final(kv)@),
        ({
            let m0 = old(kv)@.map;
            let m1 = final(kv)@.map;
            match db_id_of(m0, tenant@, db_name@) {
                Some(did) => *final(kv) == *old(kv) && r == did,
                None => {
                    &&& r == old(kv)@.next_id
                    &&& m1 == m0.insert(
                        db_name_key(tenant@, db_name@),
                        (old(kv)@.next_seq, ValueV::Id(r)),
                    ).insert(
                        KeyV::DatabaseId(r),
                        (old(kv)@.next_seq, ValueV::DatabaseMeta(Set::<u64>::empty())),
                    ).insert(
                        KeyV::DatabaseIdToName(r),
                        (
                            old(kv)@.next_seq,
                            ValueV::DatabaseName(
                                DatabaseNameIdentV { tenant: tenant@, db_name: db_name@ },
                            ),
                        ),
                    )
                    &&& final(kv)@.next_seq == old(kv)@.next_seq + 1
                    &&& final(kv)@.next_id == old(kv)@.next_id + 1
                },
            }
        }),
{
    let name_key = Key::DatabaseName(
        DatabaseNameIdent { tenant: tenant.clone(), db_name: db_name.clone() },
    );
    let (db_id_seq, db_id) = kv.get_u64(&name_key);
    if db_id_seq > 0 {
        return db_id;
    }
    let db_id = kv.fetch_id();
    let mut condition: Vec<TxnCondition> = Vec::new();
    condition.push(TxnCondition { key: name_key.clone(), seq: 0 });
    condition.push(TxnCondition { key: Key::DatabaseIdToName(db_id), seq: 0 });
    let mut if_then: Vec<TxnOp> = Vec::new();
    if_then.push(TxnOp::Put(name_key, Value::Id(db_id)));
    if_then.push(TxnOp::Put(Key::DatabaseId(db_id), Value::DatabaseMeta(DatabaseMeta::new())));
    if_then.push(
        TxnOp::Put(
            Key::DatabaseIdToName(db_id),
            Value::DatabaseName(
                DatabaseNameIdent { tenant: tenant.clone(), db_name: db_name.clone() },
            ),
        ),
    );
    let txn = TxnRequest { condition, if_then };
    proof {
        assert(crate::state::id_used(old(kv)@.map, db_id) == false);
    }
    let succ = kv.send_txn(&txn);
    proof {
        let m0 = old(kv)@.map;
        let sq = old(kv)@.next_seq;
        let cs = txn.condition@.map_values(|c: TxnCondition| c@);
        assert forall|j: int|
            0 <= j < cs.len() implies seq_of(m0, (#[trigger] cs[j]).key) == cs[j].seq by {
            assert(cs[j] == txn.condition@[j]@);
        }
        assert(succ);
        let ops = txn.if_then@.map_values(|op: TxnOp| op@);
        let o0 = ops[0];
        let o1 = ops[1];
        let o2 = ops[2];
        assert(ops =~= seq![o0, o1, o2]);
        assert(seq![o0, o1, o2] =~= seq![o0, o1].push(o2));
        assert(seq![o0, o1] =~= seq![o0].push(o1));
        assert(seq![o0] =~= Seq::<TxnOpV>::empty().push(o0));
        crate::kv::lemma_apply_ops_push(m0, seq![o0, o1], o2, sq);
        crate::kv::lemma_apply_ops_push(m0, seq![o0], o1, sq);
        crate::kv::lemma_apply_ops_push(m0, Seq::<TxnOpV>::empty(), o0, sq);
        crate::state::lemma_create_database_preserves(
            old(kv)@,
            kv@,
            tenant@,
            db_name@,
            db_id,
            sq,
        );
    }
    db_id
}

/// Register a table inside an existing database. A name already bound
/// yields the existing id and changes nothing; an unknown database is
/// refused.
pub fn create_table(kv: &mut KvStore, tenant: &String, db_name: &String, table_name: &String) -> (r:
    Result<u64, ShareError>)
    requires
        old(kv).wf(),
        inv(old(kv)@),
        old(kv)@.next_seq < u64::MAX,
        old(kv)@.next_id < u64::MAX,
    ensures
        final(kv).wf(),
        inv(final(kv)@),
        ({
            let m0 = old(kv)@.map;
            let m1 = final(kv)@.map;
            match db_id_of(m0, tenant@, db_name@) {
                None => *final(kv) == *old(kv) && (r matches Err(ShareError::UnknownDatabase(x))
                    && x@ == db_name@),
                Some(did) => match table_id_of(m0, did, table_name@) {
                    Some(tid) => *final(kv) == *old(kv) && r == Ok::<u64, ShareError>(tid),
                    None => {
                        let tid = old(kv)@.next_id;
                        &&& r == Ok::<u64, ShareError>(tid)
                        &&& m1 == m0.insert(
                            table_name_key(did, table_name@),
                            (old(kv)@.next_seq, ValueV::Id(tid)),
                        ).insert(
                            KeyV::TableId(tid),
                            (old(kv)@.next_seq, ValueV::TableMeta(TableMeta { created_on: 0 })),
                        ).insert(
                            KeyV::TableIdToName(tid),
                            (
                                old(kv)@.next_seq,
                                ValueV::TableName(
                                    DBIdTableNameV { db_id: did, table_name: table_name@ },
                                ),
                            ),
                        )
                        &&& final(kv)@.next_seq == old(kv)@.next_seq + 1
                        &&& final(kv)@.next_id == old(kv)@.next_id + 1
                    },
                },
            }
        }),
{
    let name_key = Key::DatabaseName(
        DatabaseNameIdent { tenant: tenant.clone(), db_name: db_name.clone() },
    );
    let (db_id_seq, db_id) = kv.get_u64(&name_key);
    if db_id_seq == 0 {
        return Err(ShareError::UnknownDatabase(db_name.clone()));
    }
    let table_key = Key::DbIdTableName(
        DBIdTableName { db_id, table_name: table_name.clone() },
    );
    let (table_id_seq, table_id) = kv.get_u64(&table_key);
    if table_id_seq > 0 {
        return Ok(table_id);
    }
    let table_id = kv.fetch_id();
    let mut condition: Vec<TxnCondition> = Vec::new();
    condition.push(TxnCondition { key: table_key.clone(), seq: 0 });
    condition.push(TxnCondition { key: Key::TableIdToName(table_id), seq: 0 });
    let mut if_then: Vec<TxnOp> = Vec::new();
    if_then.push(TxnOp::Put(table_key, Value::Id(table_id)));
    if_then.push(TxnOp::Put(Key::TableId(table_id), Value::TableMeta(TableMeta { created_on: 0 })));
    if_then.push(
        TxnOp::Put(
            Key::TableIdToName(table_id),
            Value::TableName(DBIdTableName { db_id, table_name: table_name.clone() }),
        ),
    );
    let txn = TxnRequest { condition, if_then };
    proof {
        assert(crate::state::id_used(old(kv)@.map, table_id) == false);
    }
    let succ = kv.send_txn(&txn);
    proof {
        let m0 = old(kv)@.map;
        let sq = old(kv)@.next_seq;
        let cs = txn.condition@.map_values(|c: TxnCondition| c@);
        assert forall|j: int|
            0 <= j < cs.len() implies seq_of(m0, (#[trigger] cs[j]).key) == cs[j].seq by {
            assert(cs[j] == txn.condition@[j]@);
        }
        assert(succ);
        let ops = txn.if_then@.map_values(|op: TxnOp| op@);
        let o0 = ops[0];
        let o1 = ops[1];
        let o2 = ops[2];
        assert(ops =~= seq![o0, o1, o2]);
        assert(seq![o0, o1, o2] =~= seq![o0, o1].push(o2));
        assert(seq![o0, o1] =~= seq![o0].push(o1));
        assert(seq![o0] =~= Seq::<TxnOpV>::empty().push(o0));
        crate::kv::lemma_apply_ops_push(m0, seq![o0, o1], o2, sq);
        crate::kv::lemma_apply_ops_push(m0, seq![o0], o1, sq);
        crate::kv::lemma_apply_ops_push(m0, Seq::<TxnOpV>::empty(), o0, sq);
        crate::state::lemma_create_table_preserves(old(kv)@, kv@, db_id, table_name@, table_id, sq);
    }
    Ok(table_id)
}

} // verus!
