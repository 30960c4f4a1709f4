use share_catalog::api::add_share_tenants;
use share_catalog::api::create_share;
use share_catalog::api::drop_share;
use share_catalog::api::grant_share_object;
use share_catalog::api::remove_share_tenants;
use share_catalog::api::revoke_share_object;
use share_catalog::api::AddShareAccountsReq;
use share_catalog::api::CreateShareReq;
use share_catalog::api::DropShareReq;
use share_catalog::api::GrantShareObjectReq;
use share_catalog::api::RemoveShareAccountsReq;
use share_catalog::api::RevokeShareObjectReq;
use share_catalog::catalog::create_database;
use share_catalog::catalog::create_table;
use share_catalog::kv::Key;
use share_catalog::kv::KvStore;
use share_catalog::kv::Value;
use share_catalog::types::ShareError;
use share_catalog::types::ShareGrantObject;
use share_catalog::types::ShareGrantObjectName;
use share_catalog::types::ShareNameIdent;
use share_catalog::types::PRIVILEGE_SELECT;
use share_catalog::types::PRIVILEGE_USAGE;

fn ident(tenant: &str, share: &str) -> ShareNameIdent {
    ShareNameIdent {
        tenant: String::from(tenant),
        share_name: String::from(share),
    }
}

fn make_share(kv: &mut KvStore, tenant: &str, share: &str) -> u64 {
    let reply = create_share(
        kv,
        &CreateShareReq {
            if_not_exists: false,
            share_name: ident(tenant, share),
            comment: None,
            create_on: 1,
        },
    )
    .expect("create_share");
    reply.share_id
}

#[test]
fn create_grant_revoke_drop() {
    let mut kv = KvStore::new();
    let tenant = String::from("A");
    let db = String::from("db");
    let db_id = create_database(&mut kv, &tenant, &db);
    let share_id = make_share(&mut kv, "A", "s1");

    let granted = grant_share_object(
        &mut kv,
        &GrantShareObjectReq {
            share_name: ident("A", "s1"),
            object: ShareGrantObjectName::Database(String::from("db")),
            privilege: PRIVILEGE_USAGE,
            grant_on: 2,
        },
    );
    assert!(granted.is_ok());

    let (_seq, v) = kv.get(&Key::DatabaseId(db_id));
    match v {
        Some(Value::DatabaseMeta(dm)) => assert!(dm.shared_by.contains(&share_id)),
        _ => panic!("database metadata missing"),
    }

    let revoked = revoke_share_object(
        &mut kv,
        &RevokeShareObjectReq {
            share_name: ident("A", "s1"),
            object: ShareGrantObjectName::Database(String::from("db")),
            privilege: PRIVILEGE_USAGE,
            update_on: 3,
        },
    );
    assert!(revoked.is_ok());
    let (_seq, v) = kv.get(&Key::DatabaseId(db_id));
    match v {
        Some(Value::DatabaseMeta(dm)) => assert!(!dm.shared_by.contains(&share_id)),
        _ => panic!("database metadata missing"),
    }

    let dropped = drop_share(
        &mut kv,
        &DropShareReq {
            if_exists: false,
            share_name: ident("A", "s1"),
        },
    );
    assert!(dropped.is_ok());
    assert_eq!(kv.get(&Key::ShareName(ident("A", "s1"))).0, 0);
    assert_eq!(kv.get(&Key::ShareId(share_id)).0, 0);
    assert_eq!(kv.get(&Key::ShareIdToName(share_id)).0, 0);
    assert_eq!(
        kv.get(&Key::Object(ShareGrantObject::Database(db_id))).0 > 0,
        true
    );
}

#[test]
fn table_before_database() {
    let mut kv = KvStore::new();
    let tenant = String::from("A");
    create_database(&mut kv, &tenant, &String::from("db"));
    create_table(
        &mut kv,
        &tenant,
        &String::from("db"),
        &String::from("t1"),
    )
    .expect("create_table");
    make_share(&mut kv, "A", "s1");

    let granted = grant_share_object(
        &mut kv,
        &GrantShareObjectReq {
            share_name: ident("A", "s1"),
            object: ShareGrantObjectName::Table(String::from("db"), String::from("t1")),
            privilege: PRIVILEGE_SELECT,
            grant_on: 2,
        },
    );
    assert!(matches!(granted, Err(ShareError::WrongShareObject(_))));
}

#[test]
fn cross_database_table() {
    let mut kv = KvStore::new();
    let tenant = String::from("A");
    create_database(&mut kv, &tenant, &String::from("db1"));
    create_database(&mut kv, &tenant, &String::from("db2"));
    create_table(
        &mut kv,
        &tenant,
        &String::from("db2"),
        &String::from("t"),
    )
    .expect("create_table");
    make_share(&mut kv, "A", "s1");

    let granted = grant_share_object(
        &mut kv,
        &GrantShareObjectReq {
            share_name: ident("A", "s1"),
            object: ShareGrantObjectName::Database(String::from("db1")),
            privilege: PRIVILEGE_USAGE,
            grant_on: 2,
        },
    );
    assert!(granted.is_ok());

    let cross = grant_share_object(
        &mut kv,
        &GrantShareObjectReq {
            share_name: ident("A", "s1"),
            object: ShareGrantObjectName::Table(String::from("db2"), String::from("t")),
            privilege: PRIVILEGE_SELECT,
            grant_on: 3,
        },
    );
    assert!(matches!(cross, Err(ShareError::WrongShareObject(_))));
}

#[test]
fn add_remove_accounts() {
    let mut kv = KvStore::new();
    make_share(&mut kv, "A", "s1");

    let added = add_share_tenants(
        &mut kv,
        &AddShareAccountsReq {
            share_name: ident("A", "s1"),
            if_exists: false,
            accounts: vec![String::from("B"), String::from("C"), String::from("A")],
            share_on: 4,
        },
    );
    assert!(added.is_ok());
    let accounts = share_catalog::queries::get_grant_tenants_of_share(
        &kv,
        &share_catalog::queries::GetShareGrantTenantsReq {
            share_name: ident("A", "s1"),
        },
    )
    .expect("accounts")
    .accounts;
    assert_eq!(accounts.len(), 2);
    assert!(accounts.contains(&String::from("B")));
    assert!(accounts.contains(&String::from("C")));
    assert!(!accounts.contains(&String::from("A")));

    let removed = remove_share_tenants(
        &mut kv,
        &RemoveShareAccountsReq {
            share_name: ident("A", "s1"),
            if_exists: false,
            accounts: vec![String::from("C")],
        },
    );
    assert!(removed.is_ok());
    let accounts = share_catalog::queries::get_grant_tenants_of_share(
        &kv,
        &share_catalog::queries::GetShareGrantTenantsReq {
            share_name: ident("A", "s1"),
        },
    )
    .expect("accounts")
    .accounts;
    assert_eq!(accounts, vec![String::from("B")]);

    let again = remove_share_tenants(
        &mut kv,
        &RemoveShareAccountsReq {
            share_name: ident("A", "s1"),
            if_exists: false,
            accounts: vec![String::from("C")],
        },
    );
    assert!(matches!(again, Err(ShareError::UnknownShareAccounts(_, _))));
}

#[test]
fn if_exists_suppression() {
    let mut kv = KvStore::new();
    let suppressed = drop_share(
        &mut kv,
        &DropShareReq {
            if_exists: true,
            share_name: ident("A", "nonexistent"),
        },
    );
    assert!(suppressed.is_ok());

    let surfaced = drop_share(
        &mut kv,
        &DropShareReq {
            if_exists: false,
            share_name: ident("A", "nonexistent"),
        },
    );
    assert!(matches!(surfaced, Err(ShareError::UnknownShare(_))));
}

#[test]
fn idempotent_grant_and_revoke() {
    let mut kv = KvStore::new();
    let tenant = String::from("A");
    create_database(&mut kv, &tenant, &String::from("db"));
    make_share(&mut kv, "A", "s1");

    let first = grant_share_object(
        &mut kv,
        &GrantShareObjectReq {
            share_name: ident("A", "s1"),
            object: ShareGrantObjectName::Database(String::from("db")),
            privilege: PRIVILEGE_USAGE,
            grant_on: 2,
        },
    );
    assert!(first.is_ok());
    // Granting the same privilege again is a no-op that succeeds.
    let second = grant_share_object(
        &mut kv,
        &GrantShareObjectReq {
            share_name: ident("A", "s1"),
            object: ShareGrantObjectName::Database(String::from("db")),
            privilege: PRIVILEGE_USAGE,
            grant_on: 9,
        },
    );
    assert!(second.is_ok());

    // Revoking a privilege that is not granted is a no-op that succeeds.
    let not_granted = revoke_share_object(
        &mut kv,
        &RevokeShareObjectReq {
            share_name: ident("A", "s1"),
            object: ShareGrantObjectName::Database(String::from("db")),
            privilege: PRIVILEGE_SELECT,
            update_on: 3,
        },
    );
    assert!(not_granted.is_ok());

    let objects = share_catalog::queries::get_share_grant_objects(
        &kv,
        &share_catalog::queries::GetShareGrantObjectReq {
            share_name: ident("A", "s1"),
        },
    )
    .expect("objects")
    .objects;
    assert_eq!(objects.len(), 1);
    assert_eq!(objects[0].privileges, PRIVILEGE_USAGE);
    assert_eq!(objects[0].grant_on, 2);
}

#[test]
fn create_share_duplicates() {
    let mut kv = KvStore::new();
    let id = make_share(&mut kv, "A", "s1");

    let refused = create_share(
        &mut kv,
        &CreateShareReq {
            if_not_exists: false,
            share_name: ident("A", "s1"),
            comment: None,
            create_on: 5,
        },
    );
    assert!(matches!(refused, Err(ShareError::ShareAlreadyExists(_))));

    let reused = create_share(
        &mut kv,
        &CreateShareReq {
            if_not_exists: true,
            share_name: ident("A", "s1"),
            comment: None,
            create_on: 5,
        },
    )
    .expect("if_not_exists");
    assert_eq!(reused.share_id, id);
}

#[test]
fn unknown_objects_are_refused() {
    let mut kv = KvStore::new();
    make_share(&mut kv, "A", "s1");

    let no_db = grant_share_object(
        &mut kv,
        &GrantShareObjectReq {
            share_name: ident("A", "s1"),
            object: ShareGrantObjectName::Database(String::from("missing")),
            privilege: PRIVILEGE_USAGE,
            grant_on: 2,
        },
    );
    assert!(matches!(no_db, Err(ShareError::UnknownDatabase(_))));

    let tenant = String::from("A");
    create_database(&mut kv, &tenant, &String::from("db"));
    let no_table = grant_share_object(
        &mut kv,
        &GrantShareObjectReq {
            share_name: ident("A", "s1"),
            object: ShareGrantObjectName::Table(String::from("db"), String::from("missing")),
            privilege: PRIVILEGE_SELECT,
            grant_on: 2,
        },
    );
    assert!(matches!(no_table, Err(ShareError::UnknownTable(_, _))));

    let no_share = add_share_tenants(
        &mut kv,
        &AddShareAccountsReq {
            share_name: ident("A", "missing"),
            if_exists: false,
            accounts: vec![String::from("B")],
            share_on: 1,
        },
    );
    assert!(matches!(no_share, Err(ShareError::UnknownShare(_))));
}

#[test]
fn table_grants_merge_privileges() {
    let mut kv = KvStore::new();
    let tenant = String::from("A");
    create_database(&mut kv, &tenant, &String::from("db"));
    create_table(&mut kv, &tenant, &String::from("db"), &String::from("t1")).expect("table");
    make_share(&mut kv, "A", "s1");

    grant_share_object(
        &mut kv,
        &GrantShareObjectReq {
            share_name: ident("A", "s1"),
            object: ShareGrantObjectName::Database(String::from("db")),
            privilege: PRIVILEGE_USAGE,
            grant_on: 2,
        },
    )
    .expect("grant db");
    grant_share_object(
        &mut kv,
        &GrantShareObjectReq {
            share_name: ident("A", "s1"),
            object: ShareGrantObjectName::Table(String::from("db"), String::from("t1")),
            privilege: PRIVILEGE_SELECT,
            grant_on: 3,
        },
    )
    .expect("grant table");

    // Revoking the database while the table grant lingers is refused.
    let blocked = revoke_share_object(
        &mut kv,
        &RevokeShareObjectReq {
            share_name: ident("A", "s1"),
            object: ShareGrantObjectName::Database(String::from("db")),
            privilege: PRIVILEGE_USAGE,
            update_on: 4,
        },
    );
    assert!(matches!(blocked, Err(ShareError::WrongShareObject(_))));

    // After the table grant goes, the database grant can go too.
    revoke_share_object(
        &mut kv,
        &RevokeShareObjectReq {
            share_name: ident("A", "s1"),
            object: ShareGrantObjectName::Table(String::from("db"), String::from("t1")),
            privilege: PRIVILEGE_SELECT,
            update_on: 5,
        },
    )
    .expect("revoke table");
    revoke_share_object(
        &mut kv,
        &RevokeShareObjectReq {
            share_name: ident("A", "s1"),
            object: ShareGrantObjectName::Database(String::from("db")),
            privilege: PRIVILEGE_USAGE,
            update_on: 6,
        },
    )
    .expect("revoke db");

    let objects = share_catalog::queries::get_share_grant_objects(
        &kv,
        &share_catalog::queries::GetShareGrantObjectReq {
            share_name: ident("A", "s1"),
        },
    )
    .expect("objects")
    .objects;
    assert_eq!(objects.len(), 0);
}
