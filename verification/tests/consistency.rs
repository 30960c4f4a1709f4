use share_catalog::api::add_share_tenants;
use share_catalog::api::create_share;
use share_catalog::api::drop_share;
use share_catalog::api::grant_share_object;
use share_catalog::api::AddShareAccountsReq;
use share_catalog::api::CreateShareReq;
use share_catalog::api::DropShareReq;
use share_catalog::api::GrantShareObjectReq;
use share_catalog::catalog::create_database;
use share_catalog::kv::Key;
use share_catalog::kv::KvStore;
use share_catalog::kv::Value;
use share_catalog::types::ShareAccountNameIdent;
use share_catalog::types::ShareGrantObject;
use share_catalog::types::ShareGrantObjectName;
use share_catalog::types::ShareNameIdent;
use share_catalog::types::PRIVILEGE_USAGE;

fn ident(tenant: &str, share: &str) -> ShareNameIdent {
    ShareNameIdent {
        tenant: String::from(tenant),
        share_name: String::from(share),
    }
}

#[test]
fn name_mappings_agree() {
    let mut kv = KvStore::new();
    let id = create_share(
        &mut kv,
        &CreateShareReq {
            if_not_exists: false,
            share_name: ident("A", "s1"),
            comment: None,
            create_on: 1,
        },
    )
    .expect("create")
    .share_id;

    // Forward: name -> id.
    let (fwd_seq, fwd) = kv.get(&Key::ShareName(ident("A", "s1")));
    assert!(fwd_seq > 0);
    assert!(matches!(fwd, Some(Value::Id(x)) if x == id));
    // Reverse: id -> name, agreeing with the forward binding.
    let (rev_seq, rev) = kv.get(&Key::ShareIdToName(id));
    assert!(rev_seq > 0);
    match rev {
        Some(Value::ShareName(nm)) => {
            assert_eq!(nm.tenant, "A");
            assert_eq!(nm.share_name, "s1");
        }
        _ => panic!("reverse binding missing"),
    }
    // The state record exists exactly as long as both do.
    assert!(kv.get(&Key::ShareId(id)).0 > 0);
}

#[test]
fn accounts_match_membership_records() {
    let mut kv = KvStore::new();
    let id = create_share(
        &mut kv,
        &CreateShareReq {
            if_not_exists: false,
            share_name: ident("A", "s1"),
            comment: None,
            create_on: 1,
        },
    )
    .expect("create")
    .share_id;
    add_share_tenants(
        &mut kv,
        &AddShareAccountsReq {
            share_name: ident("A", "s1"),
            if_exists: false,
            accounts: vec![String::from("B"), String::from("C")],
            share_on: 2,
        },
    )
    .expect("add");

    // Every account in the state has its membership record, with fields
    // repeating the key.
    let (_seq, v) = kv.get(&Key::ShareId(id));
    let meta = match v {
        Some(Value::ShareMeta(m)) => m,
        _ => panic!("share state missing"),
    };
    assert_eq!(meta.accounts.len(), 2);
    for account in &meta.accounts {
        let (am_seq, am) = kv.get(&Key::ShareAccount(ShareAccountNameIdent {
            account: account.clone(),
            share_id: id,
        }));
        assert!(am_seq > 0);
        match am {
            Some(Value::ShareAccountMeta(am)) => {
                assert_eq!(&am.account, account);
                assert_eq!(am.share_id, id);
                assert_eq!(am.share_on, 2);
            }
            _ => panic!("membership record missing"),
        }
    }
    // No record for an account that was never listed.
    let (none_seq, _) = kv.get(&Key::ShareAccount(ShareAccountNameIdent {
        account: String::from("D"),
        share_id: id,
    }));
    assert_eq!(none_seq, 0);
}

#[test]
fn reverse_index_tracks_grants() {
    let mut kv = KvStore::new();
    let tenant = String::from("A");
    let db_id = create_database(&mut kv, &tenant, &String::from("db"));
    let id = create_share(
        &mut kv,
        &CreateShareReq {
            if_not_exists: false,
            share_name: ident("A", "s1"),
            comment: None,
            create_on: 1,
        },
    )
    .expect("create")
    .share_id;
    grant_share_object(
        &mut kv,
        &GrantShareObjectReq {
            share_name: ident("A", "s1"),
            object: ShareGrantObjectName::Database(String::from("db")),
            privilege: PRIVILEGE_USAGE,
            grant_on: 2,
        },
    )
    .expect("grant");

    let (_seq, v) = kv.get(&Key::Object(ShareGrantObject::Database(db_id)));
    match v {
        Some(Value::ShareIds(ids)) => assert!(ids.share_ids.contains(&id)),
        _ => panic!("reverse index missing"),
    }

    // Dropping the share leaves the reverse index behind: its id dangles
    // until repaired, and only live shares are promised consistent.
    drop_share(
        &mut kv,
        &DropShareReq {
            if_exists: false,
            share_name: ident("A", "s1"),
        },
    )
    .expect("drop");
    let (_seq, v) = kv.get(&Key::Object(ShareGrantObject::Database(db_id)));
    match v {
        Some(Value::ShareIds(ids)) => assert!(ids.share_ids.contains(&id)),
        _ => panic!("reverse index missing"),
    }
    assert_eq!(kv.get(&Key::ShareId(id)).0, 0);

    // Listing the object's privileges now trips over the dangling member.
    let listed = share_catalog::queries::get_grant_privileges_of_object(
        &kv,
        &share_catalog::queries::GetObjectGrantPrivilegesReq {
            tenant: String::from("A"),
            object: ShareGrantObjectName::Database(String::from("db")),
        },
    );
    assert!(matches!(
        listed,
        Err(share_catalog::types::ShareError::UnknownShareId(i)) if i == id
    ));
}
