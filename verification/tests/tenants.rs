//! Tenants, branches and the catalog.

use aetheldb::common::ids::{TenantId, TimelineId};
use aetheldb::common::lsn::Lsn;
use aetheldb::common::page::{ForkNumber, PageKey, RelTag, PAGE_SIZE};
use aetheldb::pageserver::catalog::{restore, snapshot, Catalog, TenantRecord, TimelineRecord};
use aetheldb::pageserver::page::{ByteEdit, Modification, PageVersion};
use aetheldb::pageserver::repository::PageLookup;
use aetheldb::pageserver::tenant::{Tenant, TenantError};
use aetheldb::pageserver::tenant_manager::{TenantManager, TenantManagerError};
use aetheldb::pageserver::walredo::RustApplyRedoManager;

fn rel() -> RelTag {
    RelTag { spc_node: 1, db_node: 2, rel_node: 3, fork: ForkNumber::Main }
}
fn key(block: u32) -> PageKey {
    PageKey { rel: rel(), block }
}
fn tl(n: u8) -> TimelineId {
    TimelineId::from_bytes([n; 16])
}
fn tid(n: u8) -> TenantId {
    TenantId::from_bytes([n; 16])
}
fn image(byte: u8, lsn: u64, block: u32) -> Modification {
    Modification {
        rel: rel(),
        block,
        lsn: Lsn(lsn),
        version: PageVersion::Image(vec![byte; PAGE_SIZE]),
    }
}
fn delta(offset: u16, byte: u8, lsn: u64, block: u32) -> Modification {
    Modification {
        rel: rel(),
        block,
        lsn: Lsn(lsn),
        version: PageVersion::Delta(vec![ByteEdit { offset, data: vec![byte] }]),
    }
}
fn ingest(tenant: &mut Tenant<RustApplyRedoManager>, n: u8, mods: Vec<Modification>) {
    tenant.get_timeline_mut(tl(n)).unwrap().ingest(mods);
}
fn page(tenant: &Tenant<RustApplyRedoManager>, n: u8, block: u32, lsn: u64) -> Vec<u8> {
    match tenant.get_timeline(tl(n)).unwrap().get_page(tenant, key(block), Lsn(lsn)).unwrap() {
        PageLookup::Page(p) => p,
        other => panic!("expected page, got {other:?}"),
    }
}
fn rel_size(tenant: &Tenant<RustApplyRedoManager>, n: u8, lsn: u64) -> Option<u32> {
    tenant.get_timeline(tl(n)).unwrap().get_rel_size(tenant, rel(), Lsn(lsn))
}

#[test]
fn branch_inherits_unmodified_pages_from_parent() {
    let mut tenant = Tenant::new(1_000);
    tenant.create_timeline(tl(1)).unwrap();
    ingest(&mut tenant, 1, vec![image(7, 10, 0)]);

    // Branch at LSN 20; the page was last written at 10, so the branch sees it.
    tenant.branch_timeline(tl(2), tl(1), Lsn(20)).unwrap();
    assert_eq!(page(&tenant, 2, 0, 100)[0], 7, "branch inherits the parent's page");
}

#[test]
fn branch_writes_are_copy_on_write_and_isolated() {
    let mut tenant = Tenant::new(1_000);
    tenant.create_timeline(tl(1)).unwrap();
    ingest(&mut tenant, 1, vec![image(0, 10, 0)]);

    tenant.branch_timeline(tl(2), tl(1), Lsn(20)).unwrap();
    // Modify the page only on the branch (a delta over the inherited base).
    ingest(&mut tenant, 2, vec![delta(0, 0xAB, 30, 0)]);

    // Branch reflects the change; parent is untouched.
    assert_eq!(page(&tenant, 2, 0, 100)[0], 0xAB, "branch sees its own write");
    assert_eq!(page(&tenant, 1, 0, 100)[0], 0, "parent is unaffected (isolation)");
}

#[test]
fn parent_changes_after_branch_point_are_not_visible() {
    let mut tenant = Tenant::new(1_000);
    tenant.create_timeline(tl(1)).unwrap();
    ingest(&mut tenant, 1, vec![image(1, 10, 0)]);
    tenant.branch_timeline(tl(2), tl(1), Lsn(20)).unwrap();

    // Parent writes again *after* the branch point.
    ingest(&mut tenant, 1, vec![delta(0, 0x99, 50, 0)]);

    assert_eq!(page(&tenant, 1, 0, 100)[0], 0x99, "parent advances");
    assert_eq!(page(&tenant, 2, 0, 100)[0], 1, "branch is frozen at the branch point");
}

#[test]
fn pitr_time_travel_within_a_timeline() {
    let mut tenant = Tenant::new(1_000);
    tenant.create_timeline(tl(1)).unwrap();
    ingest(&mut tenant, 1, vec![image(0, 10, 0), delta(0, 0x11, 20, 0), delta(0, 0x22, 30, 0)]);

    assert_eq!(page(&tenant, 1, 0, 10)[0], 0, "at LSN 10: base image");
    assert_eq!(page(&tenant, 1, 0, 25)[0], 0x11, "at LSN 25: first delta only");
    assert_eq!(page(&tenant, 1, 0, 30)[0], 0x22, "at LSN 30: both deltas");
}

#[test]
fn branch_at_a_past_lsn_sees_history_as_of_that_point() {
    let mut tenant = Tenant::new(1_000);
    tenant.create_timeline(tl(1)).unwrap();
    ingest(&mut tenant, 1, vec![image(0, 10, 0), delta(0, 0x11, 20, 0), delta(0, 0x22, 30, 0)]);

    // Branch as of LSN 20 (before the second delta): should see 0x11, not 0x22.
    tenant.branch_timeline(tl(2), tl(1), Lsn(20)).unwrap();
    assert_eq!(page(&tenant, 2, 0, 100)[0], 0x11, "branch captures the parent at LSN 20");
}

#[test]
fn multi_level_branches_inherit_through_the_chain() {
    let mut tenant = Tenant::new(1_000);
    tenant.create_timeline(tl(1)).unwrap();
    ingest(&mut tenant, 1, vec![image(5, 10, 0)]);
    tenant.branch_timeline(tl(2), tl(1), Lsn(20)).unwrap();
    ingest(&mut tenant, 2, vec![delta(1, 0x44, 30, 0)]); // modify byte 1 on the child
    tenant.branch_timeline(tl(3), tl(2), Lsn(40)).unwrap();

    // Grandchild inherits byte 0 from main and byte 1 from the child.
    let p = page(&tenant, 3, 0, 100);
    assert_eq!(p[0], 5, "byte 0 inherited from the grandparent");
    assert_eq!(p[1], 0x44, "byte 1 inherited from the parent branch");
}

#[test]
fn rel_size_inherited_from_ancestor() {
    let mut tenant = Tenant::new(1_000);
    tenant.create_timeline(tl(1)).unwrap();
    ingest(&mut tenant, 1, vec![image(0, 10, 0), image(0, 12, 4)]); // 5 blocks by LSN 12
    tenant.branch_timeline(tl(2), tl(1), Lsn(20)).unwrap();
    assert_eq!(rel_size(&tenant, 2, 100), Some(5), "branch inherits the size");

    // Extending the relation on the branch grows it further.
    ingest(&mut tenant, 2, vec![image(0, 30, 9)]); // block 9 -> 10 blocks
    assert_eq!(rel_size(&tenant, 2, 100), Some(10));
    assert_eq!(rel_size(&tenant, 1, 100), Some(5), "parent size unchanged");
}

#[test]
fn parent_growth_and_collections_leave_branch_sizes() {
    let mut tenant = Tenant::new(usize::MAX);
    tenant.create_timeline(tl(1)).unwrap();
    ingest(&mut tenant, 1, vec![image(1, 10, 0), image(1, 20, 2)]);
    tenant.branch_timeline(tl(2), tl(1), Lsn(20)).unwrap();
    assert_eq!(rel_size(&tenant, 2, 5), Some(3));
    assert_eq!(rel_size(&tenant, 2, 100), Some(3));

    ingest(&mut tenant, 1, vec![image(2, 30, 9)]);
    assert_eq!(rel_size(&tenant, 1, 29), Some(3));
    assert_eq!(rel_size(&tenant, 1, 30), Some(10));
    assert_eq!(rel_size(&tenant, 2, 100), Some(3));

    tenant.gc(Lsn(100));
    assert_eq!(rel_size(&tenant, 1, 10), Some(1));
    assert_eq!(rel_size(&tenant, 1, 100), Some(10));
    assert_eq!(rel_size(&tenant, 2, 100), Some(3));
}

#[test]
fn duplicate_and_missing_parent_are_errors() {
    let mut tenant = Tenant::new(1_000);
    tenant.create_timeline(tl(1)).unwrap();
    assert_eq!(tenant.create_timeline(tl(1)).err(), Some(TenantError::AlreadyExists(tl(1))));
    assert_eq!(
        tenant.branch_timeline(tl(2), tl(9), Lsn(10)).err(),
        Some(TenantError::NoSuchParent(tl(9))),
    );
    // The parent is looked for first.
    assert_eq!(
        tenant.branch_timeline(tl(1), tl(1), Lsn(10)).err(),
        Some(TenantError::AlreadyExists(tl(1))),
    );
    assert_eq!(tenant.timeline_count(), 1);
    assert_eq!(
        TenantError::AlreadyExists(tl(1)).to_string(),
        "timeline 01010101010101010101010101010101 already exists"
    );
    assert_eq!(
        TenantError::NoSuchParent(tl(9)).to_string(),
        "parent timeline 09090909090909090909090909090909 does not exist"
    );
}

#[test]
fn gc_collapses_main_line_history_without_branches() {
    let mut tenant = Tenant::new(1); // freeze each write
    tenant.create_timeline(tl(1)).unwrap();
    ingest(
        &mut tenant,
        1,
        vec![image(7, 10, 0), delta(0, 0xAA, 20, 0), image(1, 30, 0), delta(0, 0xBB, 40, 0)],
    );

    let stats = tenant.gc(Lsn(35));
    let removed: usize = stats.iter().map(|(_, s)| s.versions_removed).sum();
    assert_eq!(removed, 2, "image@10 + delta@20 collapsed");
    assert_eq!(page(&tenant, 1, 0, 40)[0], 0xBB, "reads within retention unchanged");
}

#[test]
fn gc_respects_branch_pins() {
    let mut tenant = Tenant::new(1);
    tenant.create_timeline(tl(1)).unwrap();
    // base@10 (all 7s), delta@20, a newer full image@30, delta@40.
    ingest(
        &mut tenant,
        1,
        vec![image(7, 10, 0), delta(1, 0x11, 20, 0), image(9, 30, 0), delta(0, 0xBB, 40, 0)],
    );
    // Branch at LSN 15 - between base@10 and delta@20. The branch reads main@15.
    tenant.branch_timeline(tl(2), tl(1), Lsn(15)).unwrap();

    // GC at a high horizon. Unpinned, main would drop everything below
    // image@30 and the branch's read at 15 would break. The branch pin lowers
    // main's effective horizon to 15, so image@10 is retained.
    tenant.gc(Lsn(100));

    assert_eq!(page(&tenant, 2, 0, 100)[0], 7, "branch still reconstructs main@15");
    // Main itself still serves its own latest state.
    let p = page(&tenant, 1, 0, 100);
    assert_eq!(p[0], 0xBB);
    assert!(p[2..].iter().all(|&b| b == 9), "image@30 base preserved on main");
}

#[test]
fn page_absent_in_branch_and_ancestor_is_not_found() {
    let mut tenant = Tenant::new(1_000);
    tenant.create_timeline(tl(1)).unwrap();
    ingest(&mut tenant, 1, vec![image(0, 10, 0)]);
    tenant.branch_timeline(tl(2), tl(1), Lsn(20)).unwrap();
    let branch = tenant.get_timeline(tl(2)).unwrap();
    assert_eq!(branch.get_page(&tenant, key(999), Lsn(100)).unwrap(), PageLookup::NotFound);
}

#[test]
fn a_new_branch_shows_the_branch_point() {
    let mut tenant = Tenant::new(2);
    tenant.create_timeline(tl(1)).unwrap();
    ingest(&mut tenant, 1, vec![image(3, 10, 0), delta(4, 0x11, 20, 0), delta(4, 0x22, 30, 0)]);
    let at_25 = page(&tenant, 1, 0, 25);
    tenant.branch_timeline(tl(2), tl(1), Lsn(25)).unwrap();
    assert_eq!(page(&tenant, 2, 0, 25), at_25);
    assert_eq!(page(&tenant, 2, 0, 1_000), at_25);
    // An inherited page is the parent's at the branch point, at any position.
    assert!(page(&tenant, 2, 0, 15) == at_25);
    let branch = tenant.get_timeline(tl(2)).unwrap();
    assert_eq!(branch.id(), tl(2));
    assert_eq!(branch.ancestor_timeline(), Some(tl(1)));
    assert_eq!(branch.ancestor_lsn(), Some(Lsn(25)));
    assert_eq!(tenant.get_timeline(tl(1)).unwrap().ancestor_timeline(), None);
}

#[test]
fn provisions_lazily_and_isolates_tenants() {
    let mut mgr = TenantManager::new(1_000);
    assert!(mgr.get(tid(1)).is_none());

    // First reference creates the tenant; a second returns the same one.
    mgr.get_or_create(tid(1)).create_timeline(tl(5)).unwrap();
    assert!(mgr.get_or_create(tid(1)).get_timeline(tl(5)).is_some());
    assert_eq!(mgr.tenant_ids().len(), 1);

    // A different id is a different, isolated tenant.
    assert!(mgr.get_or_create(tid(2)).get_timeline(tl(5)).is_none());

    mgr.get_or_create(tid(1)).create_timeline(TimelineId::zero()).unwrap();
    // Tenant b does not see tenant a's timeline.
    assert!(mgr.get(tid(1)).unwrap().get_timeline(TimelineId::zero()).is_some());
    assert!(mgr.get(tid(2)).unwrap().get_timeline(TimelineId::zero()).is_none());

    let mut ids = mgr.tenant_ids();
    ids.sort_by_key(|t| t.to_string());
    assert_eq!(ids, vec![tid(1), tid(2)]);
}

#[test]
fn explicit_create_rejects_duplicates() {
    let mut mgr = TenantManager::new(1_000);
    assert!(mgr.create(tid(7)).is_ok());
    assert!(
        matches!(mgr.create(tid(7)), Err(TenantManagerError::AlreadyExists(id)) if id == tid(7))
    );
}

#[test]
fn gc_all_spans_every_tenant() {
    let mut mgr = TenantManager::new(1_000);
    mgr.get_or_create(tid(1)).create_timeline(TimelineId::zero()).unwrap();
    mgr.get_or_create(tid(2)).create_timeline(TimelineId::zero()).unwrap();
    // GC touches a timeline in each tenant (two timelines total).
    let stats = mgr.gc_all(Lsn(10));
    assert_eq!(stats.len(), 2);
}

#[test]
fn tenants_come_and_go() {
    let mut mgr = TenantManager::new(1_000);
    mgr.provision(tid(1));
    mgr.provision(tid(1));
    assert_eq!(mgr.tenants().len(), 1);
    assert!(mgr.get_mut(tid(1)).is_some());
    assert!(mgr.remove(tid(1)));
    assert!(!mgr.remove(tid(1)));
    assert!(mgr.get_mut(tid(1)).is_none());
    assert_eq!(
        TenantManagerError::AlreadyExists(tid(7)).to_string(),
        "tenant 07070707070707070707070707070707 already exists"
    );

    let mut tenant = Tenant::new(10);
    tenant.create_timeline(tl(4)).unwrap();
    let mgr = TenantManager::single(tenant);
    assert_eq!(mgr.tenant_ids(), vec![TenantId::zero()]);
    assert!(mgr.get(TenantId::zero()).unwrap().get_timeline(tl(4)).is_some());
}

#[test]
fn topology_survives_a_save_load_into_a_fresh_manager() {
    // Build a topology: two tenants; tenant 1 has a root + a branch.
    let mut m1 = TenantManager::new(1_000);
    let t1 = m1.get_or_create(tid(1));
    t1.create_timeline(tl(0)).unwrap();
    t1.branch_timeline(tl(2), tl(0), Lsn(100)).unwrap();
    m1.get_or_create(tid(3)).create_timeline(tl(0)).unwrap();

    // Write it down, then restore into a brand-new manager.
    let loaded = snapshot(&m1);
    let mut m2 = TenantManager::new(1_000);
    restore(&mut m2, &loaded);

    // Tenants and timelines came back.
    let mut tenants = m2.tenant_ids();
    tenants.sort_by_key(|t| t.to_string());
    assert_eq!(tenants, vec![tid(1), tid(3)]);

    let r1 = m2.get(tid(1)).unwrap();
    assert!(r1.get_timeline(tl(0)).is_some());
    let branch = r1.get_timeline(tl(2)).expect("branch restored");
    assert_eq!(branch.ancestor_timeline(), Some(tl(0)));
    assert_eq!(branch.ancestor_lsn(), Some(Lsn(100)));

    assert!(m2.get(tid(3)).unwrap().get_timeline(tl(0)).is_some());

    // Restoring again is idempotent.
    restore(&mut m2, &loaded);
    assert_eq!(m2.get(tid(1)).unwrap().timeline_ids().len(), 2);
    assert_eq!(snapshot(&m2), loaded);
}

#[test]
fn snapshots_are_sorted_by_id() {
    let mut m = TenantManager::new(1_000);
    m.provision(tid(9));
    let t = m.get_or_create(tid(1));
    t.create_timeline(tl(8)).unwrap();
    t.branch_timeline(tl(2), tl(8), Lsn(5)).unwrap();
    let c = snapshot(&m);
    assert_eq!(c.version, 1);
    let ids: Vec<&str> = c.tenants.iter().map(|t| t.id.as_str()).collect();
    assert_eq!(ids, vec![tid(1).to_string().as_str(), tid(9).to_string().as_str()]);
    assert_eq!(
        c.tenants[0].timelines,
        vec![
            TimelineRecord {
                id: tl(2).to_string(),
                ancestor: Some(tl(8).to_string()),
                ancestor_lsn: Some(5),
            },
            TimelineRecord { id: tl(8).to_string(), ancestor: None, ancestor_lsn: None },
        ]
    );
}

#[test]
fn branches_are_restored_after_their_parents() {
    let branch = |n: u8, of: u8| TimelineRecord {
        id: tl(n).to_string(),
        ancestor: Some(tl(of).to_string()),
        ancestor_lsn: Some(10 * n as u64),
    };
    let catalog = Catalog {
        version: 1,
        tenants: vec![
            TenantRecord {
                id: tid(1).to_string(),
                timelines: vec![
                    branch(1, 2),
                    branch(2, 3),
                    branch(7, 9), // its parent is not recorded
                    TimelineRecord { id: "junk".to_string(), ancestor: None, ancestor_lsn: None },
                    TimelineRecord { id: tl(3).to_string(), ancestor: None, ancestor_lsn: None },
                ],
            },
            TenantRecord { id: "no id".to_string(), timelines: vec![] },
        ],
    };
    let mut m = TenantManager::new(1_000);
    restore(&mut m, &catalog);
    assert_eq!(m.tenant_ids(), vec![tid(1)]);
    let t = m.get(tid(1)).unwrap();
    assert_eq!(t.timeline_count(), 3);
    assert_eq!(t.get_timeline(tl(1)).unwrap().ancestor_lsn(), Some(Lsn(10)));
    assert_eq!(t.get_timeline(tl(2)).unwrap().ancestor_timeline(), Some(tl(3)));
    assert!(t.get_timeline(tl(7)).is_none());
}

#[test]
fn a_branch_reads_like_one_repository() {
    let mut tenant = Tenant::new(2);
    tenant.create_timeline(tl(1)).unwrap();
    ingest(&mut tenant, 1, vec![image(1, 10, 0), delta(0, 0xAA, 20, 0), delta(1, 0xCC, 40, 0)]);
    tenant.branch_timeline(tl(2), tl(1), Lsn(30)).unwrap();
    ingest(&mut tenant, 2, vec![delta(2, 0xBB, 50, 0)]);

    // The parent's versions up to the branch point, and the branch's own.
    tenant.create_timeline(tl(9)).unwrap();
    ingest(&mut tenant, 9, vec![image(1, 10, 0), delta(0, 0xAA, 20, 0), delta(2, 0xBB, 50, 0)]);
    for lsn in [30, 40, 49, 50, 1_000] {
        assert_eq!(page(&tenant, 2, 0, lsn), page(&tenant, 9, 0, lsn));
    }
    assert_eq!(&page(&tenant, 2, 0, 50)[..3], &[0xAA, 1, 0xBB]);
}

#[test]
fn snapshots_are_canonical_and_restored_in_any_order() {
    let mut m = TenantManager::new(1_000);
    let t = m.get_or_create(tid(5));
    t.create_timeline(tl(8)).unwrap();
    t.branch_timeline(tl(2), tl(8), Lsn(5)).unwrap();
    t.branch_timeline(tl(1), tl(2), Lsn(7)).unwrap();
    m.get_or_create(tid(3)).create_timeline(tl(4)).unwrap();
    let c = snapshot(&m);

    // The same topology, built the other way round.
    let mut n = TenantManager::new(9);
    n.get_or_create(tid(3)).create_timeline(tl(4)).unwrap();
    let t = n.get_or_create(tid(5));
    t.create_timeline(tl(8)).unwrap();
    t.branch_timeline(tl(2), tl(8), Lsn(5)).unwrap();
    t.branch_timeline(tl(1), tl(2), Lsn(7)).unwrap();
    assert_eq!(snapshot(&n), c);

    // Restored from the records in the opposite order.
    let mut shuffled = c.clone();
    shuffled.tenants.reverse();
    for t in shuffled.tenants.iter_mut() {
        t.timelines.reverse();
    }
    assert!(shuffled != c);
    let mut back = TenantManager::new(1_000);
    restore(&mut back, &shuffled);
    assert_eq!(snapshot(&back), c);
    restore(&mut back, &shuffled);
    assert_eq!(snapshot(&back), c);
}
