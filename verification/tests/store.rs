use udisks_topology::classifier::Role;
use udisks_topology::records::{DriveAttributes, PartitionEntry};
use udisks_topology::store::TopologyStore;
use udisks_topology::tree::{BlockSubtree, DeviceTree, DriveSubtree};

fn no_attributes() -> DriveAttributes {
    DriveAttributes { model: None, serial: None, removable: None, media_present: None }
}

fn attributes(model: &str, serial: &str, removable: bool, media_present: bool) -> DriveAttributes {
    DriveAttributes {
        model: Some(model.to_string()),
        serial: Some(serial.to_string()),
        removable: Some(removable),
        media_present: Some(media_present),
    }
}

fn entry(identity: &str, number: u32) -> PartitionEntry {
    PartitionEntry { identity: identity.to_string(), number }
}

fn some(text: &str) -> Option<String> {
    Some(text.to_string())
}

fn bare(identity: &str, declared_parent: Option<&str>, partitions: Vec<PartitionEntry>) -> BlockSubtree {
    BlockSubtree {
        identity: identity.to_string(),
        declared_parent: declared_parent.map(|parent| parent.to_string()),
        partitions,
    }
}

fn identities(entries: &[PartitionEntry]) -> Vec<String> {
    entries.iter().map(|entry| entry.identity.clone()).collect()
}

fn table_of(tree: &DeviceTree, identity: &str) -> Vec<PartitionEntry> {
    for drive in &tree.drives {
        for block in &drive.blocks {
            if block.identity == identity {
                return block.partitions.clone();
            }
        }
    }
    for block in &tree.bare {
        if block.identity == identity {
            return block.partitions.clone();
        }
    }
    panic!("no block {identity} in the tree");
}

#[test]
fn a_new_store_is_empty() {
    let store: TopologyStore<u32> = TopologyStore::new();
    let tree = store.snapshot();
    assert_eq!(tree, DeviceTree { drives: vec![], bare: vec![] });
    assert!(store.orphans().is_empty());
    assert_eq!(store.role("/d1"), Role::Neither);
    assert_eq!(store.drive_handle("/d1"), None);
    assert_eq!(store.block_handle("/d1"), None);
}

#[test]
fn a_drive_is_shown_with_its_attributes() {
    let mut store: TopologyStore<u32> = TopologyStore::new();
    store.insert_drive("/d1".to_string(), 7, attributes("Disk", "S1", true, false));
    let tree = store.snapshot();
    assert_eq!(
        tree,
        DeviceTree {
            drives: vec![DriveSubtree {
                identity: "/d1".to_string(),
                attributes: attributes("Disk", "S1", true, false),
                blocks: vec![],
            }],
            bare: vec![],
        }
    );
    assert_eq!(store.role("/d1"), Role::Drive);
    assert_eq!(store.drive_handle("/d1"), Some(&7));
    assert_eq!(store.block_handle("/d1"), None);
}

#[test]
fn a_block_without_parent_is_a_root_and_no_orphan() {
    let mut store: TopologyStore<u32> = TopologyStore::new();
    store.insert_block("/loop0".to_string(), 3, None);
    let tree = store.snapshot();
    assert_eq!(tree, DeviceTree { drives: vec![], bare: vec![bare("/loop0", None, vec![])] });
    assert!(store.orphans().is_empty());
    assert_eq!(store.role("/loop0"), Role::Block);
    assert_eq!(store.block_handle("/loop0"), Some(&3));
    assert_eq!(store.drive_handle("/loop0"), None);
}

#[test]
fn insert_drive_twice_is_insert_once() {
    let mut once: TopologyStore<u32> = TopologyStore::new();
    once.insert_block("/b1".to_string(), 1, some("/d1"));
    once.insert_drive("/d1".to_string(), 2, attributes("Disk", "S1", false, true));
    let mut twice: TopologyStore<u32> = TopologyStore::new();
    twice.insert_block("/b1".to_string(), 1, some("/d1"));
    twice.insert_drive("/d1".to_string(), 2, attributes("Disk", "S1", false, true));
    twice.insert_drive("/d1".to_string(), 2, attributes("Disk", "S1", false, true));
    assert_eq!(once.snapshot(), twice.snapshot());
    assert_eq!(twice.snapshot().drives.len(), 1);
    assert_eq!(twice.drive_handle("/d1"), Some(&2));
}

#[test]
fn insert_block_twice_is_insert_once() {
    let mut once: TopologyStore<u32> = TopologyStore::new();
    once.insert_drive("/d1".to_string(), 2, no_attributes());
    once.insert_block("/b1".to_string(), 1, some("/d1"));
    once.insert_block("/b2".to_string(), 5, None);
    let mut twice: TopologyStore<u32> = TopologyStore::new();
    twice.insert_drive("/d1".to_string(), 2, no_attributes());
    twice.insert_block("/b1".to_string(), 1, some("/d1"));
    twice.insert_block("/b2".to_string(), 5, None);
    twice.insert_block("/b1".to_string(), 1, some("/d1"));
    twice.insert_block("/b2".to_string(), 5, None);
    assert_eq!(once.snapshot(), twice.snapshot());
    assert_eq!(twice.snapshot().drives[0].blocks.len(), 1);
    assert_eq!(twice.snapshot().bare.len(), 1);
}

#[test]
fn place_partition_twice_is_place_once() {
    let mut once: TopologyStore<u32> = TopologyStore::new();
    once.insert_block("/t".to_string(), 1, None);
    once.place_partition("/p1".to_string(), "/t", 1);
    once.place_partition("/p2".to_string(), "/t", 2);
    let mut twice: TopologyStore<u32> = TopologyStore::new();
    twice.insert_block("/t".to_string(), 1, None);
    twice.place_partition("/p1".to_string(), "/t", 1);
    twice.place_partition("/p2".to_string(), "/t", 2);
    twice.place_partition("/p1".to_string(), "/t", 1);
    twice.place_partition("/p1".to_string(), "/t", 1);
    assert_eq!(once.snapshot(), twice.snapshot());
    assert_eq!(table_of(&twice.snapshot(), "/t"), vec![entry("/p1", 1), entry("/p2", 2)]);
}

#[test]
fn reinserting_a_drive_refreshes_it_in_place() {
    let mut store: TopologyStore<u32> = TopologyStore::new();
    store.insert_drive("/d1".to_string(), 1, attributes("Old", "S1", false, false));
    store.insert_drive("/d2".to_string(), 2, no_attributes());
    store.insert_block("/b1".to_string(), 3, some("/d1"));
    store.insert_drive("/d1".to_string(), 9, attributes("New", "S1", false, true));
    let tree = store.snapshot();
    assert_eq!(tree.drives.len(), 2);
    assert_eq!(tree.drives[0].identity, "/d1");
    assert_eq!(tree.drives[0].attributes, attributes("New", "S1", false, true));
    assert_eq!(tree.drives[0].blocks, vec![bare("/b1", Some("/d1"), vec![])]);
    assert_eq!(tree.drives[1].identity, "/d2");
    assert_eq!(store.drive_handle("/d1"), Some(&9));
}

#[test]
fn reinserting_a_block_keeps_its_table_and_can_move_it() {
    let mut store: TopologyStore<u32> = TopologyStore::new();
    store.insert_drive("/d1".to_string(), 1, no_attributes());
    store.insert_drive("/d2".to_string(), 2, no_attributes());
    store.insert_block("/t".to_string(), 3, some("/d1"));
    store.place_partition("/p1".to_string(), "/t", 1);
    store.insert_block("/t".to_string(), 4, some("/d2"));
    let tree = store.snapshot();
    assert!(tree.drives[0].blocks.is_empty());
    assert_eq!(tree.drives[1].blocks, vec![bare("/t", Some("/d2"), vec![entry("/p1", 1)])]);
    assert!(tree.bare.is_empty());
    assert_eq!(store.block_handle("/t"), Some(&4));
    store.insert_block("/t".to_string(), 5, None);
    let tree = store.snapshot();
    assert!(tree.drives[1].blocks.is_empty());
    assert_eq!(tree.bare, vec![bare("/t", None, vec![entry("/p1", 1)])]);
}

#[test]
fn drive_then_block_gives_the_block_under_the_drive() {
    let mut store: TopologyStore<u32> = TopologyStore::new();
    store.insert_drive("/d1".to_string(), 1, no_attributes());
    store.insert_block("/b1".to_string(), 2, some("/d1"));
    let tree = store.snapshot();
    assert_eq!(tree.drives.len(), 1);
    assert_eq!(tree.drives[0].identity, "/d1");
    assert_eq!(tree.drives[0].blocks, vec![bare("/b1", Some("/d1"), vec![])]);
    assert!(tree.bare.is_empty());
    assert!(store.orphans().is_empty());
}

#[test]
fn either_order_of_drive_and_block_gives_the_same_tree() {
    let mut drive_first: TopologyStore<u32> = TopologyStore::new();
    drive_first.insert_drive("/d1".to_string(), 1, attributes("Disk", "S1", false, true));
    drive_first.insert_block("/b1".to_string(), 2, some("/d1"));
    let mut block_first: TopologyStore<u32> = TopologyStore::new();
    block_first.insert_block("/b1".to_string(), 2, some("/d1"));
    block_first.insert_drive("/d1".to_string(), 1, attributes("Disk", "S1", false, true));
    assert_eq!(drive_first.snapshot(), block_first.snapshot());
    assert_eq!(drive_first.orphans(), block_first.orphans());
}

#[test]
fn either_order_gives_the_same_tree_in_a_store_that_knows_both_names_otherwise() {
    let mut drive_first: TopologyStore<u32> = TopologyStore::new();
    let mut block_first: TopologyStore<u32> = TopologyStore::new();
    for store in [&mut drive_first, &mut block_first] {
        store.insert_block("/x".to_string(), 10, None);
        store.insert_block("/t".to_string(), 11, None);
        store.place_partition("/x".to_string(), "/t", 1);
        store.place_partition("/y".to_string(), "/t", 2);
        store.insert_drive("/y".to_string(), 12, no_attributes());
        store.insert_block("/c".to_string(), 13, some("/y"));
    }
    // "/x" is a block and becomes the drive; "/y" is a drive and becomes the block.
    drive_first.insert_drive("/x".to_string(), 1, no_attributes());
    drive_first.insert_block("/y".to_string(), 2, some("/x"));
    block_first.insert_block("/y".to_string(), 2, some("/x"));
    block_first.insert_drive("/x".to_string(), 1, no_attributes());
    assert_eq!(drive_first.snapshot(), block_first.snapshot());
    let tree = drive_first.snapshot();
    assert_eq!(tree.drives.len(), 1);
    assert_eq!(tree.drives[0].identity, "/x");
    assert_eq!(tree.drives[0].blocks, vec![bare("/y", Some("/x"), vec![])]);
    assert_eq!(tree.bare, vec![bare("/t", None, vec![]), bare("/c", Some("/y"), vec![])]);
    assert_eq!(drive_first.orphans(), vec!["/c".to_string()]);
}

#[test]
fn an_orphan_is_attached_when_its_drive_arrives() {
    let mut store: TopologyStore<u32> = TopologyStore::new();
    store.insert_block("/b1".to_string(), 2, some("/d2"));
    let tree = store.snapshot();
    assert!(tree.drives.is_empty());
    assert_eq!(tree.bare, vec![bare("/b1", Some("/d2"), vec![])]);
    assert_eq!(store.orphans(), vec!["/b1".to_string()]);
    store.insert_drive("/d2".to_string(), 1, no_attributes());
    let tree = store.snapshot();
    assert_eq!(tree.drives.len(), 1);
    assert_eq!(tree.drives[0].identity, "/d2");
    assert_eq!(tree.drives[0].blocks, vec![bare("/b1", Some("/d2"), vec![])]);
    assert!(tree.bare.is_empty());
    assert!(store.orphans().is_empty());
}

#[test]
fn another_drive_does_not_adopt_an_orphan() {
    let mut store: TopologyStore<u32> = TopologyStore::new();
    store.insert_block("/b1".to_string(), 2, some("/d2"));
    store.insert_drive("/d1".to_string(), 1, no_attributes());
    let tree = store.snapshot();
    assert!(tree.drives[0].blocks.is_empty());
    assert_eq!(tree.bare, vec![bare("/b1", Some("/d2"), vec![])]);
    assert_eq!(store.orphans(), vec!["/b1".to_string()]);
}

#[test]
fn several_orphans_are_attached_together_in_store_order() {
    let mut store: TopologyStore<u32> = TopologyStore::new();
    store.insert_block("/b1".to_string(), 1, some("/d"));
    store.insert_block("/b2".to_string(), 2, None);
    store.insert_block("/b3".to_string(), 3, some("/d"));
    store.insert_block("/b4".to_string(), 4, some("/e"));
    assert_eq!(store.orphans(), vec!["/b1".to_string(), "/b3".to_string(), "/b4".to_string()]);
    store.insert_drive("/d".to_string(), 5, no_attributes());
    let tree = store.snapshot();
    assert_eq!(
        tree.drives[0].blocks,
        vec![bare("/b1", Some("/d"), vec![]), bare("/b3", Some("/d"), vec![])]
    );
    assert_eq!(tree.bare, vec![bare("/b2", None, vec![]), bare("/b4", Some("/e"), vec![])]);
    assert_eq!(store.orphans(), vec!["/b4".to_string()]);
}

#[test]
fn removing_a_drive_leaves_its_blocks_as_roots() {
    let mut store: TopologyStore<u32> = TopologyStore::new();
    store.insert_drive("/d1".to_string(), 1, no_attributes());
    store.insert_block("/b1".to_string(), 2, some("/d1"));
    assert!(store.remove("/d1"));
    let tree = store.snapshot();
    assert!(tree.drives.is_empty());
    assert_eq!(tree.bare, vec![bare("/b1", Some("/d1"), vec![])]);
    assert_eq!(store.orphans(), vec!["/b1".to_string()]);
    assert_eq!(store.role("/d1"), Role::Neither);
    assert_eq!(store.role("/b1"), Role::Block);
    assert_eq!(store.block_handle("/b1"), Some(&2));
    assert_eq!(store.drive_handle("/d1"), None);
}

#[test]
fn a_drive_that_comes_back_takes_its_blocks_back() {
    let mut store: TopologyStore<u32> = TopologyStore::new();
    store.insert_drive("/d1".to_string(), 1, no_attributes());
    store.insert_block("/b1".to_string(), 2, some("/d1"));
    store.remove("/d1");
    store.insert_drive("/d1".to_string(), 3, no_attributes());
    let tree = store.snapshot();
    assert_eq!(tree.drives[0].blocks, vec![bare("/b1", Some("/d1"), vec![])]);
    assert!(tree.bare.is_empty());
    assert!(store.orphans().is_empty());
}

#[test]
fn removing_a_block_takes_it_out_of_the_tree_and_of_its_table() {
    let mut store: TopologyStore<u32> = TopologyStore::new();
    store.insert_drive("/d1".to_string(), 1, no_attributes());
    store.insert_block("/t".to_string(), 2, some("/d1"));
    store.insert_block("/p1".to_string(), 3, some("/d1"));
    store.insert_block("/p2".to_string(), 4, some("/d1"));
    store.place_partition("/p1".to_string(), "/t", 1);
    store.place_partition("/p2".to_string(), "/t", 2);
    assert!(store.remove("/p1"));
    let tree = store.snapshot();
    assert_eq!(
        tree.drives[0].blocks,
        vec![bare("/t", Some("/d1"), vec![entry("/p2", 2)]), bare("/p2", Some("/d1"), vec![])]
    );
    assert_eq!(store.role("/p1"), Role::Neither);
}

#[test]
fn removing_a_table_leaves_its_partitions_as_blocks() {
    let mut store: TopologyStore<u32> = TopologyStore::new();
    store.insert_block("/t".to_string(), 2, None);
    store.insert_block("/p1".to_string(), 3, None);
    store.place_partition("/p1".to_string(), "/t", 1);
    assert!(store.remove("/t"));
    let tree = store.snapshot();
    assert_eq!(tree.bare, vec![bare("/p1", None, vec![])]);
}

#[test]
fn removing_an_unknown_name_changes_nothing() {
    let mut store: TopologyStore<u32> = TopologyStore::new();
    store.insert_drive("/d1".to_string(), 1, no_attributes());
    store.insert_block("/b1".to_string(), 2, some("/d1"));
    let before = store.snapshot();
    assert!(!store.remove("/nothing"));
    assert_eq!(store.snapshot(), before);
}

#[test]
fn removing_a_name_that_is_only_listed_takes_it_off_the_table() {
    let mut store: TopologyStore<u32> = TopologyStore::new();
    store.insert_block("/t".to_string(), 2, None);
    assert!(store.sync_partitions("/t", vec![entry("/p1", 1), entry("/p2", 2)]));
    assert!(!store.remove("/p1"));
    assert_eq!(table_of(&store.snapshot(), "/t"), vec![entry("/p2", 2)]);
}

#[test]
fn a_name_has_one_role_at_a_time() {
    let mut store: TopologyStore<u32> = TopologyStore::new();
    store.insert_block("/x".to_string(), 1, None);
    store.insert_block("/t".to_string(), 2, None);
    store.place_partition("/x".to_string(), "/t", 1);
    store.insert_drive("/x".to_string(), 3, no_attributes());
    assert_eq!(store.role("/x"), Role::Drive);
    let tree = store.snapshot();
    assert_eq!(tree.drives.len(), 1);
    assert_eq!(tree.bare, vec![bare("/t", None, vec![])]);
    assert_eq!(store.block_handle("/x"), None);
    assert_eq!(store.drive_handle("/x"), Some(&3));
    store.insert_block("/c".to_string(), 4, some("/x"));
    assert_eq!(store.snapshot().drives[0].blocks.len(), 1);
    store.insert_block("/x".to_string(), 5, None);
    assert_eq!(store.role("/x"), Role::Block);
    let tree = store.snapshot();
    assert!(tree.drives.is_empty());
    assert_eq!(
        tree.bare,
        vec![bare("/t", None, vec![]), bare("/c", Some("/x"), vec![]), bare("/x", None, vec![])]
    );
    assert_eq!(store.orphans(), vec!["/c".to_string()]);
}

#[test]
fn partitions_come_by_number_not_by_arrival() {
    let mut store: TopologyStore<u32> = TopologyStore::new();
    store.insert_block("/t".to_string(), 1, None);
    store.place_partition("/p3".to_string(), "/t", 3);
    store.place_partition("/p1".to_string(), "/t", 1);
    store.place_partition("/p5".to_string(), "/t", 5);
    store.place_partition("/p2".to_string(), "/t", 2);
    store.place_partition("/p4".to_string(), "/t", 4);
    assert_eq!(
        table_of(&store.snapshot(), "/t"),
        vec![entry("/p1", 1), entry("/p2", 2), entry("/p3", 3), entry("/p4", 4), entry("/p5", 5)]
    );
}

#[test]
fn partitions_of_one_number_come_in_order_of_arrival() {
    let mut store: TopologyStore<u32> = TopologyStore::new();
    store.insert_block("/t".to_string(), 1, None);
    store.place_partition("/a".to_string(), "/t", 2);
    store.place_partition("/b".to_string(), "/t", 2);
    store.place_partition("/c".to_string(), "/t", 1);
    store.place_partition("/d".to_string(), "/t", 2);
    assert_eq!(identities(&table_of(&store.snapshot(), "/t")), vec!["/c", "/a", "/b", "/d"]);
}

#[test]
fn a_partition_placed_again_moves_to_its_new_number() {
    let mut store: TopologyStore<u32> = TopologyStore::new();
    store.insert_block("/t".to_string(), 1, None);
    store.place_partition("/p1".to_string(), "/t", 1);
    store.place_partition("/p2".to_string(), "/t", 2);
    store.place_partition("/p3".to_string(), "/t", 3);
    store.place_partition("/p1".to_string(), "/t", 4);
    assert_eq!(table_of(&store.snapshot(), "/t"), vec![entry("/p2", 2), entry("/p3", 3), entry("/p1", 4)]);
}

#[test]
fn a_partition_is_in_one_table_only() {
    let mut store: TopologyStore<u32> = TopologyStore::new();
    store.insert_block("/t1".to_string(), 1, None);
    store.insert_block("/t2".to_string(), 2, None);
    store.place_partition("/p".to_string(), "/t1", 1);
    store.place_partition("/q".to_string(), "/t1", 2);
    store.place_partition("/p".to_string(), "/t2", 7);
    let tree = store.snapshot();
    assert_eq!(table_of(&tree, "/t1"), vec![entry("/q", 2)]);
    assert_eq!(table_of(&tree, "/t2"), vec![entry("/p", 7)]);
}

#[test]
fn a_partition_of_an_unknown_table_is_listed_nowhere() {
    let mut store: TopologyStore<u32> = TopologyStore::new();
    store.insert_block("/t1".to_string(), 1, None);
    store.place_partition("/p".to_string(), "/t1", 1);
    store.place_partition("/p".to_string(), "/unknown", 1);
    assert!(table_of(&store.snapshot(), "/t1").is_empty());
    store.insert_drive("/d".to_string(), 2, no_attributes());
    store.place_partition("/q".to_string(), "/d", 1);
    assert_eq!(store.snapshot().bare, vec![bare("/t1", None, vec![])]);
}

#[test]
fn a_block_is_never_its_own_partition() {
    let mut store: TopologyStore<u32> = TopologyStore::new();
    store.insert_block("/t".to_string(), 1, None);
    store.place_partition("/t".to_string(), "/t", 1);
    assert!(table_of(&store.snapshot(), "/t").is_empty());
    assert!(store.sync_partitions("/t", vec![entry("/t", 1)]));
    assert!(table_of(&store.snapshot(), "/t").is_empty());
    assert!(store.sync_partitions("/t", vec![entry("/a", 1), entry("/t", 2), entry("/b", 3)]));
    assert_eq!(table_of(&store.snapshot(), "/t"), vec![entry("/a", 1), entry("/b", 3)]);
}

#[test]
fn a_reread_table_holds_exactly_what_it_reports() {
    let mut store: TopologyStore<u32> = TopologyStore::new();
    store.insert_block("/t".to_string(), 1, None);
    assert!(store.sync_partitions("/t", vec![entry("/p1", 1), entry("/p2", 2)]));
    assert_eq!(table_of(&store.snapshot(), "/t"), vec![entry("/p1", 1), entry("/p2", 2)]);
    assert!(store.sync_partitions("/t", vec![entry("/p1", 1), entry("/p3", 2)]));
    assert_eq!(table_of(&store.snapshot(), "/t"), vec![entry("/p1", 1), entry("/p3", 2)]);
    assert!(store.sync_partitions("/t", vec![]));
    assert!(table_of(&store.snapshot(), "/t").is_empty());
}

#[test]
fn a_reread_replaces_partitions_that_were_placed_one_by_one() {
    let mut store: TopologyStore<u32> = TopologyStore::new();
    store.insert_block("/t".to_string(), 1, None);
    store.place_partition("/p1".to_string(), "/t", 1);
    store.place_partition("/p2".to_string(), "/t", 2);
    assert!(store.sync_partitions("/t", vec![entry("/p1", 1), entry("/p3", 3)]));
    assert_eq!(table_of(&store.snapshot(), "/t"), vec![entry("/p1", 1), entry("/p3", 3)]);
}

#[test]
fn a_listing_takes_its_partitions_from_other_tables() {
    let mut store: TopologyStore<u32> = TopologyStore::new();
    store.insert_block("/t1".to_string(), 1, None);
    store.insert_block("/t2".to_string(), 2, None);
    assert!(store.sync_partitions("/t1", vec![entry("/a", 1), entry("/b", 2), entry("/c", 3)]));
    assert!(store.sync_partitions("/t2", vec![entry("/b", 1), entry("/z", 2)]));
    let tree = store.snapshot();
    assert_eq!(table_of(&tree, "/t1"), vec![entry("/a", 1), entry("/c", 3)]);
    assert_eq!(table_of(&tree, "/t2"), vec![entry("/b", 1), entry("/z", 2)]);
}

#[test]
fn a_listing_for_an_unknown_table_changes_nothing() {
    let mut store: TopologyStore<u32> = TopologyStore::new();
    store.insert_drive("/d".to_string(), 1, no_attributes());
    store.insert_block("/t".to_string(), 2, None);
    store.place_partition("/p".to_string(), "/t", 1);
    let before = store.snapshot();
    assert!(!store.sync_partitions("/nothing", vec![entry("/p", 1)]));
    assert!(!store.sync_partitions("/d", vec![entry("/p", 1)]));
    assert!(!store.sync_partitions("/nothing", vec![entry("/p", 2), entry("/p", 1)]));
    assert_eq!(store.snapshot(), before);
}

#[test]
fn a_listing_out_of_order_is_put_in_order() {
    let mut store: TopologyStore<u32> = TopologyStore::new();
    store.insert_block("/t".to_string(), 2, None);
    assert!(store.sync_partitions("/t", vec![entry("/sda1", 1), entry("/sda10", 10), entry("/sda2", 2)]));
    assert_eq!(
        table_of(&store.snapshot(), "/t"),
        vec![entry("/sda1", 1), entry("/sda2", 2), entry("/sda10", 10)]
    );
    assert!(store.sync_partitions("/t", vec![entry("/c", 3), entry("/b", 2), entry("/a", 1)]));
    assert_eq!(table_of(&store.snapshot(), "/t"), vec![entry("/a", 1), entry("/b", 2), entry("/c", 3)]);
    assert!(store.sync_partitions("/t", vec![entry("/x", 2), entry("/y", 1), entry("/z", 2), entry("/w", 1)]));
    assert_eq!(identities(&table_of(&store.snapshot(), "/t")), vec!["/y", "/w", "/x", "/z"]);
}

#[test]
fn of_a_partition_listed_twice_the_later_entry_counts() {
    let mut store: TopologyStore<u32> = TopologyStore::new();
    store.insert_block("/t".to_string(), 2, None);
    assert!(store.sync_partitions("/t", vec![entry("/a", 1), entry("/b", 2), entry("/a", 3)]));
    assert_eq!(table_of(&store.snapshot(), "/t"), vec![entry("/b", 2), entry("/a", 3)]);
    assert!(store.sync_partitions("/t", vec![entry("/a", 5), entry("/a", 5)]));
    assert_eq!(table_of(&store.snapshot(), "/t"), vec![entry("/a", 5)]);
}

#[test]
fn a_listing_is_what_placing_its_entries_one_by_one_gives() {
    let listing = vec![entry("/c", 3), entry("/a", 1), entry("/t", 9), entry("/b", 3), entry("/c", 2), entry("/d", 1)];
    let mut synced: TopologyStore<u32> = TopologyStore::new();
    synced.insert_block("/t".to_string(), 1, None);
    synced.place_partition("/old".to_string(), "/t", 1);
    assert!(synced.sync_partitions("/t", listing.clone()));
    let mut placed: TopologyStore<u32> = TopologyStore::new();
    placed.insert_block("/t".to_string(), 1, None);
    for listed in listing {
        placed.place_partition(listed.identity, "/t", listed.number);
    }
    assert_eq!(synced.snapshot(), placed.snapshot());
    assert_eq!(
        table_of(&synced.snapshot(), "/t"),
        vec![entry("/a", 1), entry("/d", 1), entry("/c", 2), entry("/b", 3)]
    );
}



#[test]
fn a_snapshot_does_not_change_with_the_store() {
    let mut store: TopologyStore<u32> = TopologyStore::new();
    store.insert_drive("/d1".to_string(), 1, no_attributes());
    store.insert_block("/b1".to_string(), 2, some("/d1"));
    let earlier = store.snapshot();
    store.remove("/d1");
    store.insert_block("/b2".to_string(), 3, None);
    assert_eq!(earlier.drives.len(), 1);
    assert_eq!(earlier.drives[0].blocks, vec![bare("/b1", Some("/d1"), vec![])]);
    assert!(earlier.bare.is_empty());
    assert_ne!(store.snapshot(), earlier);
}

#[test]
fn every_block_is_shown_exactly_once() {
    let mut store: TopologyStore<u32> = TopologyStore::new();
    store.insert_block("/b1".to_string(), 1, some("/d1"));
    store.insert_block("/b2".to_string(), 2, some("/d2"));
    store.insert_block("/b3".to_string(), 3, None);
    store.insert_drive("/d1".to_string(), 4, no_attributes());
    store.insert_block("/b4".to_string(), 5, some("/d1"));
    store.insert_drive("/d2".to_string(), 6, no_attributes());
    store.insert_block("/b2".to_string(), 7, some("/d1"));
    store.remove("/d2");
    store.insert_block("/b5".to_string(), 8, some("/d2"));
    let tree = store.snapshot();
    let mut shown: Vec<String> = Vec::new();
    for drive in &tree.drives {
        for block in &drive.blocks {
            assert_eq!(block.declared_parent.as_deref(), Some(drive.identity.as_str()));
            shown.push(block.identity.clone());
        }
    }
    for block in &tree.bare {
        shown.push(block.identity.clone());
    }
    shown.sort();
    assert_eq!(shown, vec!["/b1", "/b2", "/b3", "/b4", "/b5"]);
    assert_eq!(tree.drives.len(), 1);
    assert_eq!(identities_of(&tree.drives[0].blocks), vec!["/b1", "/b2", "/b4"]);
    assert_eq!(identities_of(&tree.bare), vec!["/b3", "/b5"]);
}

fn identities_of(blocks: &[BlockSubtree]) -> Vec<String> {
    blocks.iter().map(|block| block.identity.clone()).collect()
}

#[test]
fn handles_belong_to_their_nodes() {
    let mut store: TopologyStore<String> = TopologyStore::new();
    store.insert_drive("/d1".to_string(), "drive handle".to_string(), no_attributes());
    store.insert_block("/b1".to_string(), "block handle".to_string(), some("/d1"));
    assert_eq!(store.drive_handle("/d1").map(|handle| handle.as_str()), Some("drive handle"));
    assert_eq!(store.block_handle("/b1").map(|handle| handle.as_str()), Some("block handle"));
    assert_eq!(store.drive_handle("/b1"), None);
    assert_eq!(store.block_handle("/d1"), None);
    store.remove("/b1");
    assert_eq!(store.block_handle("/b1"), None);
}

#[test]
fn records_can_be_copied() {
    let original = attributes("Disk", "S1", true, false);
    let copy = original.clone();
    assert_eq!(copy, original);
    let original = entry("/p1", 4);
    let copy = original.clone();
    assert_eq!(copy, original);
    assert_eq!(copy.identity, "/p1");
    assert_eq!(copy.number, 4);
}

#[test]
fn a_snapshot_finds_its_drives_and_roots_by_name() {
    let mut store: TopologyStore<u32> = TopologyStore::new();
    store.insert_drive("/d1".to_string(), 1, attributes("One", "S1", false, true));
    store.insert_drive("/d2".to_string(), 2, no_attributes());
    store.insert_block("/b1".to_string(), 3, some("/d2"));
    store.insert_block("/b2".to_string(), 4, None);
    store.insert_block("/b3".to_string(), 5, some("/d3"));
    let tree = store.snapshot();
    let first = tree.drive("/d1").unwrap();
    assert_eq!(first.attributes, attributes("One", "S1", false, true));
    assert!(first.blocks.is_empty());
    let second = tree.drive("/d2").unwrap();
    assert_eq!(second.blocks, vec![bare("/b1", Some("/d2"), vec![])]);
    assert_eq!(tree.drive("/d3"), None);
    assert_eq!(tree.drive("/b1"), None);
    assert_eq!(tree.bare_block("/b2"), Some(&bare("/b2", None, vec![])));
    assert_eq!(tree.bare_block("/b3"), Some(&bare("/b3", Some("/d3"), vec![])));
    assert_eq!(tree.bare_block("/b1"), None);
    assert_eq!(tree.bare_block("/d1"), None);
}

#[test]
fn a_copy_of_a_snapshot_is_equal_to_it() {
    let mut store: TopologyStore<u32> = TopologyStore::new();
    store.insert_drive("/d1".to_string(), 1, attributes("One", "S1", false, true));
    store.insert_block("/t".to_string(), 3, some("/d1"));
    store.insert_block("/b2".to_string(), 4, None);
    store.place_partition("/p1".to_string(), "/t", 1);
    store.place_partition("/p2".to_string(), "/b2", 2);
    let tree = store.snapshot();
    let copy = tree.clone();
    assert_eq!(copy, tree);
    assert_eq!(copy.drives[0].clone(), tree.drives[0]);
    assert_eq!(copy.bare[0].clone(), tree.bare[0]);
    assert_eq!(copy.drives[0].blocks[0].partitions, vec![entry("/p1", 1)]);
    assert_eq!(copy.bare[0].partitions, vec![entry("/p2", 2)]);
}
