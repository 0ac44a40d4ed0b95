use udisks_topology::classifier::{
    advertises, classify, is_partition, is_partition_table, Role, BLOCK_INTERFACE, DRIVE_INTERFACE,
    PARTITION_INTERFACE, PARTITION_TABLE_INTERFACE,
};
use udisks_topology::tracker::{plan, Inquiry};

fn names(list: &[&str]) -> Vec<String> {
    list.iter().map(|name| name.to_string()).collect()
}

#[test]
fn interface_names_are_those_of_the_service() {
    assert_eq!(DRIVE_INTERFACE, "org.freedesktop.UDisks2.Drive");
    assert_eq!(BLOCK_INTERFACE, "org.freedesktop.UDisks2.Block");
    assert_eq!(PARTITION_TABLE_INTERFACE, "org.freedesktop.UDisks2.PartitionTable");
    assert_eq!(PARTITION_INTERFACE, "org.freedesktop.UDisks2.Partition");
}

#[test]
fn a_drive_is_a_drive() {
    assert_eq!(classify(&names(&["org.freedesktop.UDisks2.Drive"])), Role::Drive);
}

#[test]
fn a_block_is_a_block() {
    assert_eq!(classify(&names(&["org.freedesktop.UDisks2.Block"])), Role::Block);
}

#[test]
fn nothing_advertised_is_no_role() {
    assert_eq!(classify(&names(&[])), Role::Neither);
}

#[test]
fn other_interfaces_alone_are_no_role() {
    let advertised = names(&[
        "org.freedesktop.UDisks2.Manager",
        "org.freedesktop.UDisks2.Job",
        "org.freedesktop.DBus.Properties",
    ]);
    assert_eq!(classify(&advertised), Role::Neither);
}

#[test]
fn extra_interfaces_do_not_change_the_role() {
    let drive = names(&[
        "org.freedesktop.UDisks2.Drive.Ata",
        "org.freedesktop.UDisks2.Drive",
        "com.example.SomethingNew",
    ]);
    assert_eq!(classify(&drive), Role::Drive);
    let block = names(&[
        "org.freedesktop.UDisks2.Filesystem",
        "org.freedesktop.UDisks2.Encrypted",
        "org.freedesktop.UDisks2.Block",
        "org.freedesktop.UDisks2.Loop",
    ]);
    assert_eq!(classify(&block), Role::Block);
}

#[test]
fn a_drive_that_is_also_a_block_is_a_drive() {
    let both = names(&["org.freedesktop.UDisks2.Block", "org.freedesktop.UDisks2.Drive"]);
    assert_eq!(classify(&both), Role::Drive);
}

#[test]
fn names_are_matched_whole() {
    assert_eq!(classify(&names(&["org.freedesktop.UDisks2.Drive.Ata"])), Role::Neither);
    assert_eq!(classify(&names(&["org.freedesktop.UDisks2.Blocks"])), Role::Neither);
    assert_eq!(classify(&names(&["Drive"])), Role::Neither);
    assert_eq!(classify(&names(&["org.freedesktop.udisks2.drive"])), Role::Neither);
}

#[test]
fn order_and_repetition_do_not_matter() {
    let one = names(&["a", "org.freedesktop.UDisks2.Block", "b"]);
    let other = names(&["b", "b", "org.freedesktop.UDisks2.Block", "a", "org.freedesktop.UDisks2.Block"]);
    assert_eq!(classify(&one), classify(&other));
    assert_eq!(classify(&one), Role::Block);
}

#[test]
fn advertises_finds_a_name_anywhere() {
    let advertised = names(&["x", "y", "z"]);
    assert!(advertises(&advertised, "x"));
    assert!(advertises(&advertised, "y"));
    assert!(advertises(&advertised, "z"));
    assert!(!advertises(&advertised, "w"));
    assert!(!advertises(&advertised, ""));
    assert!(!advertises(&names(&[]), "x"));
}

#[test]
fn partition_and_table_are_separate_facets() {
    let table = names(&["org.freedesktop.UDisks2.Block", "org.freedesktop.UDisks2.PartitionTable"]);
    assert!(is_partition_table(&table));
    assert!(!is_partition(&table));
    let partition = names(&["org.freedesktop.UDisks2.Block", "org.freedesktop.UDisks2.Partition"]);
    assert!(!is_partition_table(&partition));
    assert!(is_partition(&partition));
    let plain = names(&["org.freedesktop.UDisks2.Block"]);
    assert!(!is_partition_table(&plain));
    assert!(!is_partition(&plain));
}

#[test]
fn a_block_can_be_both_partition_and_table() {
    let both = names(&[
        "org.freedesktop.UDisks2.Partition",
        "org.freedesktop.UDisks2.Block",
        "org.freedesktop.UDisks2.PartitionTable",
    ]);
    assert_eq!(classify(&both), Role::Block);
    assert!(is_partition_table(&both));
    assert!(is_partition(&both));
    assert_eq!(plan(&both), Inquiry { role: Role::Block, partition: true, table: true });
}

#[test]
fn plan_asks_for_facets_of_blocks_only() {
    assert_eq!(
        plan(&names(&["org.freedesktop.UDisks2.Drive"])),
        Inquiry { role: Role::Drive, partition: false, table: false }
    );
    assert_eq!(
        plan(&names(&["org.freedesktop.UDisks2.Block"])),
        Inquiry { role: Role::Block, partition: false, table: false }
    );
    assert_eq!(
        plan(&names(&["org.freedesktop.UDisks2.Block", "org.freedesktop.UDisks2.Partition"])),
        Inquiry { role: Role::Block, partition: true, table: false }
    );
    assert_eq!(
        plan(&names(&["org.freedesktop.UDisks2.Block", "org.freedesktop.UDisks2.PartitionTable"])),
        Inquiry { role: Role::Block, partition: false, table: true }
    );
    assert_eq!(
        plan(&names(&["org.freedesktop.UDisks2.Partition", "org.freedesktop.UDisks2.PartitionTable"])),
        Inquiry { role: Role::Neither, partition: false, table: false }
    );
    assert_eq!(
        plan(&names(&[
            "org.freedesktop.UDisks2.Drive",
            "org.freedesktop.UDisks2.Partition",
            "org.freedesktop.UDisks2.PartitionTable"
        ])),
        Inquiry { role: Role::Drive, partition: false, table: false }
    );
    assert_eq!(plan(&names(&[])), Inquiry { role: Role::Neither, partition: false, table: false });
}
