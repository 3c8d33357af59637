use modcat::records::{ModRecord, VersionFiles};
use modcat::registry::Registry;

fn record(id: u32, name: &str) -> ModRecord {
    ModRecord {
        id,
        name: name.to_string(),
        summary: format!("summary of {}", name),
        website_url: format!("https://mods.example/{}", id),
        download_count: 7,
        files: VersionFiles::Pointers(Vec::new()),
    }
}

fn ids(r: &Registry) -> Vec<u32> {
    r.all().iter().map(|m| m.id).collect()
}

#[test]
fn empty_registry_has_nothing() {
    let r = Registry::new();
    assert_eq!(r.len(), 0);
    assert!(r.lookup(10).is_none());
}

#[test]
fn upsert_keeps_ids_sorted_and_unique() {
    let mut r = Registry::new();
    r.upsert(record(30, "thirty"));
    r.upsert(record(10, "ten"));
    r.upsert(record(20, "twenty"));
    assert_eq!(ids(&r), vec![10, 20, 30]);
    // Replacing an id must not add a second entry.
    r.upsert(record(20, "twenty again"));
    assert_eq!(ids(&r), vec![10, 20, 30]);
    assert_eq!(r.lookup(20).unwrap().name, "twenty again");
}

#[test]
fn lookup_finds_exactly_the_stored_record() {
    let mut r = Registry::new();
    r.upsert(record(10, "ten"));
    r.upsert(record(20, "twenty"));
    let found = r.lookup(10).unwrap();
    assert_eq!(found.id, 10);
    assert_eq!(found.name, "ten");
    assert!(r.lookup(15).is_none());
}

#[test]
fn clear_wipes_everything() {
    let mut r = Registry::new();
    r.upsert(record(10, "ten"));
    r.upsert(record(20, "twenty"));
    r.clear();
    assert_eq!(r.len(), 0);
    assert!(r.lookup(10).is_none());
}

#[test]
fn round_trip_preserves_the_record_set() {
    // Save a registry of {10, 20, 30} and reload it: the same set comes
    // back, independent of insertion order.
    let mut r = Registry::new();
    r.upsert(record(30, "thirty"));
    r.upsert(record(10, "ten"));
    r.upsert(record(20, "twenty"));
    let saved: Vec<ModRecord> = r.all().iter().map(|m| m.clone()).collect();
    let reloaded = Registry::from_records(saved);
    assert_eq!(ids(&reloaded), vec![10, 20, 30]);
    assert_eq!(reloaded.lookup(10).unwrap().name, "ten");
    assert_eq!(reloaded.lookup(20).unwrap().name, "twenty");
    assert_eq!(reloaded.lookup(30).unwrap().name, "thirty");
}

#[test]
fn from_records_takes_any_order_and_later_duplicates_win() {
    let records = vec![
        record(20, "twenty"),
        record(10, "ten"),
        record(30, "thirty"),
        record(10, "ten superseded"),
    ];
    let r = Registry::from_records(records);
    assert_eq!(ids(&r), vec![10, 20, 30]);
    assert_eq!(r.lookup(10).unwrap().name, "ten superseded");
}
