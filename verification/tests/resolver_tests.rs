use modcat::catalog::Catalog;
use modcat::records::{
    DependencyEdge, DependencyKind, FileRecord, ModRecord, VersionFiles, VersionPointer,
};
use modcat::registry::Registry;
use modcat::resolver::{resolve, ResolveError, Resolution, Step};

const V: &str = "1.12.2";

fn edge(target: u32, code: u32) -> DependencyEdge {
    DependencyEdge { target_mod_id: target, kind: DependencyKind::from_code(code) }
}

fn file(id: u32, url: &str, versions: &[&str], deps: Vec<DependencyEdge>) -> FileRecord {
    FileRecord {
        id,
        download_url: url.to_string(),
        file_name_on_disk: format!("file-{}.jar", id),
        file_length: Some(1000 + id as u64),
        game_versions: versions.iter().map(|v| v.to_string()).collect(),
        dependencies: deps,
    }
}

/// A mod in the pointer shape: per-version `(version, file id)` pointers.
fn pointer_mod(id: u32, pointers: &[(&str, u32)]) -> ModRecord {
    ModRecord {
        id,
        name: format!("mod-{}", id),
        summary: String::new(),
        website_url: format!("https://mods.example/{}", id),
        download_count: 0,
        files: VersionFiles::Pointers(
            pointers
                .iter()
                .map(|(v, f)| VersionPointer { version: v.to_string(), file_id: *f })
                .collect(),
        ),
    }
}

/// A mod in the embedded shape: full file records inside the mod record.
fn embedded_mod(id: u32, files: Vec<FileRecord>) -> ModRecord {
    ModRecord {
        id,
        name: format!("mod-{}", id),
        summary: String::new(),
        website_url: format!("https://mods.example/{}", id),
        download_count: 0,
        files: VersionFiles::Embedded(files),
    }
}

/// A catalog mod with one file for `V`, plus that file, wired by pointer.
fn simple_mod(catalog: &mut Catalog, id: u32, url: &str, deps: Vec<DependencyEdge>) {
    let file_id = id * 10;
    catalog.add_mod(pointer_mod(id, &[(V, file_id)]));
    catalog.add_file(file(file_id, url, &[V], deps));
}

fn run(root: u32, registry: &mut Registry, catalog: &Catalog) -> Result<Resolution, ResolveError> {
    resolve(root, &V.to_string(), registry, catalog)
}

#[test]
fn fresh_cache_miss_with_dependency_downloads_each_exactly_once() {
    // Registry empty; root 10's file needs 20; 20 is not cached either.
    let mut catalog = Catalog::new();
    simple_mod(&mut catalog, 10, "https://files.example/U10", vec![edge(20, 1)]);
    simple_mod(&mut catalog, 20, "https://files.example/U20", vec![]);
    let mut registry = Registry::new();
    let report = run(10, &mut registry, &catalog).unwrap();
    assert_eq!(report.downloaded, vec![10, 20]);
    let urls: Vec<&str> = report.requests.iter().map(|r| r.url.as_str()).collect();
    assert_eq!(urls, vec!["https://files.example/U10", "https://files.example/U20"]);
    assert!(report.warnings.is_empty());
    // Both fetched records were cached.
    assert!(registry.lookup(10).is_some());
    assert!(registry.lookup(20).is_some());
}

#[test]
fn version_mismatch_warns_and_traverses_nothing() {
    // Root 10 has only a "1.14" build; nothing is downloaded and its
    // dependency on 20 is not followed.
    let mut catalog = Catalog::new();
    catalog.add_mod(pointer_mod(10, &[("1.14", 100)]));
    catalog.add_file(file(100, "https://files.example/U10", &["1.14"], vec![edge(20, 1)]));
    simple_mod(&mut catalog, 20, "https://files.example/U20", vec![]);
    let mut registry = Registry::new();
    let report = run(10, &mut registry, &catalog).unwrap();
    assert!(report.downloaded.is_empty());
    assert!(report.requests.is_empty());
    assert_eq!(report.warnings.len(), 1);
    assert_eq!(report.warnings[0].mod_id, 10);
    assert_eq!(report.warnings[0].version, V);
    assert_eq!(report.visited, vec![10]);
}

#[test]
fn cycle_terminates_with_each_id_downloaded_once() {
    // 10 depends on 20 and 20 depends on 10: both exactly once.
    let mut catalog = Catalog::new();
    simple_mod(&mut catalog, 10, "https://files.example/U10", vec![edge(20, 1)]);
    simple_mod(&mut catalog, 20, "https://files.example/U20", vec![edge(10, 1)]);
    let mut registry = Registry::new();
    let report = run(10, &mut registry, &catalog).unwrap();
    let mut downloaded = report.downloaded.clone();
    downloaded.sort();
    assert_eq!(downloaded, vec![10, 20]);
    assert_eq!(report.requests.len(), 2);
}

#[test]
fn self_dependency_terminates() {
    let mut catalog = Catalog::new();
    simple_mod(&mut catalog, 10, "https://files.example/U10", vec![edge(10, 1)]);
    let mut registry = Registry::new();
    let report = run(10, &mut registry, &catalog).unwrap();
    assert_eq!(report.downloaded, vec![10]);
}

#[test]
fn diamond_collapses_to_one_download() {
    // 10 -> {20, 30}, 20 -> 40, 30 -> 40: 40 is downloaded once.
    let mut catalog = Catalog::new();
    simple_mod(&mut catalog, 10, "https://files.example/U10", vec![edge(20, 1), edge(30, 1)]);
    simple_mod(&mut catalog, 20, "https://files.example/U20", vec![edge(40, 1)]);
    simple_mod(&mut catalog, 30, "https://files.example/U30", vec![edge(40, 1)]);
    simple_mod(&mut catalog, 40, "https://files.example/U40", vec![]);
    let mut registry = Registry::new();
    let report = run(10, &mut registry, &catalog).unwrap();
    let mut downloaded = report.downloaded.clone();
    downloaded.sort();
    assert_eq!(downloaded, vec![10, 20, 30, 40]);
    assert_eq!(report.requests.len(), 4);
}

#[test]
fn traversal_is_depth_first_from_the_last_edge() {
    // The stack is LIFO: dependencies of the most recently processed mod are
    // visited before siblings queued earlier.
    let mut catalog = Catalog::new();
    simple_mod(&mut catalog, 10, "https://files.example/U10", vec![edge(20, 1), edge(30, 1)]);
    simple_mod(&mut catalog, 20, "https://files.example/U20", vec![]);
    simple_mod(&mut catalog, 30, "https://files.example/U30", vec![]);
    let mut registry = Registry::new();
    let report = run(10, &mut registry, &catalog).unwrap();
    assert_eq!(report.downloaded, vec![10, 30, 20]);
}

#[test]
fn skipped_mod_contributes_no_dependencies() {
    // 10 -> {20, 30}; 20 has no build for the target version and depends on
    // 40: 40 must not be touched, 10 and 30 download.
    let mut catalog = Catalog::new();
    simple_mod(&mut catalog, 10, "https://files.example/U10", vec![edge(20, 1), edge(30, 1)]);
    catalog.add_mod(pointer_mod(20, &[("1.14", 200)]));
    catalog.add_file(file(200, "https://files.example/U20", &["1.14"], vec![edge(40, 1)]));
    simple_mod(&mut catalog, 30, "https://files.example/U30", vec![]);
    simple_mod(&mut catalog, 40, "https://files.example/U40", vec![]);
    let mut registry = Registry::new();
    let report = run(10, &mut registry, &catalog).unwrap();
    let mut downloaded = report.downloaded.clone();
    downloaded.sort();
    assert_eq!(downloaded, vec![10, 30]);
    assert_eq!(report.warnings.len(), 1);
    assert_eq!(report.warnings[0].mod_id, 20);
    assert!(!report.visited.contains(&40));
}

#[test]
fn only_required_and_tool_edges_propagate() {
    // Kind 1 (required) and kind 3 (tool) are followed; kind 2 and others
    // are recorded on the file but not traversed.
    let mut catalog = Catalog::new();
    simple_mod(
        &mut catalog,
        10,
        "https://files.example/U10",
        vec![edge(20, 1), edge(30, 2), edge(40, 3), edge(50, 9)],
    );
    simple_mod(&mut catalog, 20, "https://files.example/U20", vec![]);
    simple_mod(&mut catalog, 30, "https://files.example/U30", vec![]);
    simple_mod(&mut catalog, 40, "https://files.example/U40", vec![]);
    simple_mod(&mut catalog, 50, "https://files.example/U50", vec![]);
    let mut registry = Registry::new();
    let report = run(10, &mut registry, &catalog).unwrap();
    let mut downloaded = report.downloaded.clone();
    downloaded.sort();
    assert_eq!(downloaded, vec![10, 20, 40]);
}

#[test]
fn missing_mod_upstream_is_fatal() {
    let mut catalog = Catalog::new();
    simple_mod(&mut catalog, 10, "https://files.example/U10", vec![edge(20, 1)]);
    // 20 exists nowhere.
    let mut registry = Registry::new();
    let err = run(10, &mut registry, &catalog).unwrap_err();
    assert_eq!(err, ResolveError::RemoteNotFound { mod_id: 20 });
    // The root was still cached before the failure.
    assert!(registry.lookup(10).is_some());
}

#[test]
fn missing_file_upstream_is_fatal() {
    let mut catalog = Catalog::new();
    catalog.add_mod(pointer_mod(10, &[(V, 100)]));
    // File 100 is not served.
    let mut registry = Registry::new();
    let err = run(10, &mut registry, &catalog).unwrap_err();
    assert_eq!(err, ResolveError::RemoteFileNotFound { mod_id: 10, file_id: 100 });
}

#[test]
fn embedded_file_lists_resolve_without_a_second_fetch() {
    // The embedded metadata shape: the mod record carries its file records.
    let mut catalog = Catalog::new();
    catalog.add_mod(embedded_mod(
        10,
        vec![
            file(101, "https://files.example/U10-old", &["1.7.10"], vec![]),
            file(102, "https://files.example/U10", &["1.12.2", "1.12.1"], vec![edge(20, 1)]),
        ],
    ));
    simple_mod(&mut catalog, 20, "https://files.example/U20", vec![]);
    let mut registry = Registry::new();
    let report = run(10, &mut registry, &catalog).unwrap();
    assert_eq!(report.downloaded, vec![10, 20]);
    assert_eq!(report.requests[0].url, "https://files.example/U10");
    assert_eq!(report.requests[0].file_id, 102);
}

#[test]
fn cached_records_are_not_fetched_again() {
    // The root is already in the registry: no catalog mod fetch is needed,
    // only the file detail.
    let mut catalog = Catalog::new();
    catalog.add_file(file(100, "https://files.example/U10", &[V], vec![]));
    let mut registry = Registry::new();
    registry.upsert(pointer_mod(10, &[(V, 100)]));
    let report = run(10, &mut registry, &catalog).unwrap();
    assert_eq!(report.downloaded, vec![10]);
}

#[test]
fn step_machine_reports_cache_miss_and_retries() {
    // Driving the step machine by hand shows the fetch-then-retry protocol.
    let registry = Registry::new();
    let mut st = Resolution::new(10, V.to_string());
    match st.step(&registry) {
        Step::NeedMod(id) => assert_eq!(id, 10),
        other => panic!("expected a cache miss, got {:?}", other),
    }
    let mut registry = Registry::new();
    registry.upsert(pointer_mod(10, &[(V, 100)]));
    match st.step(&registry) {
        Step::NeedFile(p) => {
            assert_eq!(p.mod_id, 10);
            assert_eq!(p.file_id, 100);
        },
        other => panic!("expected a file fetch, got {:?}", other),
    }
    let detail = file(100, "https://files.example/U10", &[V], vec![]);
    let req = st.provide_file(&detail);
    assert_eq!(req.url, "https://files.example/U10");
    assert_eq!(req.file_name, "file-100.jar");
    assert_eq!(req.file_length, Some(1100));
    match st.step(&registry) {
        Step::Finished => {},
        other => panic!("expected the end, got {:?}", other),
    }
    assert_eq!(st.downloaded, vec![10]);
}
