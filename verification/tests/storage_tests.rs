use allnodes::bootstrap::{should_configure_xdp, xdp_recommended_vcore_id};
use allnodes::storage::{
    classify_storage_file, needs_migration, written_directory, BenchmarkResults, CoreConfig,
    StorageFile, StoreBenchmarkResults,
};

fn core_cfg(id: u32, vcores: Vec<u32>) -> CoreConfig {
    CoreConfig { processor_id: 0, core_id: id, vcore_ids: vcores, score: Some(id as u64) }
}

#[test]
fn old_layout_files() {
    assert!(matches!(classify_storage_file("an-ovrd-0123456789abcdef"), StorageFile::Override));
    match classify_storage_file("poh-0123456789abcdef.bin") {
        StorageFile::Benchmark(k) => assert_eq!(k, "poh-0123456789abcdef"),
        other => panic!("unexpected {:?}", other),
    }
    assert!(matches!(classify_storage_file("poh-0123456789ABCDEF.bin"), StorageFile::Other));
    assert!(matches!(classify_storage_file("an-ovrd-0123456789abcde"), StorageFile::Other));
    assert!(matches!(classify_storage_file("allnodes.local"), StorageFile::Other));
    assert!(matches!(classify_storage_file("poh-0123456789abcdef.bim"), StorageFile::Other));
}

#[test]
fn migration_and_writes() {
    assert!(needs_migration(None));
    assert!(needs_migration(Some(0)));
    assert!(!needs_migration(Some(1)));
    assert!(!needs_migration(Some(2)));
    assert_eq!(written_directory(1, &vec![true, false, true]), Some(2));
    assert_eq!(written_directory(0, &vec![false, false]), None);
}

#[test]
fn benchmark_round_trip() {
    let b = BenchmarkResults { cores: vec![core_cfg(1, vec![1, 2]), core_cfg(2, vec![3])] };
    let s = StoreBenchmarkResults::from_benchmark(&b);
    assert_eq!(s.cores.len(), 2);
    assert_eq!(s.cores[0].vcore_ids, vec![1, 2]);
    let back = s.into_benchmark();
    assert_eq!(back.cores[1].core_id, 2);
    assert_eq!(back.cores[1].vcore_ids, vec![3]);
    assert_eq!(back.cores[1].score, Some(2));
}

#[test]
fn xdp_core_choice() {
    let cores = vec![core_cfg(0, vec![0, 1]), core_cfg(1, vec![2, 3]), core_cfg(2, vec![4, 5]), core_cfg(3, vec![6, 7])];
    assert_eq!(xdp_recommended_vcore_id(&cores, Some(3)), 6);
    assert_eq!(xdp_recommended_vcore_id(&cores, Some(4)), 0);
    assert_eq!(xdp_recommended_vcore_id(&cores, None), 0);
    assert!(should_configure_xdp(false, false, true, false));
    assert!(!should_configure_xdp(true, true, true, true));
    assert!(!should_configure_xdp(false, false, false, false));
}
