//! The asset manifest selection.

use scann::assets::asset_file_names;
use scann::assets::asset_type_of;
use scann::assets::ASSET_CATALOG_LEN;
use scann::populate_assets;
use scann::proto::AssetType;

#[test]
fn catalog_names_and_types_line_up() {
    let names = asset_file_names();
    assert_eq!(names.len(), ASSET_CATALOG_LEN);
    assert_eq!(names[0], "ah_codebook.pb");
    assert_eq!(names[1], "serialized_partitioner.pb");
    assert_eq!(names[7], "dataset.npy");
    assert_eq!(asset_type_of(0), AssetType::AhCenters);
    assert_eq!(asset_type_of(1), AssetType::Partitioner);
    assert_eq!(asset_type_of(7), AssetType::DatasetNpy);
}

#[test]
fn populate_selects_present_entries_in_order() {
    let paths: Vec<String> = asset_file_names()
        .iter()
        .map(|n| format!("dir/{n}"))
        .collect();
    let mut present = vec![false; ASSET_CATALOG_LEN];
    present[1] = true;
    present[7] = true;
    let manifest = populate_assets(paths, &present);
    assert_eq!(manifest.assets.len(), 2);
    assert_eq!(manifest.assets[0].asset_path, "dir/serialized_partitioner.pb");
    assert_eq!(manifest.assets[0].asset_type, AssetType::Partitioner);
    assert_eq!(manifest.assets[1].asset_path, "dir/dataset.npy");
    assert_eq!(manifest.assets[1].asset_type, AssetType::DatasetNpy);
}

#[test]
fn populate_with_nothing_present_is_empty() {
    let paths: Vec<String> = asset_file_names().iter().map(|n| n.to_string()).collect();
    let manifest = populate_assets(paths, &vec![false; ASSET_CATALOG_LEN]);
    assert!(manifest.assets.is_empty());
}
