//! The asset manifest: which trained artifacts exist, and what they are.
//!
//! The library decides the manifest's content: the fixed catalog of
//! artifact file names with their types, and the selection of the entries
//! whose files are present. Checking the file system and writing the
//! manifest file are input/output and live with the caller, which hands
//! in one full path and one presence flag per catalog entry.

use vstd::prelude::*;

use crate::proto::AssetType;
use crate::proto::ScannAsset;
use crate::proto::ScannAssets;

verus! {

/// The number of catalog entries.
pub const ASSET_CATALOG_LEN: usize = 8;

/// The artifact type of catalog entry `index`.
pub open spec fn spec_asset_type_of(index: int) -> AssetType {
    if index == 0 {
        AssetType::AhCenters
    } else if index == 1 {
        AssetType::Partitioner
    } else if index == 2 {
        AssetType::TokenizationNpy
    } else if index == 3 {
        AssetType::AhDatasetNpy
    } else if index == 4 {
        AssetType::Int8DatasetNpy
    } else if index == 5 {
        AssetType::Int8MultipliersNpy
    } else if index == 6 {
        AssetType::Int8NormsNpy
    } else {
        AssetType::DatasetNpy
    }
}

/// The artifact file names the manifest knows, in catalog order.
pub fn asset_file_names() -> (r: Vec<&'static str>)
    ensures
        r@.len() == ASSET_CATALOG_LEN,
        r@[0]@ == "ah_codebook.pb"@,
        r@[1]@ == "serialized_partitioner.pb"@,
        r@[2]@ == "datapoint_to_token.npy"@,
        r@[3]@ == "hashed_dataset.npy"@,
        r@[4]@ == "int8_dataset.npy"@,
        r@[5]@ == "int8_multipliers.npy"@,
        r@[6]@ == "dp_norms.npy"@,
        r@[7]@ == "dataset.npy"@,
{
    let mut r: Vec<&'static str> = Vec::new();
    r.push("ah_codebook.pb");
    r.push("serialized_partitioner.pb");
    r.push("datapoint_to_token.npy");
    r.push("hashed_dataset.npy");
    r.push("int8_dataset.npy");
    r.push("int8_multipliers.npy");
    r.push("dp_norms.npy");
    r.push("dataset.npy");
    r
}

/// The artifact type of catalog entry `index`.
pub fn asset_type_of(index: usize) -> (t: AssetType)
    requires
        index < ASSET_CATALOG_LEN,
    ensures
        t == spec_asset_type_of(index as int),
{
    if index == 0 {
        AssetType::AhCenters
    } else if index == 1 {
        AssetType::Partitioner
    } else if index == 2 {
        AssetType::TokenizationNpy
    } else if index == 3 {
        AssetType::AhDatasetNpy
    } else if index == 4 {
        AssetType::Int8DatasetNpy
    } else if index == 5 {
        AssetType::Int8MultipliersNpy
    } else if index == 6 {
        AssetType::Int8NormsNpy
    } else {
        AssetType::DatasetNpy
    }
}

/// How many of the first `upto` entries are present.
pub open spec fn present_count(present: Seq<bool>, upto: int) -> int
    decreases upto,
{
    if upto <= 0 {
        0
    } else {
        present_count(present, upto - 1) + if present[upto - 1] {
            1int
        } else {
            0int
        }
    }
}

/// The path and type each manifest entry carries.
pub open spec fn manifest_view(assets: Seq<ScannAsset>) -> Seq<(Seq<char>, AssetType)> {
    Seq::new(assets.len(), |j: int| (assets[j].asset_path@, assets[j].asset_type))
}

/// The manifest entries of the first `upto` catalog positions: one entry
/// per present position, in catalog order.
pub open spec fn spec_selected(paths: Seq<String>, present: Seq<bool>, upto: int) -> Seq<
    (Seq<char>, AssetType),
>
    decreases upto,
{
    if upto <= 0 {
        Seq::empty()
    } else if present[upto - 1] {
        spec_selected(paths, present, upto - 1).push((paths[upto - 1]@, spec_asset_type_of(upto - 1)))
    } else {
        spec_selected(paths, present, upto - 1)
    }
}

/// Selects the manifest entries whose artifacts are present: exactly one
/// entry per present catalog position, in catalog order, carrying the
/// caller's full path and the catalog's type.
pub fn populate_assets(paths: Vec<String>, present: &Vec<bool>) -> (r: ScannAssets)
    requires
        paths@.len() == ASSET_CATALOG_LEN,
        present@.len() == ASSET_CATALOG_LEN,
    ensures
        manifest_view(r.assets@) == spec_selected(paths@, present@, ASSET_CATALOG_LEN as int),
        r.assets@.len() == present_count(present@, ASSET_CATALOG_LEN as int),
{
    let mut assets: Vec<ScannAsset> = Vec::new();
    let mut rem = paths;
    let mut i: usize = 0;
    while i < ASSET_CATALOG_LEN
        invariant
            i <= ASSET_CATALOG_LEN,
            rem@.len() == ASSET_CATALOG_LEN - i,
            present@.len() == ASSET_CATALOG_LEN,
            forall|v: int| 0 <= v < rem@.len() ==> (#[trigger] rem@[v])@ == paths@[i + v]@,
            assets@.len() == present_count(present@, i as int),
            manifest_view(assets@) == spec_selected(paths@, present@, i as int),
        decreases ASSET_CATALOG_LEN - i,
    {
        let path = rem.remove(0);
        let ghost prev = assets@;
        if present[i] {
            let t = asset_type_of(i);
            let entry = ScannAsset { asset_path: path, asset_type: t };
            assets.push(entry);
            proof {
                assert(manifest_view(assets@) =~= manifest_view(prev).push(
                    (paths@[i as int]@, spec_asset_type_of(i as int)),
                ));
            }
        }
        proof {
            assert(manifest_view(assets@) =~= spec_selected(paths@, present@, i + 1));
        }
        i += 1;
    }
    ScannAssets { assets }
}

} // verus!
