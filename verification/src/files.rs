//! The cache directory layout: where each archive and raw document lives.
//! The directories themselves are found by the caller (the data directory
//! comes from the platform); these functions only build the paths.
use vstd::prelude::*;

verus! {

/// The fixed system-wide directory when it is present on this machine,
/// else the caller's per-user data directory.
pub fn get_global_dir(global_exists: bool, data_dir: &String) -> (r: String)
    ensures
        global_exists ==> r@ == "/usr/local/share/search-gwas"@,
        !global_exists ==> r@ == data_dir@,
{
    if global_exists {
        "/usr/local/share/search-gwas".to_owned()
    } else {
        data_dir.clone()
    }
}

/// The secondary dataset's fixed directory under the global one.
pub fn get_az_dir(global_dir: &String) -> (r: String)
    ensures
        r@ == global_dir@ + "/az470k-proteomics"@,
{
    let mut out = global_dir.clone();
    out.append("/az470k-proteomics");
    out
}

/// The encoded association collection.
pub fn associations_path(dir: &String) -> (r: String)
    ensures
        r@ == dir@ + "/associations.bin"@,
{
    let mut out = dir.clone();
    out.append("/associations.bin");
    out
}

/// The last downloaded raw catalog document.
pub fn associations_tsv_path(dir: &String) -> (r: String)
    ensures
        r@ == dir@ + "/associations.tsv"@,
{
    let mut out = dir.clone();
    out.append("/associations.tsv");
    out
}

/// The encoded trait-node collection.
pub fn efo_path(dir: &String) -> (r: String)
    ensures
        r@ == dir@ + "/efo.bin"@,
{
    let mut out = dir.clone();
    out.append("/efo.bin");
    out
}

/// The last downloaded raw ontology document.
pub fn efo_owl_path(dir: &String) -> (r: String)
    ensures
        r@ == dir@ + "/efo.owl"@,
{
    let mut out = dir.clone();
    out.append("/efo.owl");
    out
}

/// The metadata marker.
pub fn metadata_path(dir: &String) -> (r: String)
    ensures
        r@ == dir@ + "/metadata.bin"@,
{
    let mut out = dir.clone();
    out.append("/metadata.bin");
    out
}

} // verus!
