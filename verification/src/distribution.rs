use vstd::prelude::*;

use crate::catalog::Metadata;
use crate::catalog::SnapView;
use crate::codec::parse_catalog;
use crate::codec::spec_encode_catalog;
use crate::codec::wf_catalog;
use crate::errors::PipelineError;
use crate::pipeline::path_join;

verus! {

/// What the read-only service carries: where the local artifact copies and
/// the catalog document live.
pub struct AppState {
    pub storage_path: String,
}

impl AppState {
    pub fn new(storage_path: String) -> (r: AppState)
        ensures
            r.storage_path@ == storage_path@,
    {
        AppState { storage_path }
    }
}

/// The catalog a reader is shown, from the document text if one was found.
/// A missing document, and any text that is not a canonical catalog
/// document, yields the empty catalog — never an error. A non-empty result
/// is always the well-formed catalog whose canonical text the document was.
pub fn list(doc: Option<&str>) -> (r: Metadata)
    ensures
        doc is None ==> r@ == Seq::<SnapView>::empty(),
        doc matches Some(s) ==> r@ == Seq::<SnapView>::empty() || (wf_catalog(r@)
            && spec_encode_catalog(r@) == s@),
        forall|vs: Seq<SnapView>|
            (doc matches Some(s) && wf_catalog(vs) && s@ == #[trigger] spec_encode_catalog(vs))
                ==> r@ == vs,
{
    match doc {
        None => Metadata::empty(),
        Some(s) => match parse_catalog(s) {
            Some(md) => md,
            None => Metadata::empty(),
        },
    }
}

/// Where the named artifact's local copy must live.
pub fn artifact_path(storage_path: &str, name: &str) -> (r: String)
    ensures
        r@ == storage_path@ + "/"@ + name@,
{
    path_join(storage_path, name)
}

/// Look the named artifact up in a catalog: its index, or `NotFound` when
/// no entry carries the name.
pub fn find_snapshot(md: &Metadata, name: &str) -> (r: Result<usize, PipelineError>)
    ensures
        match r {
            Ok(i) => 0 <= i < md@.len() && md@[i as int].file_name == name@,
            Err(e) => e == PipelineError::NotFound && forall|i: int|
                0 <= i < md@.len() ==> (#[trigger] md@[i]).file_name != name@,
        },
{
    let target = String::from_str(name);
    let mut i: usize = 0;
    while i < md.snapshots.len()
        invariant
            target@ == name@,
            0 <= i <= md.snapshots@.len(),
            forall|k: int| 0 <= k < i ==> (#[trigger] md@[k]).file_name != name@,
        decreases md.snapshots@.len() - i,
    {
        if md.snapshots[i].file_name == target {
            return Ok(i);
        }
        i += 1;
    }
    Err(PipelineError::NotFound)
}

} // verus!
