use vstd::prelude::*;

use crate::errors::PipelineError;
use crate::node_type::NodeType;

verus! {

use vstd::string::StrSliceExecFns;
use vstd::string::StringExecFns;

/// `base` and `name` joined with one separator.
pub fn path_join(base: &str, name: &str) -> (r: String)
    ensures
        r@ == base@ + "/"@ + name@,
{
    let mut out = String::from_str(base);
    out.append("/");
    out.append(name);
    proof {
        assert(out@ =~= base@ + "/"@ + name@);
    }
    out
}

/// The destination key of an artifact inside the remote folder.
pub fn object_name(folder: &str, file_name: &str) -> (r: String)
    ensures
        r@ == folder@ + "/"@ + file_name@,
{
    path_join(folder, file_name)
}

/// The full locator recorded in the catalog: bucket, then key.
pub fn object_uri(bucket: &str, object_name: &str) -> (r: String)
    ensures
        r@ == bucket@ + "/"@ + object_name@,
{
    path_join(bucket, object_name)
}

/// `suffix` closes `s`.
pub open spec fn spec_ends_with(s: Seq<char>, suffix: Seq<char>) -> bool {
    suffix.len() <= s.len() && s.skip(s.len() - suffix.len()) == suffix
}

/// `prefix` opens `s`.
pub open spec fn spec_starts_with(s: Seq<char>, prefix: Seq<char>) -> bool {
    prefix.len() <= s.len() && s.take(prefix.len() as int) == prefix
}

fn ends_with(s: &str, suffix: &str) -> (r: bool)
    ensures
        r == spec_ends_with(s@, suffix@),
{
    let n = s.unicode_len();
    let m = suffix.unicode_len();
    if m > n {
        return false;
    }
    let mut i: usize = 0;
    while i < m
        invariant
            n == s@.len(),
            m == suffix@.len(),
            m <= n,
            0 <= i <= m,
            forall|k: int| 0 <= k < i ==> s@[n - m + k] == suffix@[k],
        decreases m - i,
    {
        if s.get_char(n - m + i) != suffix.get_char(i) {
            proof {
                assert(s@.skip(n as int - m) != suffix@) by {
                    assert(s@.skip(n as int - m)[i as int] != suffix@[i as int]);
                }
            }
            return false;
        }
        i += 1;
    }
    proof {
        assert(s@.skip(n as int - m) =~= suffix@);
    }
    true
}

fn starts_with(s: &str, prefix: &str) -> (r: bool)
    ensures
        r == spec_starts_with(s@, prefix@),
{
    let n = s.unicode_len();
    let m = prefix.unicode_len();
    if m > n {
        return false;
    }
    let mut i: usize = 0;
    while i < m
        invariant
            n == s@.len(),
            m == prefix@.len(),
            m <= n,
            0 <= i <= m,
            forall|k: int| 0 <= k < i ==> s@[k] == prefix@[k],
        decreases m - i,
    {
        if s.get_char(i) != prefix.get_char(i) {
            proof {
                assert(s@.take(m as int) != prefix@) by {
                    assert(s@.take(m as int)[i as int] != prefix@[i as int]);
                }
            }
            return false;
        }
        i += 1;
    }
    proof {
        assert(s@.take(m as int) =~= prefix@);
    }
    true
}

/// Whether a walked path matches one of the excluded names: exclusion is by
/// suffix, as the archiver's walk applies it.
pub fn is_excluded(path: &str, excludes: &Vec<String>) -> (r: bool)
    ensures
        r <==> exists|i: int|
            0 <= i < excludes@.len() && spec_ends_with(path@, (#[trigger] excludes@[i])@),
{
    let mut i: usize = 0;
    while i < excludes.len()
        invariant
            0 <= i <= excludes@.len(),
            forall|k: int| 0 <= k < i ==> !spec_ends_with(path@, (#[trigger] excludes@[k])@),
        decreases excludes@.len() - i,
    {
        if ends_with(path, excludes[i].as_str()) {
            return true;
        }
        i += 1;
    }
    false
}

/// The deletion key for an evicted artifact: its catalog locator with the
/// leading bucket segment stripped, when it carries one.
pub fn delete_key(bucket: &str, uri: &str) -> (r: String)
    ensures
        spec_starts_with(uri@, bucket@ + "/"@) ==> r@ == uri@.skip(bucket@.len() as int + 1),
        !spec_starts_with(uri@, bucket@ + "/"@) ==> r@ == uri@,
{
    let mut prefix = String::from_str(bucket);
    prefix.append("/");
    proof {
        assert(prefix@ =~= bucket@ + "/"@);
    }
    if starts_with(uri, prefix.as_str()) {
        let n = uri.unicode_len();
        let m = prefix.as_str().unicode_len();
        let tail = uri.substring_char(m, n);
        proof {
            reveal_strlit("/");
            assert(prefix@.len() == bucket@.len() + 1);
            assert(tail@ =~= uri@.skip(bucket@.len() as int + 1));
        }
        String::from_str(tail)
    } else {
        String::from_str(uri)
    }
}

/// The fixed file-name prefix each category's archives carry.
pub fn archive_prefix(node_type: NodeType) -> (r: &'static str)
    ensures
        node_type is Beacond ==> r@ == "pruned_snapshot"@,
        node_type is Reth ==> r@ == "reth_snapshot"@,
{
    match node_type {
        NodeType::Beacond => "pruned_snapshot",
        NodeType::Reth => "reth_snapshot",
    }
}

/// The file name of a category's archive for one run, from the run's local
/// date tag.
pub fn snapshot_file_name(node_type: NodeType, date_tag: &str) -> (r: String)
    ensures
        node_type is Beacond ==> r@ == "pruned_snapshot"@ + "_"@ + date_tag@ + ".tar.lz4"@,
        node_type is Reth ==> r@ == "reth_snapshot"@ + "_"@ + date_tag@ + ".tar.lz4"@,
{
    let mut out = String::from_str(archive_prefix(node_type));
    out.append("_");
    out.append(date_tag);
    out.append(".tar.lz4");
    proof {
        if node_type is Beacond {
            assert(out@ =~= "pruned_snapshot"@ + "_"@ + date_tag@ + ".tar.lz4"@);
        } else {
            assert(out@ =~= "reth_snapshot"@ + "_"@ + date_tag@ + ".tar.lz4"@);
        }
    }
    out
}

/// Where the compose file of the archived node lives.
pub fn compose_file_path(node_path: &str) -> (r: String)
    ensures
        r@ == node_path@ + "/"@ + "docker-compose.yml"@,
{
    path_join(node_path, "docker-compose.yml")
}

/// Where the catalog document lives under the local storage directory.
pub fn metadata_file_path(storage_path: &str) -> (r: String)
    ensures
        r@ == storage_path@ + "/"@ + "metadata.json"@,
{
    path_join(storage_path, "metadata.json")
}

/// The deterministic session-file name for an in-flight transfer of the
/// named artifact.
pub fn session_file_name(file_name: &str) -> (r: String)
    ensures
        r@ == file_name@ + ".session.json"@,
{
    let mut out = String::from_str(file_name);
    out.append(".session.json");
    out
}

/// The paths, relative to the node directory, archived for a category.
pub fn archive_includes(node_type: NodeType) -> (r: Vec<String>)
    ensures
        node_type is Beacond ==> r@.len() == 1 && (r@[0])@ == "./data/beacond/data"@,
        node_type is Reth ==> r@.len() == 2 && (r@[0])@ == "./data/reth/static_files"@ && (
        r@[1])@ == "./data/reth/db"@,
{
    let mut v: Vec<String> = Vec::new();
    match node_type {
        NodeType::Beacond => {
            v.push(String::from_str("./data/beacond/data"));
        },
        NodeType::Reth => {
            v.push(String::from_str("./data/reth/static_files"));
            v.push(String::from_str("./data/reth/db"));
        },
    }
    v
}

/// The file names excluded from a category's archive.
pub fn archive_excludes(node_type: NodeType) -> (r: Vec<String>)
    ensures
        node_type is Beacond ==> r@.len() == 1 && (r@[0])@ == "priv_validator_state.json"@,
        node_type is Reth ==> r@.len() == 0,
{
    let mut v: Vec<String> = Vec::new();
    match node_type {
        NodeType::Beacond => {
            v.push(String::from_str("priv_validator_state.json"));
        },
        NodeType::Reth => {},
    }
    v
}

/// Check the destination settings a remote publication needs: with the
/// remote store enabled, both the bucket and the folder must be set — a
/// missing one is the fatal configuration error, never auto-corrected.
pub fn validate_destination(
    gcs_enabled: bool,
    bucket: &Option<String>,
    folder: &Option<String>,
) -> (r: Result<(), PipelineError>)
    ensures
        r is Err <==> gcs_enabled && (bucket is None || folder is None),
        r matches Err(e) ==> e == PipelineError::Config,
{
    if gcs_enabled {
        if bucket.is_none() {
            return Err(PipelineError::Config);
        }
        if folder.is_none() {
            return Err(PipelineError::Config);
        }
    }
    Ok(())
}

} // verus!
