//! Vanilla version resolution: picking a version out of the upstream
//! manifest, extracting the server download, and the choices `ready_server`
//! makes. The manifests arrive as plain records; fetching and JSON
//! decoding happen outside the library.

use crate::text::str_eq;
use vstd::prelude::*;

verus! {

broadcast use vstd::seq::group_seq_axioms;

/// An opaque vanilla version identifier such as "1.21.7".
#[derive(Debug, Clone, PartialEq, Eq)]
pub struct McVanillaVersionId(String);

impl McVanillaVersionId {
    pub fn new(id: String) -> (r: McVanillaVersionId)
        ensures
            r@ == id@,
    {
        McVanillaVersionId(id)
    }

    pub fn id(&self) -> (r: &str)
        ensures
            r@ == self@,
    {
        self.0.as_str()
    }
}

impl View for McVanillaVersionId {
    type V = Seq<char>;

    closed spec fn view(&self) -> Seq<char> {
        self.0@
    }
}

/// A game version, by its stability channel.
#[derive(Debug, Clone, PartialEq, Eq, Structural)]
pub enum McVanillaVersionType {
    Release,
    Snapshot,
}

/// A version the upstream manifest offers.
#[derive(Debug, Clone)]
pub struct McVanillaVersion {
    pub version: McVanillaVersionId,
    pub version_type: McVanillaVersionType,
}

/// Something that names a vanilla version.
pub trait McVersion {
    fn vanilla_id(&self) -> McVanillaVersionId;
}

impl McVersion for McVanillaVersion {
    fn vanilla_id(&self) -> McVanillaVersionId {
        McVanillaVersionId(String::from_str(self.version.id()))
    }
}

/// Which stability channels a version query accepts.
#[derive(Debug, Clone, PartialEq, Eq, Structural)]
pub enum McVanillaVersionQuery {
    All,
    Release,
    Snapshot,
}

/// One entry of the upstream version manifest, as plain values: the
/// version id, its channel string (`release` or `snapshot`), and the URL
/// of its per-version document.
#[derive(Debug, Clone)]
pub struct VersionInfo {
    pub id: String,
    pub version_type: String,
    pub url: String,
}

/// The upstream version manifest, as plain values.
#[derive(Debug)]
pub struct VersionManifest {
    pub versions: Vec<VersionInfo>,
}

/// The per-version document, reduced to what staging needs: the server
/// download URL, if the version offers one, and the Java runtime
/// component, if named.
#[derive(Debug, Clone)]
pub struct VersionDetails {
    pub server_url: Option<String>,
    pub java_component: Option<String>,
}

/// Finds the manifest entry carrying `id`: the first such entry, or an
/// error exactly when no entry carries it.
pub fn find_version<'a>(manifest: &'a VersionManifest, id: &str) -> (r: Result<
    &'a VersionInfo,
    String,
>)
    ensures
        match r {
            Ok(v) => exists|k: int|
                0 <= k < manifest.versions@.len() && (#[trigger] manifest.versions@[k]).id@ == id@
                    && manifest.versions@[k].id@ == v.id@,
            Err(_) => forall|k: int|
                0 <= k < manifest.versions@.len() ==> (#[trigger] manifest.versions@[k]).id@
                    != id@,
        },
{
    let mut k: usize = 0;
    while k < manifest.versions.len()
        invariant
            0 <= k <= manifest.versions@.len(),
            forall|a: int|
                0 <= a < k ==> (#[trigger] manifest.versions@[a]).id@ != id@,
        decreases manifest.versions@.len() - k,
    {
        if str_eq(manifest.versions[k].id.as_str(), id) {
            return Ok(&manifest.versions[k]);
        }
        k = k + 1;
    }
    let mut msg = String::from_str("Version '");
    crate::text::append_str(&mut msg, id);
    crate::text::append_str(&mut msg, "' not found");
    Err(msg)
}

/// Whether a channel string passes a query: `release` and `snapshot` are
/// the two channels; anything else never passes.
pub open spec fn query_admits(query: McVanillaVersionQuery, vt: Seq<char>) -> bool {
    match query {
        McVanillaVersionQuery::All => vt == "release"@ || vt == "snapshot"@,
        McVanillaVersionQuery::Release => vt == "release"@,
        McVanillaVersionQuery::Snapshot => vt == "snapshot"@,
    }
}

/// The versions a query admits, in manifest order: every returned version
/// is an admitted entry, and entries are kept exactly when their channel
/// passes the query.
pub fn query_versions(manifest: &VersionManifest, query: &McVanillaVersionQuery) -> (r: Vec<
    McVanillaVersion,
>)
    ensures
        forall|a: int|
            0 <= a < manifest.versions@.len() && query_admits(
                *query,
                (#[trigger] manifest.versions@[a]).version_type@,
            ) ==> ({
                let b = filtered_count(manifest.versions@, *query, a);
                b < r@.len() && (r@[b]).version@ == manifest.versions@[a].id@ && (
                r@[b]).version_type == (if manifest.versions@[a].version_type@ == "release"@ {
                    McVanillaVersionType::Release
                } else {
                    McVanillaVersionType::Snapshot
                })
            }),
        r@.len() == filtered_count(manifest.versions@, *query, manifest.versions@.len() as int),
{
    proof {
        reveal_strlit("release");
        reveal_strlit("snapshot");
    }
    let mut out: Vec<McVanillaVersion> = Vec::new();
    let mut k: usize = 0;
    while k < manifest.versions.len()
        invariant
            0 <= k <= manifest.versions@.len(),
            out@.len() == filtered_count(manifest.versions@, *query, k as int),
            forall|a: int|
                0 <= a < k && query_admits(
                    *query,
                    (#[trigger] manifest.versions@[a]).version_type@,
                ) ==> ({
                    let b = filtered_count(manifest.versions@, *query, a);
                    b < out@.len() && (out@[b]).version@ == manifest.versions@[a].id@ && (
                    out@[b]).version_type == (if manifest.versions@[a].version_type@
                        == "release"@ {
                        McVanillaVersionType::Release
                    } else {
                        McVanillaVersionType::Snapshot
                    })
                }),
        decreases manifest.versions@.len() - k,
    {
        proof {
            reveal_strlit("release");
            reveal_strlit("snapshot");
            lemma_filtered_count_step(manifest.versions@, *query, k as int);
        }
        let entry = &manifest.versions[k];
        let is_release = str_eq(entry.version_type.as_str(), "release");
        let is_snapshot = str_eq(entry.version_type.as_str(), "snapshot");
        let keep = match query {
            McVanillaVersionQuery::All => is_release || is_snapshot,
            McVanillaVersionQuery::Release => is_release,
            McVanillaVersionQuery::Snapshot => is_snapshot,
        };
        let ghost out0 = out@;
        let ghost kk = k as int;
        proof {
            assert(keep == query_admits(*query, manifest.versions@[kk].version_type@));
        }
        if keep {
            let vt = if is_release {
                McVanillaVersionType::Release
            } else {
                McVanillaVersionType::Snapshot
            };
            let item = McVanillaVersion {
                version: McVanillaVersionId(String::from_str(entry.id.as_str())),
                version_type: vt,
            };
            let ghost itemv = item;
            out.push(item);
            proof {
                assert(out@ == out0.push(itemv));
                assert forall|a: int|
                    0 <= a < kk + 1 && query_admits(
                        *query,
                        (#[trigger] manifest.versions@[a]).version_type@,
                    ) implies ({
                    let b = filtered_count(manifest.versions@, *query, a);
                    b < out@.len() && (out@[b]).version@ == manifest.versions@[a].id@ && (
                    out@[b]).version_type == (if manifest.versions@[a].version_type@
                        == "release"@ {
                        McVanillaVersionType::Release
                    } else {
                        McVanillaVersionType::Snapshot
                    })
                }) by {
                    let b = filtered_count(manifest.versions@, *query, a);
                    lemma_filtered_count_bounds(manifest.versions@, *query, a);
                    if a == kk {
                        assert(b == out0.len());
                        assert(out@[b] == itemv);
                    } else {
                        assert(0 <= b < out0.len());
                        assert(out@[b] == out0[b]);
                    }
                }
            }
        } else {
            proof {
                assert forall|a: int|
                    0 <= a < kk + 1 && query_admits(
                        *query,
                        (#[trigger] manifest.versions@[a]).version_type@,
                    ) implies ({
                    let b = filtered_count(manifest.versions@, *query, a);
                    b < out@.len() && (out@[b]).version@ == manifest.versions@[a].id@ && (
                    out@[b]).version_type == (if manifest.versions@[a].version_type@
                        == "release"@ {
                        McVanillaVersionType::Release
                    } else {
                        McVanillaVersionType::Snapshot
                    })
                }) by {
                    assert(a < kk);
                    lemma_filtered_count_bounds(manifest.versions@, *query, a);
                }
            }
        }
        k = k + 1;
    }
    out
}

/// How many of the first `k` manifest entries a query admits.
pub open spec fn filtered_count(
    entries: Seq<VersionInfo>,
    query: McVanillaVersionQuery,
    k: int,
) -> int
    decreases k,
{
    if k <= 0 {
        0
    } else {
        filtered_count(entries, query, k - 1) + (if query_admits(
            query,
            entries[k - 1].version_type@,
        ) {
            1int
        } else {
            0int
        })
    }
}

/// The count of admitted entries is non-negative and at most `k`.
pub proof fn lemma_filtered_count_bounds(
    entries: Seq<VersionInfo>,
    query: McVanillaVersionQuery,
    k: int,
)
    requires
        k >= 0,
    ensures
        0 <= filtered_count(entries, query, k) <= k,
    decreases k,
{
    if k > 0 {
        lemma_filtered_count_bounds(entries, query, k - 1);
    }
}

proof fn lemma_filtered_count_step(
    entries: Seq<VersionInfo>,
    query: McVanillaVersionQuery,
    k: int,
)
    requires
        k >= 0,
    ensures
        filtered_count(entries, query, k + 1) == filtered_count(entries, query, k) + (
        if query_admits(query, entries[k].version_type@) {
            1int
        } else {
            0int
        }),
{
}

/// The server download of a per-version document; missing exactly when
/// the document carries none.
pub fn server_download_url<'a>(details: &'a VersionDetails) -> (r: Result<&'a String, String>)
    ensures
        match r {
            Ok(u) => details.server_url matches Some(s) && s@ == u@,
            Err(_) => details.server_url is None,
        },
{
    match &details.server_url {
        Some(u) => Ok(u),
        None => Err(String::from_str("Server download not available")),
    }
}

/// The Java runtime component a version asks for; `jre-legacy` when the
/// document names none.
pub fn java_component_or_default(details: &VersionDetails) -> (r: String)
    ensures
        details.java_component matches Some(c) ==> r@ == c@,
        details.java_component is None ==> r@ == "jre-legacy"@,
{
    match &details.java_component {
        Some(c) => String::from_str(c.as_str()),
        None => String::from_str("jre-legacy"),
    }
}

} // verus!
