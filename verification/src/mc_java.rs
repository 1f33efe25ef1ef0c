//! The Java runtime resolver's decisions: which platform document to
//! read, where a runtime lives in the cache, and when the cache answers
//! without any network traffic.

use crate::text::append_str;
use crate::text::dec_string_value;
use crate::text::is_dec_string;
use crate::text::parse_dec_in_range;
use crate::text::push_char;
use crate::text::split_chars;
use crate::text::split_on;
use crate::text::str_eq;
use vstd::prelude::*;

verus! {

/// A Java runtime the launcher metadata offers.
#[derive(Debug, Clone, PartialEq, Eq)]
pub struct McJava {
    pub version_id: String,
    pub major_version: u8,
}

impl McJava {
    pub fn new(version_id: String, major_version: u8) -> (r: McJava)
        ensures
            r.version_id@ == version_id@,
            r.major_version == major_version,
    {
        McJava { version_id, major_version }
    }

    pub fn version_id(&self) -> (r: &str)
        ensures
            r@ == self.version_id@,
    {
        self.version_id.as_str()
    }

    pub fn major_version(&self) -> (r: u8)
        ensures
            r == self.major_version,
    {
        self.major_version
    }
}

/// The major version named by a runtime version string: the decimal value
/// of the part before the first `'.'` when it is one and fits, and 8
/// otherwise.
pub open spec fn spec_major_version(name: Seq<char>) -> int {
    let first = split_on(name, '.')[0];
    if is_dec_string(first) && 0 <= dec_string_value(first) <= 255 {
        dec_string_value(first)
    } else {
        8
    }
}

/// Reads the major version out of a version string such as "17.0.1".
pub fn extract_major_version(version_name: &str) -> (r: u8)
    ensures
        r as int == spec_major_version(version_name@),
{
    let parts = split_chars(version_name, '.');
    let first = &parts[0];
    match parse_dec_in_range(first.as_str(), -1i64, 255i64) {
        Some(v) => {
            if v >= 0 {
                v as u8
            } else {
                8
            }
        },
        None => 8,
    }
}

/// The platform key of the launcher metadata for an `(os, arch)` pair, or
/// nothing for a platform without a runtime.
pub open spec fn spec_platform_key(os: Seq<char>, arch: Seq<char>) -> Option<Seq<char>> {
    if os == "linux"@ {
        if arch == "x86"@ {
            Some("linux-i386"@)
        } else {
            Some("linux"@)
        }
    } else if os == "macos"@ {
        if arch == "aarch64"@ {
            Some("mac-os-arm64"@)
        } else {
            Some("mac-os"@)
        }
    } else if os == "windows"@ {
        if arch == "x86"@ {
            Some("windows-x86"@)
        } else if arch == "aarch64"@ {
            Some("windows-arm64"@)
        } else {
            Some("windows-x64"@)
        }
    } else {
        None
    }
}

/// Picks the platform document for the current operating system and
/// architecture; fails exactly on platforms without a runtime.
pub fn platform_key(os: &str, arch: &str) -> (r: Result<String, String>)
    ensures
        match r {
            Ok(k) => spec_platform_key(os@, arch@) == Some(k@),
            Err(_) => spec_platform_key(os@, arch@) is None,
        },
{
    proof {
        reveal_strlit("linux");
        reveal_strlit("macos");
        reveal_strlit("windows");
        reveal_strlit("x86");
        reveal_strlit("aarch64");
        reveal_strlit("linux-i386");
        reveal_strlit("mac-os-arm64");
        reveal_strlit("mac-os");
        reveal_strlit("windows-x86");
        reveal_strlit("windows-arm64");
        reveal_strlit("windows-x64");
    }
    if str_eq(os, "linux") {
        if str_eq(arch, "x86") {
            Ok(String::from_str("linux-i386"))
        } else {
            Ok(String::from_str("linux"))
        }
    } else if str_eq(os, "macos") {
        if str_eq(arch, "aarch64") {
            Ok(String::from_str("mac-os-arm64"))
        } else {
            Ok(String::from_str("mac-os"))
        }
    } else if str_eq(os, "windows") {
        if str_eq(arch, "x86") {
            Ok(String::from_str("windows-x86"))
        } else if str_eq(arch, "aarch64") {
            Ok(String::from_str("windows-arm64"))
        } else {
            Ok(String::from_str("windows-x64"))
        }
    } else {
        Err(String::from_str("Unsupported platform"))
    }
}

/// The path of the Java launcher inside an installed runtime: `bin/java`,
/// with the Windows suffix where asked.
pub open spec fn spec_java_rel_path(windows: bool) -> Seq<char> {
    if windows {
        "bin/java.exe"@
    } else {
        "bin/java"@
    }
}

/// The canonical path of a runtime's Java launcher below the cache:
/// `<cache>/<id>/bin/java`.
pub open spec fn spec_java_path(cache: Seq<char>, id: Seq<char>, windows: bool) -> Seq<char> {
    cache + seq!['/'] + id + seq!['/'] + spec_java_rel_path(windows)
}

/// Builds the canonical Java launcher path for a runtime id.
pub fn java_executable_path(cache: &str, id: &str, windows: bool) -> (r: String)
    ensures
        r@ == spec_java_path(cache@, id@, windows),
{
    let mut s = String::from_str(cache);
    push_char(&mut s, '/');
    append_str(&mut s, id);
    push_char(&mut s, '/');
    if windows {
        append_str(&mut s, "bin/java.exe");
    } else {
        append_str(&mut s, "bin/java");
    }
    proof {
        assert(s@ =~= spec_java_path(cache@, id@, windows));
    }
    s
}

/// What the runtime resolver must do next for an id.
#[derive(Debug, Clone, PartialEq, Eq)]
pub enum RuntimeStep {
    /// The launcher is already installed at this path; answer it and
    /// fetch nothing.
    UseCached(String),
    /// The launcher is absent; the manifests must be fetched and the
    /// runtime installed.
    Install,
}

/// Decides one resolver call from the cache state alone. When the
/// launcher is already present the resolver is idempotent: it answers the
/// same canonical path and performs no fetch; only an absent launcher
/// leads to installation.
pub fn ready_runtime_step(java_present: bool, cache: &str, id: &str, windows: bool) -> (r:
    RuntimeStep)
    ensures
        java_present ==> (r matches RuntimeStep::UseCached(p) && p@ == spec_java_path(
            cache@,
            id@,
            windows,
        )),
        !java_present ==> r == RuntimeStep::Install,
{
    if java_present {
        RuntimeStep::UseCached(java_executable_path(cache, id, windows))
    } else {
        RuntimeStep::Install
    }
}

/// Finds the manifest URL of the runtime `id` on the given platform:
/// entries are `(platform, runtime type, manifest url, version name)`
/// rows; the first row of the right platform and type wins.
pub fn find_manifest_url<'a>(
    rows: &'a Vec<(String, String, String, String)>,
    platform: &str,
    id: &str,
) -> (r: Option<&'a String>)
    ensures
        match r {
            Some(u) => exists|k: int|
                0 <= k < rows@.len() && (#[trigger] rows@[k]).0@ == platform@ && rows@[k].1@
                    == id@ && rows@[k].2@ == u@,
            None => forall|k: int|
                0 <= k < rows@.len() ==> !((#[trigger] rows@[k]).0@ == platform@ && rows@[k].1@
                    == id@),
        },
{
    let mut k: usize = 0;
    while k < rows.len()
        invariant
            0 <= k <= rows@.len(),
            forall|a: int|
                0 <= a < k ==> !((#[trigger] rows@[a]).0@ == platform@ && rows@[a].1@ == id@),
        decreases rows@.len() - k,
    {
        if str_eq(rows[k].0.as_str(), platform) && str_eq(rows[k].1.as_str(), id) {
            return Some(&rows[k].2);
        }
        k = k + 1;
    }
    None
}

} // verus!
