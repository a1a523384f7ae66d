//! The version resolvers: each family has its own rule for deriving the
//! `version` field of a record.

use vstd::prelude::*;
use crate::numbers::{is_u64_numeral, u64_numeral_val};
use crate::records::{Firmware, KindleFirmware, SiteError, FirmwareData};
use vstd::string::StringExecFns;

verus! {

/// Records at or below this incremental belong to the generation whose
/// version is the system-utilities string.
pub const META_LOW_THRESHOLD: u64 = 15280600195700000;

/// Records at or above this incremental belong to the generation whose
/// version is the system-UX string.
pub const META_HIGH_THRESHOLD: u64 = 15849800124700000;

/// The version a headset record gets: the system-utilities string up to
/// the low threshold, the system-UX string from the high threshold on, and
/// the literal `"Unknown"` for the gap in between.
pub open spec fn meta_version_of(fw: Firmware) -> Seq<char> {
    if u64_numeral_val(fw.incremental@) <= META_LOW_THRESHOLD {
        fw.system_utilities_version@
    } else if u64_numeral_val(fw.incremental@) >= META_HIGH_THRESHOLD {
        fw.system_ux_version@
    } else {
        "Unknown"@
    }
}

/// Whether `b` is `a` with its `version` field replaced; every other field
/// is unchanged.
pub open spec fn same_but_version(a: Firmware, b: Firmware) -> bool {
    &&& a.build_date == b.build_date
    &&& a.build_date_utc == b.build_date_utc
    &&& a.codename == b.codename
    &&& a.fingerprint == b.fingerprint
    &&& a.incremental == b.incremental
    &&& a.model == b.model
    &&& a.os_version == b.os_version
    &&& a.system_ux_version == b.system_ux_version
    &&& a.system_utilities_version == b.system_utilities_version
    &&& a.vr_shell_version == b.vr_shell_version
    &&& a.name == b.name
    &&& a.sha256 == b.sha256
}

/// Derives the `version` of every headset record from its incremental
/// build number. A record whose `incremental` is not a u64 numeral is a
/// fatal error naming that record, and the list is then left as it was.
pub fn process_meta_versions(firmwares: &mut Vec<Firmware>) -> (r: Result<(), SiteError>)
    ensures
        match r {
            Ok(()) => {
                &&& final(firmwares)@.len() == old(firmwares)@.len()
                &&& forall|i: int| 0 <= i < old(firmwares)@.len() ==> {
                    &&& is_u64_numeral(#[trigger] old(firmwares)@[i].incremental@)
                    &&& same_but_version(old(firmwares)@[i], final(firmwares)@[i])
                    &&& final(firmwares)@[i].version@ == meta_version_of(old(firmwares)@[i])
                }
            },
            Err(SiteError::BadIncremental { index }) => {
                &&& final(firmwares)@ == old(firmwares)@
                &&& index < old(firmwares)@.len()
                &&& !is_u64_numeral(old(firmwares)@[index as int].incremental@)
                &&& forall|j: int| 0 <= j < index ==> is_u64_numeral(
                    #[trigger] old(firmwares)@[j].incremental@,
                )
            },
            Err(_) => false,
        },
{
    let n = firmwares.len();
    let mut out: Vec<Firmware> = Vec::new();
    let mut i: usize = 0;
    while i < n
        invariant
            n == firmwares@.len(),
            firmwares@ == old(firmwares)@,
            0 <= i <= n,
            out@.len() == i,
            forall|j: int| 0 <= j < i ==> {
                &&& is_u64_numeral(#[trigger] firmwares@[j].incremental@)
                &&& same_but_version(firmwares@[j], out@[j])
                &&& out@[j].version@ == meta_version_of(firmwares@[j])
            },
        decreases n - i,
    {
        let fw = &firmwares[i];
        let version: String = match fw.incremental_as_u64() {
            None => {
                return Err(SiteError::BadIncremental { index: i });
            },
            Some(v) => {
                if v <= META_LOW_THRESHOLD {
                    fw.system_utilities_version.clone()
                } else if v >= META_HIGH_THRESHOLD {
                    fw.system_ux_version.clone()
                } else {
                    String::from_str("Unknown")
                }
            },
        };
        out.push(
            Firmware {
                build_date: fw.build_date.clone(),
                build_date_utc: fw.build_date_utc.clone(),
                codename: fw.codename.clone(),
                fingerprint: fw.fingerprint.clone(),
                incremental: fw.incremental.clone(),
                model: fw.model.clone(),
                os_version: fw.os_version.clone(),
                system_ux_version: fw.system_ux_version.clone(),
                system_utilities_version: fw.system_utilities_version.clone(),
                vr_shell_version: fw.vr_shell_version.clone(),
                name: fw.name.clone(),
                sha256: fw.sha256.clone(),
                version,
            },
        );
        i = i + 1;
    }
    *firmwares = out;
    Ok(())
}

/// The version a reader record gets: the part of its display name after
/// the last `_`, or the sentinel `"N/A"` if the name has no `_`.
pub open spec fn kindle_version_of(name: Seq<char>) -> Seq<char> {
    if has_underscore(name) {
        suffix_after_underscore(name)
    } else {
        "N/A"@
    }
}

/// Whether some character of `s` is `_`.
pub open spec fn has_underscore(s: Seq<char>) -> bool {
    exists|i: int| 0 <= i < s.len() && s[i] == '_'
}

/// The longest suffix of `s` that contains no `_`.
pub open spec fn suffix_after_underscore(s: Seq<char>) -> Seq<char>
    decreases s.len(),
{
    if s.len() == 0 {
        Seq::empty()
    } else if s.last() == '_' {
        Seq::empty()
    } else {
        suffix_after_underscore(s.drop_last()).push(s.last())
    }
}

/// Past the last `_`, the suffix spec is exactly the remaining range.
proof fn lemma_suffix_after_underscore(s: Seq<char>, j: int)
    requires
        0 <= j <= s.len(),
        forall|k: int| j <= k < s.len() ==> s[k] != '_',
        j > 0 ==> s[j - 1] == '_',
    ensures
        suffix_after_underscore(s) =~= s.subrange(j, s.len() as int),
    decreases s.len(),
{
    if s.len() == 0 {
    } else if s.last() == '_' {
        assert(j == s.len());
    } else {
        let t = s.drop_last();
        if j == s.len() {
            assert(s[j - 1] == '_');
            assert(false);
        } else {
            lemma_suffix_after_underscore(t, j);
        }
    }
}

/// The reader rule picks exactly the segment after the last underscore:
/// past an underscore at `j - 1` with none later, the version is the rest
/// of the name from `j` on; a name with no underscore at all gets the
/// sentinel `"N/A"` instead.
pub proof fn lemma_kindle_version_is_last_segment(name: Seq<char>, j: int)
    requires
        1 <= j <= name.len(),
        name[j - 1] == '_',
        forall|k: int| j <= k < name.len() ==> name[k] != '_',
    ensures
        kindle_version_of(name) == name.subrange(j, name.len() as int),
{
    assert(has_underscore(name)) by {
        assert(name[j - 1] == '_');
    }
    lemma_suffix_after_underscore(name, j);
}

/// Derives the `version` of every reader record from its display name.
/// This never fails.
pub fn process_kindle_versions(firmwares: &mut Vec<KindleFirmware>)
    ensures
        final(firmwares)@.len() == old(firmwares)@.len(),
        forall|i: int| 0 <= i < old(firmwares)@.len() ==> {
            &&& (#[trigger] final(firmwares)@[i]).incremental == old(firmwares)@[i].incremental
            &&& final(firmwares)@[i].model == old(firmwares)@[i].model
            &&& final(firmwares)@[i].name == old(firmwares)@[i].name
            &&& final(firmwares)@[i].sha256 == old(firmwares)@[i].sha256
            &&& final(firmwares)@[i].version@ == kindle_version_of(old(firmwares)@[i].name@)
        },
{
    let n = firmwares.len();
    let mut out: Vec<KindleFirmware> = Vec::new();
    let mut i: usize = 0;
    while i < n
        invariant
            n == firmwares@.len(),
            firmwares@ == old(firmwares)@,
            0 <= i <= n,
            out@.len() == i,
            forall|j: int| 0 <= j < i ==> {
                &&& (#[trigger] out@[j]).incremental == firmwares@[j].incremental
                &&& out@[j].model == firmwares@[j].model
                &&& out@[j].name == firmwares@[j].name
                &&& out@[j].sha256 == firmwares@[j].sha256
                &&& out@[j].version@ == kindle_version_of(firmwares@[j].name@)
            },
        decreases n - i,
    {
        let fw = &firmwares[i];
        let version = version_from_name(fw.name.as_str());
        out.push(
            KindleFirmware {
                incremental: fw.incremental.clone(),
                model: fw.model.clone(),
                name: fw.name.clone(),
                sha256: fw.sha256.clone(),
                version,
            },
        );
        i = i + 1;
    }
    *firmwares = out;
}

/// The reader-family rule on one display name.
pub fn version_from_name(name: &str) -> (r: String)
    ensures
        r@ == kindle_version_of(name@),
{
    let n = name.unicode_len();
    let mut j: usize = n;
    while j > 0 && name.get_char(j - 1) != '_'
        invariant
            0 <= j <= n,
            n == name@.len(),
            forall|k: int| j <= k < n ==> name@[k] != '_',
        decreases j,
    {
        j = j - 1;
    }
    if j == 0 {
        proof {
            assert(!has_underscore(name@));
        }
        String::from_str("N/A")
    } else {
        proof {
            assert(name@[j - 1] == '_');
            assert(has_underscore(name@));
            lemma_suffix_after_underscore(name@, j as int);
        }
        String::from_str(name.substring_char(j, n))
    }
}

} // verus!
