//! The two firmware record kinds and the capability trait they share, plus
//! the error type of the pipeline.

use vstd::prelude::*;
use crate::numbers::{is_u64_numeral, u64_numeral_val, parse_u64};
use vstd::string::StringExecFns;

verus! {

/// A record of the headset family. Optional catalog fields default to the
/// sentinel `"N/A"`; `version` is derived later by the version resolver.
pub struct Firmware {
    pub build_date: String,
    pub build_date_utc: String,
    pub codename: String,
    pub fingerprint: String,
    pub incremental: String,
    pub model: String,
    pub os_version: String,
    pub system_ux_version: String,
    pub system_utilities_version: String,
    pub vr_shell_version: String,
    pub name: String,
    pub sha256: String,
    pub version: String,
}

/// A record of the e-reader family.
pub struct KindleFirmware {
    pub incremental: String,
    pub model: String,
    pub name: String,
    pub sha256: String,
    pub version: String,
}

/// What can go wrong in the pipeline's own logic: a record whose
/// `incremental` is not a u64 numeral, or a failure reported by the
/// template engine.
#[derive(Debug, PartialEq, Eq)]
pub enum SiteError {
    BadIncremental { index: usize },
    Template { message: String },
}

/// The sentinel for optional catalog fields that are absent.
pub fn default_string() -> (r: String)
    ensures
        r@ == "N/A"@,
{
    String::from_str("N/A")
}

/// The two operations both record kinds offer: the model identifier, and
/// the incremental build number read as a u64.
pub trait FirmwareData: Sized {
    /// The model identifier of the record.
    spec fn model_spec(&self) -> Seq<char>;

    /// The raw incremental string of the record.
    spec fn incremental_spec(&self) -> Seq<char>;

    fn model(&self) -> (r: &str)
        ensures
            r@ == self.model_spec(),
    ;

    fn incremental_as_u64(&self) -> (r: Option<u64>)
        ensures
            r is Some <==> is_u64_numeral(self.incremental_spec()),
            r matches Some(v) ==> v == u64_numeral_val(self.incremental_spec()),
    ;
}

impl FirmwareData for Firmware {
    open spec fn model_spec(&self) -> Seq<char> {
        self.model@
    }

    open spec fn incremental_spec(&self) -> Seq<char> {
        self.incremental@
    }

    fn model(&self) -> (r: &str) {
        self.model.as_str()
    }

    fn incremental_as_u64(&self) -> (r: Option<u64>) {
        parse_u64(self.incremental.as_str())
    }
}

impl FirmwareData for KindleFirmware {
    open spec fn model_spec(&self) -> Seq<char> {
        self.model@
    }

    open spec fn incremental_spec(&self) -> Seq<char> {
        self.incremental@
    }

    fn model(&self) -> (r: &str) {
        self.model.as_str()
    }

    fn incremental_as_u64(&self) -> (r: Option<u64>) {
        parse_u64(self.incremental.as_str())
    }
}

/// The rank a record sorts by on its model's page: the incremental value,
/// with anything unreadable ranked lowest.
pub open spec fn sort_key<T: FirmwareData>(fw: T) -> int {
    if is_u64_numeral(fw.incremental_spec()) {
        u64_numeral_val(fw.incremental_spec())
    } else {
        0
    }
}

} // verus!
