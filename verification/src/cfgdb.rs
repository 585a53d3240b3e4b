//! cfgdb: the carrier rows of `cfg.db`, and the checks and conversions applied
//! to what the database returns.
use vstd::prelude::*;

use crate::error::{Error, ProjectError};
use crate::text::{dec_i64, parse_i64, parse_i64_spec, push_i64};
use vstd::string::StrSliceExecFns;

verus! {

/// A single SIM-identity matching rule from `carrier_info`.
pub struct MatchRule {
    pub mccmnc: String,
    pub imsi_prefix_xpattern: Option<String>,
    pub spn: Option<String>,
    pub gid1: Option<String>,
    pub gid2: Option<String>,
    pub iccid_prefix: Option<String>,
}

/// A carrier entry assembled from `confnames`/`carrier_name`/`confmap`/`carrier_info`.
pub struct Carrier {
    pub carrier_id: i64,
    pub slug: Option<String>,
    pub name: Option<String>,
    pub parent_id: Option<i64>,
    pub confman: String,
    pub matching: Vec<MatchRule>,
}

/// The carriers and version rows of `cfg.db`.
pub struct Cfgdb {
    pub carriers: Vec<Carrier>,
    /// `(name, version)` rows from the `versions` table; integer versions as
    /// their decimal text, the `confpack` TEXT label as it is.
    pub versions: Vec<(String, String)>,
}

/// A refiner column with no filter: SQL NULL, the empty string, or `%`.
pub open spec fn refiner_spec(s: Option<Seq<char>>) -> Option<Seq<char>> {
    match s {
        Some(v) => if v.len() > 0 && v != seq!['%'] {
            Some(v)
        } else {
            None
        },
        None => None,
    }
}

/// Normalise a refiner column value: treat SQL NULL, empty string, or the
/// catch-all `%` as "no filter" (`None`).
pub fn normalize_refiner(s: Option<String>) -> (r: Option<String>)
    ensures
        crate::error::opt_view(r) == refiner_spec(crate::error::opt_view(s)),
{
    match s {
        Some(v) => {
            let n = v.as_str().unicode_len();
            if n == 0 {
                None
            } else if n == 1 && v.as_str().get_char(0) == '%' {
                assert(v@ =~= seq!['%']);
                None
            } else {
                assert(v@ != seq!['%']) by {
                    if v@ == seq!['%'] {
                        assert(v@[0] == '%');
                    }
                }
                Some(v)
            }
        },
        None => None,
    }
}

/// What a `parent_id` column holds: nothing (NULL or empty), or a number.
pub open spec fn parent_id_spec(raw: Option<Seq<char>>) -> Option<Option<i64>> {
    match raw {
        None => Some(None),
        Some(s) => if s.len() == 0 {
            Some(None)
        } else {
            match parse_i64_spec(s) {
                Some(v) => Some(Some(v)),
                None => None,
            }
        },
    }
}

/// Parse a `parent_id` column strictly: NULL or empty is no parent, a number
/// is the parent, anything else is an error naming the carrier.
pub fn parse_parent_id(carrier_id: i64, raw: Option<String>) -> (r: Result<Option<i64>, Error>)
    ensures
        match parent_id_spec(crate::error::opt_view(raw)) {
            Some(p) => r == Ok::<Option<i64>, Error>(p),
            None => (r matches Err(Error::Project(ProjectError::NonNumericParentId(c, t))) && c
                == carrier_id && Some(t@) == crate::error::opt_view(raw)),
        },
{
    match raw {
        None => Ok(None),
        Some(s) => {
            if s.as_str().unicode_len() == 0 {
                Ok(None)
            } else {
                match parse_i64(s.as_str()) {
                    Some(v) => Ok(Some(v)),
                    None => Err(Error::Project(ProjectError::NonNumericParentId(carrier_id, s))),
                }
            }
        },
    }
}

/// One `versions.version` cell as the database stores it.
pub enum VersionCell {
    Integer(i64),
    Text(String),
    Other,
}

/// The text kept for a version cell: an integer as its decimal text, text as
/// it is, anything else as the empty string.
pub open spec fn version_text_spec(v: VersionCell) -> Seq<char> {
    match v {
        VersionCell::Integer(i) => dec_i64(i),
        VersionCell::Text(s) => s@,
        VersionCell::Other => Seq::empty(),
    }
}

/// The text kept for a version cell.
pub fn version_text(v: VersionCell) -> (r: String)
    ensures
        r@ == version_text_spec(v),
{
    match v {
        VersionCell::Integer(i) => {
            let mut s = String::new();
            push_i64(&mut s, i);
            assert(s@ =~= dec_i64(i));
            s
        },
        VersionCell::Text(s) => s,
        VersionCell::Other => String::new(),
    }
}

/// Exactly 40 characters, each `0-9` or `a-f`.
pub open spec fn is_confman_hex(s: Seq<char>) -> bool {
    s.len() == 40 && forall|i: int| 0 <= i < 40 ==> crate::text::is_lower_hex_char(#[trigger] s[i])
}

/// Guard a confman before it is interpolated into a SQL table name or a file
/// path: it must be exactly 40 lowercase hex characters.
pub fn check_confman_hex(confman: &str) -> (r: Result<(), Error>)
    ensures
        is_confman_hex(confman@) ==> r is Ok,
        !is_confman_hex(confman@) ==> (r matches Err(Error::Project(ProjectError::BadConfman(t)))
            && t@ == confman@),
{
    let n = confman.unicode_len();
    let mut ok = n == 40;
    let mut i: usize = 0;
    while ok && i < 40
        invariant
            n == confman@.len(),
            i <= 40,
            ok ==> n == 40 && forall|j: int| 0 <= j < i ==> crate::text::is_lower_hex_char(
                #[trigger] confman@[j],
            ),
            !ok ==> !is_confman_hex(confman@),
        decreases 40 - i + (if ok {
            1int
        } else {
            0int
        }),
    {
        let c = confman.get_char(i);
        if !(('0' <= c && c <= '9') || ('a' <= c && c <= 'f')) {
            ok = false;
        } else {
            i = i + 1;
        }
    }
    if ok {
        Ok(())
    } else {
        Err(Error::Project(ProjectError::BadConfman(confman.to_owned())))
    }
}

} // verus!
