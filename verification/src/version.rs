use crate::text::{lemma_seq_lt_asymmetric, lemma_seq_lt_total, lemma_seq_lt_transitive, seq_lt,
    str_eq};
use vstd::prelude::*;

verus! {

/// What this library reads of a version: the numeric triple, the pre-release
/// tag and the build metadata. An empty tag means a final release.
pub ghost struct VersionKey {
    pub major: u64,
    pub minor: u64,
    pub patch: u64,
    pub pre: Seq<char>,
    pub build: Seq<char>,
}

/// A package version. Build metadata takes no part in precedence but does
/// distinguish versions, so it is kept.
#[derive(Debug, PartialEq, Eq, Hash)]
pub struct Version {
    major: u64,
    minor: u64,
    patch: u64,
    pre: String,
    build: String,
}

impl Clone for Version {
    fn clone(&self) -> (res: Self)
        ensures
            res == *self,
    {
        Version {
            major: self.major,
            minor: self.minor,
            patch: self.patch,
            pre: self.pre.clone(),
            build: self.build.clone(),
        }
    }
}

impl View for Version {
    type V = VersionKey;

    closed spec fn view(&self) -> VersionKey {
        VersionKey {
            major: self.major,
            minor: self.minor,
            patch: self.patch,
            pre: self.pre@,
            build: self.build@,
        }
    }
}

/// The total order used to rank versions: the numeric triple ordered
/// lexicographically; on equal triples a final release outranks every
/// pre-release; pre-release tags, and then build metadata, are compared by
/// plain character order. The character-order fallback is an approximation
/// of semantic-version precedence, which compares dot-separated identifiers
/// and reads numeric identifiers as numbers.
pub open spec fn version_lt(a: VersionKey, b: VersionKey) -> bool {
    if a.major != b.major {
        a.major < b.major
    } else if a.minor != b.minor {
        a.minor < b.minor
    } else if a.patch != b.patch {
        a.patch < b.patch
    } else if a.pre != b.pre {
        if b.pre.len() == 0 {
            true
        } else if a.pre.len() == 0 {
            false
        } else {
            seq_lt(a.pre, b.pre)
        }
    } else if a.build == b.build {
        false
    } else {
        seq_lt(a.build, b.build)
    }
}

pub open spec fn version_le(a: VersionKey, b: VersionKey) -> bool {
    version_lt(a, b) || a == b
}

pub proof fn lemma_version_lt_total(a: VersionKey, b: VersionKey)
    ensures
        version_lt(a, b) || version_lt(b, a) || a == b,
{
    lemma_seq_lt_total(a.pre, b.pre);
    lemma_seq_lt_total(a.build, b.build);
}

pub proof fn lemma_version_lt_asymmetric(a: VersionKey, b: VersionKey)
    ensures
        !(version_lt(a, b) && version_lt(b, a)),
{
    if a.pre.len() == 0 && b.pre.len() == 0 {
        assert(a.pre =~= b.pre);
    }
    lemma_seq_lt_asymmetric(a.pre, b.pre);
    lemma_seq_lt_asymmetric(a.build, b.build);
}

pub proof fn lemma_version_lt_transitive(a: VersionKey, b: VersionKey, c: VersionKey)
    ensures
        version_lt(a, b) && version_lt(b, c) ==> version_lt(a, c),
{
    if a.pre.len() == 0 && b.pre.len() == 0 {
        assert(a.pre =~= b.pre);
    }
    if b.pre.len() == 0 && c.pre.len() == 0 {
        assert(b.pre =~= c.pre);
    }
    if a.pre.len() == 0 && c.pre.len() == 0 {
        assert(a.pre =~= c.pre);
    }
    lemma_seq_lt_transitive(a.pre, b.pre, c.pre);
    lemma_seq_lt_asymmetric(a.pre, b.pre);
    lemma_seq_lt_transitive(a.build, b.build, c.build);
    lemma_seq_lt_asymmetric(a.build, b.build);
}

impl Version {
    pub fn new(major: u64, minor: u64, patch: u64, pre: String, build: String) -> (r: Version)
        ensures
            r@ == (VersionKey { major, minor, patch, pre: pre@, build: build@ }),
    {
        Version { major, minor, patch, pre, build }
    }

    pub fn major(&self) -> (r: u64)
        ensures
            r == self@.major,
    {
        self.major
    }

    pub fn minor(&self) -> (r: u64)
        ensures
            r == self@.minor,
    {
        self.minor
    }

    pub fn patch(&self) -> (r: u64)
        ensures
            r == self@.patch,
    {
        self.patch
    }

    pub fn pre(&self) -> (r: &String)
        ensures
            r@ == self@.pre,
    {
        &self.pre
    }

    pub fn build(&self) -> (r: &String)
        ensures
            r@ == self@.build,
    {
        &self.build
    }

    /// Whether the two versions are the same, pre-release tag included.
    pub fn eq_version(&self, other: &Version) -> (r: bool)
        ensures
            r == (self@ == other@),
    {
        self.major == other.major && self.minor == other.minor && self.patch == other.patch
            && str_eq(&self.pre, &other.pre) && str_eq(&self.build, &other.build)
    }

    /// Whether `self` has strictly lower precedence than `other`.
    pub fn lt_version(&self, other: &Version) -> (r: bool)
        ensures
            r == version_lt(self@, other@),
    {
        if self.major != other.major {
            self.major < other.major
        } else if self.minor != other.minor {
            self.minor < other.minor
        } else if self.patch != other.patch {
            self.patch < other.patch
        } else if !str_eq(&self.pre, &other.pre) {
            if other.pre.as_str().unicode_len() == 0 {
                true
            } else if self.pre.as_str().unicode_len() == 0 {
                false
            } else {
                str_lt_pre(&self.pre, &other.pre)
            }
        } else if str_eq(&self.build, &other.build) {
            false
        } else {
            str_lt_pre(&self.build, &other.build)
        }
    }
}

fn str_lt_pre(a: &String, b: &String) -> (r: bool)
    ensures
        r == seq_lt(a@, b@),
{
    crate::text::str_lt(a.as_str(), b.as_str())
}

/// What `semver::Version::parse` extracts from a version text: major, minor,
/// patch, the pre-release tag and the build metadata, or nothing when the
/// text is not a valid semantic version. The result depends on the text
/// alone.
pub uninterp spec fn semver_parts(s: Seq<char>) -> Option<
    (u64, u64, u64, Seq<char>, Seq<char>),
>;

/// Relies on semver::Version::parse: parses a semantic version text, never
/// panics, and fails exactly on texts that are not valid semantic versions.
#[verifier::external_body]
pub(crate) fn parse_version(s: &str) -> (r: Option<Version>)
    ensures
        match semver_parts(s@) {
            Some(p) => r matches Some(v) && v@ == (VersionKey {
                major: p.0,
                minor: p.1,
                patch: p.2,
                pre: p.3,
                build: p.4,
            }),
            None => r is None,
        },
{
    match semver::Version::parse(s) {
        Ok(v) => Some(
            Version {
                major: v.major,
                minor: v.minor,
                patch: v.patch,
                pre: v.pre.as_str().to_string(),
                build: v.build.as_str().to_string(),
            },
        ),
        Err(_) => None,
    }
}

} // verus!
