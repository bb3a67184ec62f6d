use crate::text::{lemma_seq_lt_asymmetric, lemma_seq_lt_total, lemma_seq_lt_transitive, seq_lt,
    str_eq};
use crate::version::{lemma_version_lt_asymmetric, lemma_version_lt_total,
    lemma_version_lt_transitive, version_le, Version};
use crate::version::{parse_version, semver_parts, VersionKey};
use vstd::prelude::*;

verus! {

/// The view of an optional string.
pub open spec fn opt_view(o: Option<String>) -> Option<Seq<char>> {
    match o {
        Some(s) => Some(s@),
        None => None,
    }
}

pub(crate) fn opt_str_eq(a: &Option<String>, b: &Option<String>) -> (r: bool)
    ensures
        r == (opt_view(*a) == opt_view(*b)),
{
    match (a, b) {
        (Some(x), Some(y)) => str_eq(x, y),
        (None, None) => true,
        _ => false,
    }
}

/// Where a package comes from, as the identity logic reads it.
pub ghost enum SourceKey {
    Path { path: Seq<char> },
    Registry { url: Seq<char> },
    Git { url: Seq<char>, precise: Option<Seq<char>> },
}

/// Where a package comes from: a local checkout, a remote registry index, or
/// a version-controlled repository carrying the pinned revision once known.
#[derive(Debug, PartialEq, Eq, Hash)]
pub enum SourceId {
    Path { path: String },
    Registry { url: String },
    Git { url: String, precise: Option<String> },
}

impl Clone for SourceId {
    fn clone(&self) -> (res: Self)
        ensures
            res == *self,
    {
        match self {
            SourceId::Path { path } => SourceId::Path { path: path.clone() },
            SourceId::Registry { url } => SourceId::Registry { url: url.clone() },
            SourceId::Git { url, precise } => SourceId::Git {
                url: url.clone(),
                precise: match precise {
                    Some(p) => Some(p.clone()),
                    None => None,
                },
            },
        }
    }
}

impl View for SourceId {
    type V = SourceKey;

    open spec fn view(&self) -> SourceKey {
        match self {
            SourceId::Path { path } => SourceKey::Path { path: path@ },
            SourceId::Registry { url } => SourceKey::Registry { url: url@ },
            SourceId::Git { url, precise } => SourceKey::Git {
                url: url@,
                precise: opt_view(*precise),
            },
        }
    }
}

/// The pinned revision of a version-controlled origin, if any.
pub open spec fn source_precise(s: SourceKey) -> Option<Seq<char>> {
    match s {
        SourceKey::Git { precise, .. } => precise,
        _ => None,
    }
}

impl SourceId {
    /// Whether this origin is a local filesystem checkout.
    pub fn is_path(&self) -> (r: bool)
        ensures
            r == (self@ is Path),
    {
        match self {
            SourceId::Path { .. } => true,
            _ => false,
        }
    }

    /// Whether this origin is version-controlled.
    pub fn is_git(&self) -> (r: bool)
        ensures
            r == (self@ is Git),
    {
        match self {
            SourceId::Git { .. } => true,
            _ => false,
        }
    }

    pub fn eq_source(&self, other: &SourceId) -> (r: bool)
        ensures
            r == (self@ == other@),
    {
        match (self, other) {
            (SourceId::Path { path: a }, SourceId::Path { path: b }) => str_eq(a, b),
            (SourceId::Registry { url: a }, SourceId::Registry { url: b }) => str_eq(a, b),
            (
                SourceId::Git { url: a, precise: pa },
                SourceId::Git { url: b, precise: pb },
            ) => str_eq(a, b) && opt_str_eq(pa, pb),
            _ => false,
        }
    }

    /// Whether the two origins record the same pinned revision.
    pub fn precise_equal(&self, other: &SourceId) -> (r: bool)
        ensures
            r == (source_precise(self@) == source_precise(other@)),
    {
        match (self, other) {
            (SourceId::Git { precise: pa, .. }, SourceId::Git { precise: pb, .. }) => opt_str_eq(
                pa,
                pb,
            ),
            (SourceId::Git { precise: pa, .. }, _) => pa.is_none(),
            (_, SourceId::Git { precise: pb, .. }) => pb.is_none(),
            _ => true,
        }
    }
}

/// A package identity: name, version and origin, compared as a full tuple.
/// Identities from a local-filesystem origin share a key exactly when they
/// share the checkout path, the name and the version.
pub ghost struct PackageIdKey {
    pub name: Seq<char>,
    pub version: VersionKey,
    pub source: SourceKey,
}

#[derive(Debug, PartialEq, Eq, Hash)]
pub struct PackageId {
    name: String,
    version: Version,
    source: SourceId,
}

impl Clone for PackageId {
    fn clone(&self) -> (res: Self)
        ensures
            res == *self,
    {
        PackageId {
            name: self.name.clone(),
            version: self.version.clone(),
            source: self.source.clone(),
        }
    }
}

impl View for PackageId {
    type V = PackageIdKey;

    closed spec fn view(&self) -> PackageIdKey {
        PackageIdKey { name: self.name@, version: self.version@, source: self.source@ }
    }
}

/// The ordering used to pick the best candidate: by name, then by version
/// ascending, so the greatest element is the highest version.
pub open spec fn id_le(a: PackageIdKey, b: PackageIdKey) -> bool {
    seq_lt(a.name, b.name) || (a.name == b.name && version_le(a.version, b.version))
}

pub proof fn lemma_id_le_total(a: PackageIdKey, b: PackageIdKey)
    ensures
        id_le(a, b) || id_le(b, a),
{
    lemma_seq_lt_total(a.name, b.name);
    lemma_version_lt_total(a.version, b.version);
}

pub proof fn lemma_id_le_transitive(a: PackageIdKey, b: PackageIdKey, c: PackageIdKey)
    ensures
        id_le(a, b) && id_le(b, c) ==> id_le(a, c),
{
    lemma_seq_lt_transitive(a.name, b.name, c.name);
    lemma_version_lt_transitive(a.version, b.version, c.version);
    lemma_seq_lt_asymmetric(a.name, b.name);
    lemma_version_lt_asymmetric(a.version, b.version);
}

impl PackageId {
    pub fn new(name: String, version: Version, source: SourceId) -> (r: PackageId)
        ensures
            r@ == (PackageIdKey { name: name@, version: version@, source: source@ }),
    {
        PackageId { name, version, source }
    }

    pub fn name(&self) -> (r: &String)
        ensures
            r@ == self@.name,
    {
        &self.name
    }

    pub fn version(&self) -> (r: &Version)
        ensures
            r@ == self@.version,
    {
        &self.version
    }

    pub fn source_id(&self) -> (r: &SourceId)
        ensures
            r@ == self@.source,
    {
        &self.source
    }

    /// Whether the two identities are the same key.
    pub fn eq_id(&self, other: &PackageId) -> (r: bool)
        ensures
            r == (self@ == other@),
    {
        str_eq(&self.name, &other.name) && self.version.eq_version(&other.version)
            && self.source.eq_source(&other.source)
    }

    /// Whether `self` comes no later than `other` in the candidate ordering.
    pub fn le_by_name_version(&self, other: &PackageId) -> (r: bool)
        ensures
            r == id_le(self@, other@),
    {
        if str_eq(&self.name, &other.name) {
            proof {
                lemma_seq_lt_asymmetric(self.name@, other.name@);
            }
            self.version.lt_version(&other.version) || self.version.eq_version(&other.version)
        } else {
            crate::text::str_lt(self.name.as_str(), other.name.as_str())
        }
    }
}

/// The best-guess identity for a requested name and version text: the parsed
/// version joined with the name and source, or nothing when the text is not a
/// valid semantic version.
pub fn probe_package_id(name: &String, version_text: &String, source: &SourceId) -> (r: Option<
    PackageId,
>)
    ensures
        match semver_parts(version_text@) {
            Some(p) => r matches Some(pid) && pid@ == (PackageIdKey {
                name: name@,
                version: (VersionKey {
                    major: p.0,
                    minor: p.1,
                    patch: p.2,
                    pre: p.3,
                    build: p.4,
                }),
                source: source@,
            }),
            None => r is None,
        },
{
    match parse_version(version_text.as_str()) {
        Some(v) => Some(PackageId::new(name.clone(), v, source.clone())),
        None => None,
    }
}

} // verus!
