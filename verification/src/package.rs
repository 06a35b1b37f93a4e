use vstd::prelude::*;
use crate::text::{decimal, push_decimal, str_chars, push_all};

verus! {

/// A package version `major.minor.patch`.
#[derive(PartialEq, Eq, Structural, Clone, Copy, Debug, Hash)]
pub struct Version {
    pub major: u64,
    pub minor: u64,
    pub patch: u64,
}

impl Version {
    pub fn new(major: u64, minor: u64, patch: u64) -> (r: Version)
        ensures
            r == (Version { major, minor, patch }),
    {
        Version { major, minor, patch }
    }

    /// The textual form `major.minor.patch`.
    pub open spec fn spec_text(self) -> Seq<char> {
        decimal(self.major as nat) + seq!['.'] + decimal(self.minor as nat) + seq!['.'] + decimal(
            self.patch as nat,
        )
    }

    /// Whether `self` orders strictly before `other` (by major, then minor, then patch).
    pub open spec fn spec_lt(self, other: Version) -> bool {
        self.major < other.major || (self.major == other.major && (self.minor < other.minor || (
        self.minor == other.minor && self.patch < other.patch)))
    }

    /// Appends the textual form of the version to `out`.
    pub fn push_text(&self, out: &mut Vec<char>)
        ensures
            final(out)@ == old(out)@ + self.spec_text(),
    {
        push_decimal(out, self.major);
        out.push('.');
        push_decimal(out, self.minor);
        out.push('.');
        push_decimal(out, self.patch);
        assert(out@ =~= old(out)@ + self.spec_text());
    }

    /// The textual form `major.minor.patch` as a `String`.
    pub fn to_string(&self) -> (r: String)
        ensures
            r@ == self.spec_text(),
    {
        let mut out: Vec<char> = Vec::new();
        self.push_text(&mut out);
        assert(out@ =~= self.spec_text());
        crate::text::chars_to_string(&out)
    }

    /// Whether `self` orders strictly before `other`.
    pub fn lt(&self, other: &Version) -> (r: bool)
        ensures
            r == self.spec_lt(*other),
    {
        self.major < other.major || (self.major == other.major && (self.minor < other.minor || (
        self.minor == other.minor && self.patch < other.patch)))
    }
}

/// A reference to a specific version of a package, written `id@version`.
#[derive(Debug)]
pub struct PackageRef {
    pub id: String,
    pub version: Version,
}

impl PackageRef {
    pub fn new(id: String, version: Version) -> (r: PackageRef)
        ensures
            r.id == id,
            r.version == version,
    {
        PackageRef { id, version }
    }

    /// The textual form `id@version`.
    pub open spec fn spec_text(&self) -> Seq<char> {
        self.id@ + seq!['@'] + self.version.spec_text()
    }

    /// Appends the textual form `id@version` to `out`.
    pub fn push_text(&self, out: &mut Vec<char>)
        ensures
            final(out)@ == old(out)@ + self.spec_text(),
    {
        let id = str_chars(self.id.as_str());
        push_all(out, &id);
        out.push('@');
        self.version.push_text(out);
        assert(out@ =~= old(out)@ + self.spec_text());
    }

    /// The textual form `id@version` as a `String`.
    pub fn to_string(&self) -> (r: String)
        ensures
            r@ == self.spec_text(),
    {
        let mut out: Vec<char> = Vec::new();
        self.push_text(&mut out);
        assert(out@ =~= self.spec_text());
        crate::text::chars_to_string(&out)
    }

    /// A copy of this reference.
    pub fn duplicate(&self) -> (r: PackageRef)
        ensures
            r.id@ == self.id@,
            r.version == self.version,
    {
        PackageRef { id: self.id.clone(), version: self.version }
    }
}

} // verus!

verus! {

#[verifier::external_type_specification]
#[verifier::external_body]
pub struct ExSemverError(semver::Error);

/// What `semver::VersionReq::parse` gives for the text `s`, as the text the requirement
/// displays (`None` where it reports an error).
pub uninterp spec fn version_req_display(s: Seq<char>) -> Option<Seq<char>>;

/// Whether the requirement parsed from the text `req` matches the version
/// `major.minor.patch` (`semver::VersionReq::matches`); false where `req` does not parse.
pub uninterp spec fn version_req_matches(req: Seq<char>, major: nat, minor: nat, patch: nat) -> bool;

/// Calls `semver::VersionReq::parse` and displays the result; the text is named by
/// `version_req_display`.
#[verifier::external_body]
fn parse_req_text(s: &str) -> (r: Result<String, semver::Error>)
    ensures
        r is Ok <==> version_req_display(s@) is Some,
        r matches Ok(t) ==> version_req_display(s@) == Some(t@),
{
    semver::VersionReq::parse(s).map(|req| req.to_string())
}

/// Calls `semver::VersionReq::matches` on the requirement parsed from `req`; the result is
/// named by `version_req_matches`.
#[verifier::external_body]
fn req_text_matches(req: &str, major: u64, minor: u64, patch: u64) -> (r: bool)
    ensures
        r == version_req_matches(req@, major as nat, minor as nat, patch as nat),
{
    match semver::VersionReq::parse(req) {
        Ok(parsed) => parsed.matches(&semver::Version::new(major, minor, patch)),
        Err(_) => false,
    }
}

/// A requirement on package versions (such as `*`, `^1.2` or `=1.2.3`), held as the text it
/// displays.
#[derive(Debug, Clone)]
pub struct VersionReq {
    text: String,
}

impl View for VersionReq {
    type V = Seq<char>;

    closed spec fn view(&self) -> Seq<char> {
        self.text@
    }
}

/// The text of the requirement that every version meets.
pub open spec fn star_text() -> Seq<char> {
    seq!['*']
}

impl VersionReq {
    /// The requirement that every version meets, `*`.
    pub fn star() -> (r: VersionReq)
        ensures
            r@ == star_text(),
    {
        let v = vec!['*'];
        let r = VersionReq { text: crate::text::chars_to_string(&v) };
        assert(r@ =~= star_text());
        r
    }

    /// Parses a version requirement.
    pub fn parse(s: &str) -> (r: Result<VersionReq, semver::Error>)
        ensures
            r is Ok <==> version_req_display(s@) is Some,
            r matches Ok(req) ==> version_req_display(s@) == Some(req@),
    {
        match parse_req_text(s) {
            Ok(text) => Ok(VersionReq { text }),
            Err(e) => Err(e),
        }
    }

    /// Whether this is the requirement `*`.
    pub fn is_star(&self) -> (r: bool)
        ensures
            r == (self@ == star_text()),
    {
        let chars = crate::text::str_chars(self.text.as_str());
        let star = vec!['*'];
        assert(star@ =~= star_text());
        crate::text::chars_equal(&chars, &star)
    }

    /// Whether `version` meets the requirement.
    pub fn matches(&self, version: &Version) -> (r: bool)
        ensures
            r == version_req_matches(
                self@,
                version.major as nat,
                version.minor as nat,
                version.patch as nat,
            ),
    {
        req_text_matches(self.text.as_str(), version.major, version.minor, version.patch)
    }

    /// The text of the requirement.
    pub fn as_str(&self) -> (r: &str)
        ensures
            r@ == self@,
    {
        self.text.as_str()
    }

    /// A copy of the requirement.
    pub fn duplicate(&self) -> (r: VersionReq)
        ensures
            r@ == self@,
    {
        VersionReq { text: self.text.clone() }
    }
}

/// A value in the registry metadata of a mod: a JSON string, or any other JSON value held as
/// its JSON text.
#[derive(Debug, Clone, PartialEq, Eq)]
pub enum MetadataValue {
    Text(String),
    Json(String),
}

/// Registry-specific data attached to a mod: JSON `null`, a JSON object, or any other JSON
/// value (held as its JSON text).
#[derive(Debug, Clone)]
pub enum RegistryMetadata {
    Null,
    Object(Vec<(String, MetadataValue)>),
    Other(String),
}

/// A declared dependency on another package.
#[derive(Debug)]
pub struct Dependency {
    pub id: String,
    pub version_req: VersionReq,
    pub source: String,
    pub registry_metadata: Option<RegistryMetadata>,
}

impl Dependency {
    /// A dependency on `id` at versions meeting `version_req`, from the source named `source`,
    /// with no registry metadata.
    pub fn new(id: String, version_req: VersionReq, source: String) -> (r: Dependency)
        ensures
            r.id@ == id@,
            r.version_req@ == version_req@,
            r.source@ == source@,
            r.registry_metadata is None,
    {
        Dependency { id, version_req, source, registry_metadata: None }
    }
}

/// A package entry of a lockfile: the exact version that is installed, where it comes from,
/// and what it depends on.
#[derive(Debug)]
pub struct LockedPackage {
    pub ref_: PackageRef,
    pub source: String,
    pub transitive: bool,
    pub size: Option<u64>,
    pub deps: Vec<Dependency>,
}

/// Every package that is installed for a profile.
#[derive(Debug)]
pub struct Lockfile {
    pub packages: Vec<LockedPackage>,
}

impl Lockfile {
    pub fn new(packages: Vec<LockedPackage>) -> (r: Lockfile)
        ensures
            r.packages@ == packages@,
    {
        Lockfile { packages }
    }
}

} // verus!
