//! Versions and version requirements.
use vstd::prelude::*;

verus! {

/// The error of a text that `semver` cannot parse.
#[verifier::external_type_specification]
#[verifier::external_body]
pub struct ExSemverError(semver::Error);

/// What a version is made of.
pub struct VersionView {
    pub major: u64,
    pub minor: u64,
    pub patch: u64,
    pub pre: Seq<char>,
    pub build: Seq<char>,
}

pub open spec fn is_digit(c: char) -> bool {
    '0' <= c <= '9'
}

pub open spec fn is_identifier_char(c: char) -> bool {
    is_digit(c) || 'a' <= c <= 'z' || 'A' <= c <= 'Z' || c == '-'
}

/// Whether `s` is empty or a list of nonempty identifiers with dots between.
pub open spec fn is_identifier_list(s: Seq<char>) -> bool {
    &&& forall|i: int| 0 <= i < s.len() ==> is_identifier_char(#[trigger] s[i]) || s[i] == '.'
    &&& s.len() > 0 ==> s[0] != '.' && s.last() != '.'
    &&& forall|i: int| 0 < i < s.len() ==> !(s[i - 1] == '.' && #[trigger] s[i] == '.')
}

/// Whether some identifier in `s` is a number of several digits that begins with a zero.
pub open spec fn has_leading_zero(s: Seq<char>) -> bool {
    exists|i: int, j: int|
        0 <= i && i + 1 < j <= s.len() && (i == 0 || s[i - 1] == '.') && (j == s.len() || s[j]
            == '.') && s[i] == '0' && #[trigger] all_digits(s, i, j)
}

pub open spec fn all_digits(s: Seq<char>, i: int, j: int) -> bool {
    forall|k: int| i <= k < j ==> is_digit(#[trigger] s[k])
}

impl VersionView {
    pub open spec fn valid(self) -> bool {
        &&& is_identifier_list(self.pre)
        &&& !has_leading_zero(self.pre)
        &&& is_identifier_list(self.build)
    }
}

/// A version: three numbers, a prerelease and build metadata.
#[derive(Debug)]
pub struct Version {
    major: u64,
    minor: u64,
    patch: u64,
    pre: String,
    build: String,
}

impl View for Version {
    type V = VersionView;

    closed spec fn view(&self) -> VersionView {
        VersionView {
            major: self.major,
            minor: self.minor,
            patch: self.patch,
            pre: self.pre@,
            build: self.build@,
        }
    }
}

impl Clone for Version {
    fn clone(&self) -> (r: Self)
        ensures
            r == *self,
    {
        proof {
            use_type_invariant(self);
        }
        Version {
            major: self.major,
            minor: self.minor,
            patch: self.patch,
            pre: self.pre.clone(),
            build: self.build.clone(),
        }
    }
}

impl Version {
    #[verifier::type_invariant]
    closed spec fn inv(self) -> bool {
        self@.valid()
    }

    /// The version of three numbers, without prerelease and build metadata.
    pub fn new(major: u64, minor: u64, patch: u64) -> (r: Self)
        ensures
            r@ == (VersionView { major, minor, patch, pre: seq![], build: seq![] }),
    {
        let r = Version { major, minor, patch, pre: String::new(), build: String::new() };
        r
    }

    /// Whether two versions are the same in every part.
    pub fn same(&self, other: &Version) -> (r: bool)
        ensures
            r == (self@ == other@),
    {
        self.major == other.major && self.minor == other.minor && self.patch == other.patch
            && self.pre == other.pre && self.build == other.build
    }
}

/// A version stands for its numbers, its prerelease and its build metadata, all of them.
proof fn law_version_stands_for_its_parts(v: Version)
    ensures
        v@.major == v.major,
        v@.minor == v.minor,
        v@.patch == v.patch,
        v@.pre == v.pre@,
        v@.build == v.build@,
{
}

/// The text of a version without its build metadata.
pub open spec fn release_text(v: VersionView) -> Seq<char> {
    crate::text::decimal(v.major as nat) + seq!['.'] + crate::text::decimal(v.minor as nat)
        + seq!['.'] + crate::text::decimal(v.patch as nat) + (if v.pre.len() > 0 {
        seq!['-'] + v.pre
    } else {
        seq![]
    })
}

/// The text of a version.
pub open spec fn version_text(v: VersionView) -> Seq<char> {
    release_text(v) + (if v.build.len() > 0 {
        seq!['+'] + v.build
    } else {
        seq![]
    })
}

/// The text of the requirement that admits `v` and nothing but `v`, build metadata aside.
pub open spec fn exact_text(v: VersionView) -> Seq<char> {
    seq!['='] + release_text(v)
}

/// The text of the requirement that every release meets.
pub open spec fn star_text() -> Seq<char> {
    seq!['*']
}

/// Whether two versions differ in build metadata at most.
pub open spec fn same_release(a: VersionView, b: VersionView) -> bool {
    a.major == b.major && a.minor == b.minor && a.patch == b.patch && a.pre == b.pre
}

/// Whether the numbers of `a` come before those of `b`.
pub open spec fn numbers_precede(a: VersionView, b: VersionView) -> bool {
    a.major < b.major || (a.major == b.major && (a.minor < b.minor || (a.minor == b.minor && a.patch
        < b.patch)))
}

/// Whether the numbers of `a` are those of `b`.
pub open spec fn same_numbers(a: VersionView, b: VersionView) -> bool {
    a.major == b.major && a.minor == b.minor && a.patch == b.patch
}

/// Whether `a` has lesser numbers than `b`, or is a prerelease of the release `b`.
pub open spec fn is_lesser(a: VersionView, b: VersionView) -> bool {
    numbers_precede(a, b) || (same_numbers(a, b) && a.pre.len() > 0 && b.pre.len() == 0)
}

/// Whether `a` comes before `b` in the order of `semver` on versions.
pub uninterp spec fn precedes(a: VersionView, b: VersionView) -> bool;

/// The text that `semver` gives the requirement it parses out of `text`, if it parses one.
pub uninterp spec fn parsed_req(text: Seq<char>) -> Option<Seq<char>>;

/// Whether the requirement with the text `req` admits, in the eyes of `semver`, the version with
/// these numbers and this prerelease.
pub uninterp spec fn matches_release(
    req: Seq<char>,
    major: u64,
    minor: u64,
    patch: u64,
    pre: Seq<char>,
) -> bool;

/// Whether the requirement with the text `req` admits `v`. Build metadata plays no part.
pub open spec fn satisfies(req: Seq<char>, v: VersionView) -> bool {
    matches_release(req, v.major, v.minor, v.patch, v.pre)
}

/// Calls `semver::Version::parse`. It accepts the texts of valid versions and no others, and reads
/// each as the version whose text it is.
#[verifier::external_body]
fn parse_version(text: &str) -> (r: Result<Version, semver::Error>)
    ensures
        r matches Ok(v) ==> v@.valid() && version_text(v@) == text@,
        r is Err ==> forall|v: VersionView| v.valid() ==> #[trigger] version_text(v) != text@,
{
    semver::Version::parse(text).map(
        |v| Version {
            major: v.major,
            minor: v.minor,
            patch: v.patch,
            pre: v.pre.as_str().to_string(),
            build: v.build.as_str().to_string(),
        },
    )
}

/// Calls the `Display` of `semver::Version`: the three numbers with dots between, then the
/// prerelease behind a hyphen and the build metadata behind a plus, where there are any.
#[verifier::external_body]
fn display_version(v: &Version) -> (r: String)
    requires
        v@.valid(),
    ensures
        r@ == version_text(v@),
{
    semver::Version {
        major: v.major,
        minor: v.minor,
        patch: v.patch,
        pre: semver::Prerelease::new(&v.pre).unwrap(),
        build: semver::BuildMetadata::new(&v.build).unwrap(),
    }.to_string()
}

/// Calls `<` on two values of `semver::Version`. The result is named `precedes`. It goes by the
/// numbers first; a prerelease comes before its release; of two versions that differ in any part
/// one comes before the other, and never both; what comes before the lesser of two also comes
/// before the greater.
#[verifier::external_body]
fn version_lt(a: &Version, b: &Version) -> (r: bool)
    requires
        a@.valid(),
        b@.valid(),
    ensures
        r == precedes(a@, b@),
        !same_numbers(a@, b@) ==> r == numbers_precede(a@, b@),
        same_numbers(a@, b@) && a@.pre.len() == 0 && b@.pre.len() > 0 ==> !r,
        same_numbers(a@, b@) && a@.pre.len() > 0 && b@.pre.len() == 0 ==> r,
        r ==> a@ != b@ && !precedes(b@, a@),
        !r && a@ != b@ ==> precedes(b@, a@),
        r ==> forall|c: VersionView| #[trigger]
            precedes(c, a@) && c.valid() ==> precedes(c, b@) && !precedes(b@, c),
{
    let [x, y] = [a, b].map(
        |v| semver::Version {
            major: v.major,
            minor: v.minor,
            patch: v.patch,
            pre: semver::Prerelease::new(&v.pre).unwrap(),
            build: semver::BuildMetadata::new(&v.build).unwrap(),
        },
    );
    x < y
}

/// Calls `semver::VersionReq::parse` and the `Display` of what it returns. The result is named
/// `parsed_req`. That text parses again, as itself. A lone star parses as itself; an equals sign
/// before the text of a version parses, and loses the build metadata.
#[verifier::external_body]
fn parse_requirement(text: &str) -> (r: Result<String, semver::Error>)
    ensures
        r is Ok == parsed_req(text@) is Some,
        r matches Ok(t) ==> parsed_req(text@) == Some(t@) && parsed_req(t@) == Some(t@),
        text@ == star_text() ==> r is Ok && r->Ok_0@ == star_text(),
        forall|v: VersionView|
            v.valid() && text@ == seq!['='] + #[trigger] version_text(v) ==> r is Ok && r->Ok_0@
                == exact_text(v),
{
    semver::VersionReq::parse(text).map(|req| req.to_string())
}

/// Calls `semver::VersionReq::matches`. The result is named `matches_release`. A lone star admits
/// the versions without a prerelease; an exact requirement admits the versions that differ from the
/// one it names in build metadata at most.
#[verifier::external_body]
fn requirement_matches(req: &VersionReq, v: &Version) -> (r: bool)
    requires
        parsed_req(req@) == Some(req@),
        v@.valid(),
    ensures
        r == matches_release(req@, v@.major, v@.minor, v@.patch, v@.pre),
        req@ == star_text() ==> r == (v@.pre.len() == 0),
        forall|w: VersionView|
            w.valid() && req@ == #[trigger] exact_text(w) ==> r == same_release(w, v@),
{
    semver::VersionReq::parse(&req.text).unwrap().matches(
        &semver::Version {
            major: v.major,
            minor: v.minor,
            patch: v.patch,
            pre: semver::Prerelease::new(&v.pre).unwrap(),
            build: semver::BuildMetadata::new(&v.build).unwrap(),
        },
    )
}

/// A text that is no version, or no version requirement.
#[derive(Debug)]
pub struct ParseError {
    pub text: String,
}

impl Version {
    /// Reads a version.
    pub fn parse(text: &str) -> (r: Result<Version, ParseError>)
        ensures
            r matches Ok(v) ==> v@.valid() && version_text(v@) == text@,
            r matches Err(e) ==> e.text@ == text@ && forall|v: VersionView|
                v.valid() ==> #[trigger] version_text(v) != text@,
    {
        match parse_version(text) {
            Ok(v) => Ok(v),
            Err(_) => Err(ParseError { text: text.to_string() }),
        }
    }

    /// Writes a version.
    pub fn to_text(&self) -> (r: String)
        ensures
            r@ == version_text(self@),
    {
        proof {
            use_type_invariant(self);
        }
        display_version(self)
    }

    /// Whether this version comes before `other`.
    pub fn is_before(&self, other: &Version) -> (r: bool)
        ensures
            self@.valid(),
            other@.valid(),
            r == precedes(self@, other@),
            !same_numbers(self@, other@) ==> r == numbers_precede(self@, other@),
            same_numbers(self@, other@) && self@.pre.len() == 0 && other@.pre.len() > 0 ==> !r,
            same_numbers(self@, other@) && self@.pre.len() > 0 && other@.pre.len() == 0 ==> r,
            r ==> self@ != other@ && !precedes(other@, self@),
            !r && self@ != other@ ==> precedes(other@, self@),
            r ==> forall|c: VersionView| #[trigger]
                precedes(c, self@) && c.valid() ==> precedes(c, other@) && !precedes(other@, c),
    {
        proof {
            use_type_invariant(self);
            use_type_invariant(other);
        }
        version_lt(self, other)
    }
}

/// A version requirement, held as the text that `semver` gives it.
#[derive(Debug)]
pub struct VersionReq {
    text: String,
}

impl View for VersionReq {
    type V = Seq<char>;

    closed spec fn view(&self) -> Seq<char> {
        self.text@
    }
}

impl Clone for VersionReq {
    fn clone(&self) -> (r: Self)
        ensures
            r == *self,
    {
        proof {
            use_type_invariant(self);
        }
        VersionReq { text: self.text.clone() }
    }
}

impl VersionReq {
    #[verifier::type_invariant]
    closed spec fn inv(self) -> bool {
        parsed_req(self.text@) == Some(self.text@)
    }

    /// Reads a version requirement.
    pub fn parse(text: &str) -> (r: Result<VersionReq, ParseError>)
        ensures
            r is Ok == parsed_req(text@) is Some,
            r matches Ok(req) ==> parsed_req(text@) == Some(req@),
            r matches Err(e) ==> e.text@ == text@,
            text@ == star_text() ==> r is Ok && r->Ok_0@ == star_text(),
            forall|v: VersionView|
                v.valid() && text@ == seq!['='] + #[trigger] version_text(v) ==> r is Ok
                    && r->Ok_0@ == exact_text(v),
    {
        match parse_requirement(text) {
            Ok(text) => Ok(VersionReq { text }),
            Err(_) => Err(ParseError { text: text.to_string() }),
        }
    }

    /// The requirement that every version without a prerelease meets.
    pub fn star() -> (r: VersionReq)
        ensures
            r@ == star_text(),
    {
        proof {
            reveal_strlit("*");
            assert("*"@ =~= star_text());
        }
        Self::parse("*").unwrap()
    }

    /// Writes a version requirement.
    pub fn to_text(&self) -> (r: String)
        ensures
            r@ == self@,
    {
        self.text.clone()
    }

    /// Whether two requirements are written the same.
    pub fn same(&self, other: &VersionReq) -> (r: bool)
        ensures
            r == (self@ == other@),
    {
        self.text == other.text
    }

    /// Whether this requirement admits `v`.
    pub fn matches(&self, v: &Version) -> (r: bool)
        ensures
            r == satisfies(self@, v@),
            r == matches_release(self@, v@.major, v@.minor, v@.patch, v@.pre),
            self@ == star_text() ==> r == (v@.pre.len() == 0),
            forall|w: VersionView|
                w.valid() && self@ == #[trigger] exact_text(w) ==> r == same_release(w, v@),
    {
        proof {
            use_type_invariant(self);
            use_type_invariant(v);
        }
        requirement_matches(self, v)
    }
}

/// Builds an exact (`=x.y.z`) requirement from a resolved version.
pub fn exact_req(version: &Version) -> (r: VersionReq)
    ensures
        r@ == exact_text(version@),
{
    proof {
        use_type_invariant(version);
        reveal_strlit("=");
        assert("="@ =~= seq!['=']);
    }
    let text: String = String::from_str("=").concat(version.to_text().as_str());
    VersionReq::parse(text.as_str()).unwrap()
}

} // verus!
