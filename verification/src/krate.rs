//! The record kept for each crate of the graph, built from what
//! `cargo metadata` reports of a package, and the order crates sort in.

use std::collections::HashMap;
use std::path::PathBuf;
use krates::cm;
use core::cmp::Ordering;
use vstd::prelude::*;
use crate::sort::Named;
use crate::sort::is_stable_name_sort;
use crate::sort::sort_by_name;
use crate::text::text_lt;
use crate::text::str_lt;
use crate::text::spdx_license;
use crate::text::normalize_license;
use crate::text::lemma_text_lt_irreflexive;
use crate::text::lemma_text_lt_asymmetric;
use crate::text::lemma_text_lt_transitive;
use crate::text::lemma_text_lt_total;
use vstd::laws_eq::obeys_eq_spec_properties;
use vstd::laws_cmp::obeys_partial_cmp_spec_properties;
use vstd::std_specs::cmp::PartialEqSpec;
use vstd::std_specs::cmp::PartialOrdSpec;

verus! {

#[verifier::external_type_specification]
#[verifier::external_body]
pub struct ExVersion(semver::Version);

#[verifier::external_type_specification]
#[verifier::external_body]
pub struct ExSource(cm::Source);

#[verifier::external_type_specification]
#[verifier::external_body]
pub struct ExDependency(cm::Dependency);

#[verifier::external_type_specification]
#[verifier::external_body]
pub struct ExTarget(cm::Target);

#[verifier::external_type_specification]
#[verifier::external_body]
pub struct ExPathBuf(PathBuf);

/// A crate's unique identifier, in the form `cargo metadata` gives it.
#[derive(Clone, Debug, PartialEq, Eq, PartialOrd, Ord, Hash)]
pub struct Kid {
    pub repr: String,
}

/// A crate of the graph.
#[derive(Debug)]
pub struct Krate {
    pub name: String,
    pub id: Kid,
    pub version: semver::Version,
    pub source: Option<cm::Source>,
    pub authors: Vec<String>,
    pub repository: Option<String>,
    pub description: Option<String>,
    pub manifest_path: PathBuf,
    pub license: Option<String>,
    pub license_file: Option<PathBuf>,
    pub deps: Vec<cm::Dependency>,
    pub features: HashMap<String, Vec<String>>,
    pub targets: Vec<cm::Target>,
}

/// What `cargo metadata` reports of a package, as far as a `Krate` is made
/// of it; each dependency comes with the name it was declared under.
pub struct PackageInfo {
    pub name: String,
    pub id: Kid,
    pub version: semver::Version,
    pub authors: Vec<String>,
    pub repository: Option<String>,
    pub source: Option<cm::Source>,
    pub targets: Vec<cm::Target>,
    pub license: Option<String>,
    pub license_file: Option<PathBuf>,
    pub description: Option<String>,
    pub manifest_path: PathBuf,
    pub dependencies: Vec<Named<cm::Dependency>>,
    pub features: HashMap<String, Vec<String>>,
}

/// `out` is the license field `input` becomes: absent stays absent, and a
/// present expression is put into SPDX form.
pub open spec fn license_in_spdx_form(input: Option<String>, out: Option<String>) -> bool {
    match input {
        None => out is None,
        Some(l) => out matches Some(o) && o@ == spdx_license(l@),
    }
}

/// `out` holds the items of `input`, stably sorted by their names.
pub open spec fn in_name_order<D>(input: Seq<Named<D>>, out: Seq<D>) -> bool {
    exists|s: Seq<Named<D>>|
        is_stable_name_sort(input, s) && out == s.map_values(|e: Named<D>| e.value)
}

/// Drops the names, keeping the items in order.
fn values_of<D>(named: Vec<Named<D>>) -> (out: Vec<D>)
    ensures
        out@ == named@.map_values(|e: Named<D>| e.value),
{
    let ghost all = named@;
    let n = named.len();
    let mut rest = named;
    let mut out: Vec<D> = Vec::new();
    let mut k: usize = 0;
    while k < n
        invariant
            n == all.len(),
            k <= n,
            rest@ == all.subrange(k as int, n as int),
            out@ == all.subrange(0, k as int).map_values(|e: Named<D>| e.value),
        decreases n - k,
    {
        let e = rest.remove(0);
        out.push(e.value);
        proof {
            assert(all.subrange(0, k + 1) =~= all.subrange(0, k as int).push(all[k as int]));
            assert(rest@ =~= all.subrange(k + 1, n as int));
        }
        k = k + 1;
    }
    proof {
        assert(all.subrange(0, n as int) =~= all);
    }
    out
}

impl Krate {
    /// Makes the record of a package. The license is put into SPDX form
    /// (cargo used to allow `/` in place of `OR`), the dependencies are
    /// sorted by name, keeping the order of those with equal names, and
    /// every other field is taken over as it is.
    pub fn from_package(pkg: PackageInfo) -> (k: Krate)
        ensures
            k.name == pkg.name,
            k.id == pkg.id,
            k.version == pkg.version,
            k.authors == pkg.authors,
            k.repository == pkg.repository,
            k.source == pkg.source,
            k.targets == pkg.targets,
            license_in_spdx_form(pkg.license, k.license),
            k.license_file == pkg.license_file,
            k.description == pkg.description,
            k.manifest_path == pkg.manifest_path,
            in_name_order(pkg.dependencies@, k.deps@),
            k.features == pkg.features,
    {
        let PackageInfo {
            name,
            id,
            version,
            authors,
            repository,
            source,
            targets,
            license,
            license_file,
            description,
            manifest_path,
            dependencies,
            features,
        } = pkg;
        let license = match license {
            Some(lf) => Some(normalize_license(lf)),
            None => None,
        };
        let sorted = sort_by_name(dependencies);
        let deps = values_of(sorted);
        Krate {
            name,
            id,
            version,
            authors,
            repository,
            source,
            targets,
            license,
            license_file,
            description,
            manifest_path,
            deps,
            features,
        }
    }
}

/// Where `a` sorts relative to `b`.
pub open spec fn text_order(a: Seq<char>, b: Seq<char>) -> Ordering {
    if text_lt(a, b) {
        Ordering::Less
    } else if a == b {
        Ordering::Equal
    } else {
        Ordering::Greater
    }
}

/// Where `a` sorts relative to `b`: lexicographically by character.
pub fn text_order_of(a: &String, b: &String) -> (o: Ordering)
    ensures
        o == text_order(a@, b@),
        (o == Ordering::Less) == text_lt(a@, b@),
        (o == Ordering::Equal) == (a@ == b@),
        (o == Ordering::Greater) == text_lt(b@, a@),
{
    proof {
        lemma_text_lt_irreflexive(a@);
        lemma_text_lt_asymmetric(a@, b@);
        if a@ != b@ {
            lemma_text_lt_total(a@, b@);
        }
    }
    if str_lt(a.as_str(), b.as_str()) {
        Ordering::Less
    } else if *a == *b {
        Ordering::Equal
    } else {
        Ordering::Greater
    }
}

impl PartialEq for Krate {
    /// Crates are the same crate when their identifiers are.
    fn eq(&self, other: &Self) -> (r: bool) {
        self.id.repr == other.id.repr
    }
}

impl vstd::std_specs::cmp::PartialEqSpecImpl for Krate {
    open spec fn obeys_eq_spec() -> bool {
        true
    }

    open spec fn eq_spec(&self, other: &Self) -> bool {
        self.id.repr@ == other.id.repr@
    }
}

impl Eq for Krate {

}

impl PartialOrd for Krate {
    /// Crates sort by their identifiers.
    fn partial_cmp(&self, other: &Self) -> (r: Option<Ordering>) {
        Some(text_order_of(&self.id.repr, &other.id.repr))
    }
}

impl vstd::std_specs::cmp::PartialOrdSpecImpl for Krate {
    open spec fn obeys_partial_cmp_spec() -> bool {
        true
    }

    open spec fn partial_cmp_spec(&self, other: &Self) -> Option<Ordering> {
        Some(text_order(self.id.repr@, other.id.repr@))
    }
}

/// Crates compare as a total order: `==` is an equivalence, `partial_cmp`
/// always answers, answers `Equal` exactly when `==` holds, answers `Less`
/// one way exactly when it answers `Greater` the other way, and `Less` and
/// `Greater` are each transitive.
pub proof fn lemma_krate_order_is_total()
    ensures
        obeys_eq_spec_properties::<Krate>(),
        obeys_partial_cmp_spec_properties::<Krate>(),
        forall|a: Krate, b: Krate| (#[trigger] a.partial_cmp_spec(&b)) is Some,
{
    reveal(obeys_eq_spec_properties);
    reveal(obeys_partial_cmp_spec_properties);
    assert forall|x: Krate, y: Krate| #[trigger]
        x.partial_cmp_spec(&y) == Some(Ordering::Equal) <==> x.eq_spec(&y) by {
        lemma_text_lt_irreflexive(x.id.repr@);
    }
    assert forall|x: Krate, y: Krate| #[trigger]
        x.partial_cmp_spec(&y) == Some(Ordering::Less) <==> y.partial_cmp_spec(&x) == Some(
            Ordering::Greater,
        ) by {
        let a = x.id.repr@;
        let b = y.id.repr@;
        lemma_text_lt_asymmetric(a, b);
        lemma_text_lt_asymmetric(b, a);
        lemma_text_lt_irreflexive(a);
        if a != b {
            lemma_text_lt_total(a, b);
        }
    }
    assert forall|x: Krate, y: Krate, z: Krate|
        x.partial_cmp_spec(&y) == Some(Ordering::Less) && #[trigger] y.partial_cmp_spec(&z) == Some(
            Ordering::Less,
        ) implies #[trigger] x.partial_cmp_spec(&z) == Some(Ordering::Less) by {
        lemma_text_lt_transitive(x.id.repr@, y.id.repr@, z.id.repr@);
    }
    assert forall|x: Krate, y: Krate, z: Krate|
        x.partial_cmp_spec(&y) == Some(Ordering::Greater) && #[trigger] y.partial_cmp_spec(&z)
            == Some(Ordering::Greater) implies #[trigger] x.partial_cmp_spec(&z) == Some(
            Ordering::Greater,
        ) by {
        let a = x.id.repr@;
        let b = y.id.repr@;
        let c = z.id.repr@;
        lemma_text_lt_total(a, b);
        lemma_text_lt_total(b, c);
        lemma_text_lt_transitive(c, b, a);
        lemma_text_lt_asymmetric(c, a);
        lemma_text_lt_irreflexive(a);
    }
}

/// The version `major.minor.patch`, with no pre-release or build parts.
pub uninterp spec fn version_value(major: u64, minor: u64, patch: u64) -> semver::Version;

/// The path spelled by the characters `s`.
pub uninterp spec fn path_value(s: Seq<char>) -> PathBuf;

/// `semver::Version::new`: builds the version `major.minor.patch` with no
/// pre-release or build parts from its three numbers alone. The contract
/// names the result as a function of those numbers.
#[verifier::external_body]
fn semver_version(major: u64, minor: u64, patch: u64) -> (v: semver::Version)
    ensures
        v == version_value(major, minor, patch),
{
    semver::Version::new(major, minor, patch)
}

/// `PathBuf::from` on a `&str`: the path that copies the characters of
/// `s`; the empty string gives the empty path, as `PathBuf::new` does. The
/// contract names the result as a function of the characters.
#[verifier::external_body]
fn path_from(s: &str) -> (p: PathBuf)
    ensures
        p == path_value(s@),
{
    PathBuf::from(s)
}

impl Default for Krate {
    /// A placeholder crate: empty name and identifier, version 0.1.0, and
    /// nothing else.
    fn default() -> (k: Self)
        ensures
            k.name@ == Seq::<char>::empty(),
            k.id.repr@ == Seq::<char>::empty(),
            k.authors@ == Seq::<String>::empty(),
            k.source is None,
            k.description is None,
            k.deps@ == Seq::<cm::Dependency>::empty(),
            k.license is None,
            k.license_file is None,
            k.targets@ == Seq::<cm::Target>::empty(),
            k.features@ == Map::<String, Vec<String>>::empty(),
            k.repository is None,
            k.version == version_value(0, 1, 0),
            k.manifest_path == path_value(Seq::<char>::empty()),
    {
        let nothing = "";
        proof {
            reveal_strlit("");
            assert(nothing@ =~= Seq::<char>::empty());
        }
        Krate {
            name: String::new(),
            version: semver_version(0, 1, 0),
            authors: Vec::new(),
            id: Kid { repr: String::new() },
            source: None,
            description: None,
            deps: Vec::new(),
            license: None,
            license_file: None,
            targets: Vec::new(),
            features: HashMap::new(),
            manifest_path: path_from(nothing),
            repository: None,
        }
    }
}

/// Crates are the same crate exactly when their whole identifiers are
/// equal, and they sort in the character order of their whole identifiers:
/// one crate sorts before another exactly when its identifier sorts before
/// the other's, after it exactly when the other's sorts before its own.
pub proof fn lemma_krate_order_by_id(x: Krate, y: Krate)
    ensures
        x.eq_spec(&y) == (x.id.repr@ == y.id.repr@),
        (x.partial_cmp_spec(&y) == Some(Ordering::Less)) == text_lt(x.id.repr@, y.id.repr@),
        (x.partial_cmp_spec(&y) == Some(Ordering::Equal)) == (x.id.repr@ == y.id.repr@),
        (x.partial_cmp_spec(&y) == Some(Ordering::Greater)) == text_lt(y.id.repr@, x.id.repr@),
{
    let a = x.id.repr@;
    let b = y.id.repr@;
    lemma_text_lt_irreflexive(a);
    lemma_text_lt_asymmetric(a, b);
    if a != b {
        lemma_text_lt_total(a, b);
    }
}

} // verus!
