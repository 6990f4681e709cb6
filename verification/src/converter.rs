//! Normalizes raw manifest records into a `PackageCollection`: packages plus
//! a flat pool of license records, with the sentinel text `"NOT FOUND"`
//! resolved to an explicitly absent text.

use vstd::prelude::*;

use crate::manifest;
use crate::text::str_eq;

verus! {

/// A normalized license record: an identifier and, when the manifest had one,
/// the license text. The text is absent when the raw record held the sentinel
/// string `"NOT FOUND"`.
#[derive(Debug, PartialEq)]
pub struct License {
    pub license: String,
    pub text: Option<String>,
}

/// A normalized package with its detailed license records. `link` is absent
/// until an optional decoration step fills it in.
#[derive(Debug, PartialEq)]
pub struct Package {
    pub name: String,
    pub version: String,
    pub link: Option<String>,
    pub license: String,
    pub licenses: Vec<License>,
}

/// The normalized collection: packages in manifest order, plus a flat pool
/// holding one entry for every package-license association.
#[derive(Debug, PartialEq)]
pub struct PackageCollection {
    pub packages: Vec<Package>,
    pub licenses: Vec<License>,
}

/// Mathematical model of a normalized license record.
pub ghost struct LicenseModel {
    pub license: Seq<char>,
    pub text: Option<Seq<char>>,
}

/// Mathematical model of a normalized package.
pub ghost struct PackageModel {
    pub name: Seq<char>,
    pub version: Seq<char>,
    pub link: Option<Seq<char>>,
    pub license: Seq<char>,
    pub licenses: Seq<LicenseModel>,
}

/// Mathematical model of the normalized collection.
pub ghost struct PackageCollectionModel {
    pub packages: Seq<PackageModel>,
    pub licenses: Seq<LicenseModel>,
}

/// The view of an optional owned string: an optional character sequence.
pub open spec fn opt_text_view(o: Option<String>) -> Option<Seq<char>> {
    match o {
        Some(t) => Some(t@),
        None => None,
    }
}

impl View for License {
    type V = LicenseModel;

    open spec fn view(&self) -> LicenseModel {
        LicenseModel { license: self.license@, text: opt_text_view(self.text) }
    }
}

/// The views of a sequence of license records.
pub open spec fn license_views(ls: Seq<License>) -> Seq<LicenseModel> {
    ls.map_values(|l: License| l@)
}

impl View for Package {
    type V = PackageModel;

    open spec fn view(&self) -> PackageModel {
        PackageModel {
            name: self.name@,
            version: self.version@,
            link: opt_text_view(self.link),
            license: self.license@,
            licenses: license_views(self.licenses@),
        }
    }
}

/// The views of a sequence of packages.
pub open spec fn package_views(ps: Seq<Package>) -> Seq<PackageModel> {
    ps.map_values(|p: Package| p@)
}

impl View for PackageCollection {
    type V = PackageCollectionModel;

    open spec fn view(&self) -> PackageCollectionModel {
        PackageCollectionModel {
            packages: package_views(self.packages@),
            licenses: license_views(self.licenses@),
        }
    }
}

impl Clone for License {
    /// Cloning a license record keeps its identifier and text.
    fn clone(&self) -> (r: Self)
        ensures
            r@ == self@,
    {
        License {
            license: self.license.clone(),
            text: match &self.text {
                Some(t) => Some(t.clone()),
                None => None,
            },
        }
    }
}

// ---------------------------------------------------------------------------
// Normalization
// ---------------------------------------------------------------------------

/// What resolving a raw license text yields: absent for the sentinel
/// `"NOT FOUND"`, the text itself verbatim otherwise.
pub open spec fn resolved_text_of(t: Seq<char>) -> Option<Seq<char>> {
    if t == "NOT FOUND"@ {
        None
    } else {
        Some(t)
    }
}

/// The normalized record a raw license entry maps to.
pub open spec fn license_record_of(l: manifest::LicenseModel) -> LicenseModel {
    LicenseModel { license: l.license, text: resolved_text_of(l.text) }
}

/// The normalized records of a sequence of raw license entries.
pub open spec fn record_views_of(raws: Seq<manifest::LicenseModel>) -> Seq<LicenseModel> {
    raws.map_values(|r: manifest::LicenseModel| license_record_of(r))
}

/// The normalized package a raw library record maps to; its `link` starts
/// absent.
pub open spec fn package_of(l: manifest::LibraryModel) -> PackageModel {
    PackageModel {
        name: l.package_name,
        version: l.package_version,
        link: None,
        license: l.license,
        licenses: record_views_of(l.licenses),
    }
}

/// The flat license pool of a manifest: every library's normalized license
/// records, in manifest order, duplicates kept.
pub open spec fn pool_of(libs: Seq<manifest::LibraryModel>) -> Seq<LicenseModel>
    decreases libs.len(),
{
    if libs.len() == 0 {
        Seq::empty()
    } else {
        pool_of(libs.drop_last()) + record_views_of(libs.last().licenses)
    }
}

/// The normalized packages of a sequence of raw library records.
pub open spec fn normalized_packages_of(libs: Seq<manifest::LibraryModel>) -> Seq<PackageModel> {
    libs.map_values(|l: manifest::LibraryModel| package_of(l))
}

/// Resolve a raw license text: the sentinel `"NOT FOUND"` becomes an absent
/// text, anything else is kept verbatim.
pub fn resolve_license_text(license_text: &String) -> (r: Option<String>)
    ensures
        opt_text_view(r) == resolved_text_of(license_text@),
{
    if str_eq(license_text.as_str(), "NOT FOUND") {
        None
    } else {
        Some(license_text.clone())
    }
}


// ---------------------------------------------------------------------------
// Helper lemmas about the mapped sequences
// ---------------------------------------------------------------------------

/// Pushing a license record commutes with taking views.
proof fn lemma_license_views_push(s: Seq<License>, x: License)
    ensures
        license_views(s.push(x)) == license_views(s).push(x@),
{
    assert forall|k: int| 0 <= k < s.push(x).len() implies #[trigger] license_views(s.push(x))[k]
        == license_views(s).push(x@)[k] by {
        if k < s.len() {
            assert(license_views(s)[k] == s[k]@);
        }
    }
    assert(license_views(s.push(x)) =~= license_views(s).push(x@));
}

/// Pushing a package commutes with taking views.
proof fn lemma_package_views_push(s: Seq<Package>, x: Package)
    ensures
        package_views(s.push(x)) == package_views(s).push(x@),
{
    assert forall|k: int| 0 <= k < s.push(x).len() implies #[trigger] package_views(s.push(x))[k]
        == package_views(s).push(x@)[k] by {
        if k < s.len() {
            assert(package_views(s)[k] == s[k]@);
        }
    }
    assert(package_views(s.push(x)) =~= package_views(s).push(x@));
}

/// Extending a prefix of raw license entries by one extends its normalized
/// records by the record of the new entry.
proof fn lemma_record_views_extend(raws: Seq<manifest::LicenseModel>, j: int)
    requires
        0 <= j < raws.len(),
    ensures
        record_views_of(raws.subrange(0, j + 1)) == record_views_of(raws.subrange(0, j)).push(
            license_record_of(raws[j]),
        ),
{
    let a = raws.subrange(0, j + 1);
    let b = raws.subrange(0, j);
    assert forall|k: int| 0 <= k < a.len() implies #[trigger] record_views_of(a)[k]
        == record_views_of(b).push(license_record_of(raws[j]))[k] by {
        if k < j {
            assert(record_views_of(b)[k] == license_record_of(b[k]));
        }
    }
    assert(record_views_of(a) =~= record_views_of(b).push(license_record_of(raws[j])));
}

/// Extending a prefix of libraries by one extends its normalized packages by
/// the package of the new library.
proof fn lemma_normalized_packages_extend(libs: Seq<manifest::LibraryModel>, i: int)
    requires
        0 <= i < libs.len(),
    ensures
        normalized_packages_of(libs.subrange(0, i + 1)) == normalized_packages_of(
            libs.subrange(0, i),
        ).push(package_of(libs[i])),
{
    let a = libs.subrange(0, i + 1);
    let b = libs.subrange(0, i);
    assert forall|k: int| 0 <= k < a.len() implies #[trigger] normalized_packages_of(a)[k]
        == normalized_packages_of(b).push(package_of(libs[i]))[k] by {
        if k < i {
            assert(normalized_packages_of(b)[k] == package_of(b[k]));
        }
    }
    assert(normalized_packages_of(a) =~= normalized_packages_of(b).push(package_of(libs[i])));
}

/// Extending a prefix of libraries by one appends that library's normalized
/// records to the pool.
proof fn lemma_pool_extend(libs: Seq<manifest::LibraryModel>, i: int)
    requires
        0 <= i < libs.len(),
    ensures
        pool_of(libs.subrange(0, i + 1)) == pool_of(libs.subrange(0, i)) + record_views_of(
            libs[i].licenses,
        ),
{
    let a = libs.subrange(0, i + 1);
    assert(a.drop_last() =~= libs.subrange(0, i));
    assert(a.last() == libs[i]);
}

impl PackageCollection {
    /// Normalize a raw manifest: one package per library in manifest order,
    /// each raw license entry resolved and appended both to its package and
    /// to the flat pool.
    pub fn from_third_party(third_party: &manifest::ThirdParty) -> (r: PackageCollection)
        ensures
            r@.packages == normalized_packages_of(third_party@.third_party_libraries),
            r@.licenses == pool_of(third_party@.third_party_libraries),
    {
        let ghost libsm = third_party@.third_party_libraries;
        let mut packages: Vec<Package> = Vec::new();
        let mut licenses: Vec<License> = Vec::new();

        let n = third_party.third_party_libraries.len();
        let mut i: usize = 0;
        while i < n
            invariant
                i <= n,
                n == third_party.third_party_libraries@.len(),
                libsm == third_party@.third_party_libraries,
                libsm.len() == n,
                package_views(packages@) == normalized_packages_of(libsm.subrange(0, i as int)),
                license_views(licenses@) == pool_of(libsm.subrange(0, i as int)),
            decreases n - i,
        {
            let library = &third_party.third_party_libraries[i];
            let ghost licsm = library@.licenses;
            let mut package_licenses: Vec<License> = Vec::new();

            let m = library.licenses.len();
            let mut j: usize = 0;
            while j < m
                invariant
                    j <= m,
                    m == library.licenses@.len(),
                    licsm == library@.licenses,
                    licsm.len() == m,
                    license_views(package_licenses@) == record_views_of(licsm.subrange(0, j as int)),
                    license_views(licenses@) == pool_of(libsm.subrange(0, i as int))
                        + record_views_of(licsm.subrange(0, j as int)),
                decreases m - j,
            {
                let lic = &library.licenses[j];
                let record = License {
                    license: lic.license.clone(),
                    text: resolve_license_text(&lic.text),
                };
                let record_shared = record.clone();
                let ghost recordm = record@;
                let ghost plm0 = package_licenses@;
                let ghost poolm0 = licenses@;
                proof {
                    lemma_license_views_push(plm0, record);
                    lemma_license_views_push(poolm0, record_shared);
                    lemma_record_views_extend(licsm, j as int);
                    assert(licsm[j as int] == lic@);
                    assert(recordm == license_record_of(licsm[j as int]));
                }
                package_licenses.push(record);
                licenses.push(record_shared);
                proof {
                    assert(license_views(package_licenses@) == record_views_of(
                        licsm.subrange(0, j + 1),
                    ));
                    assert(license_views(licenses@) == license_views(poolm0).push(recordm));
                    assert((pool_of(libsm.subrange(0, i as int)) + record_views_of(
                        licsm.subrange(0, j as int),
                    )).push(recordm) =~= pool_of(libsm.subrange(0, i as int)) + record_views_of(
                        licsm.subrange(0, j as int),
                    ).push(recordm));
                    assert(license_views(licenses@) == pool_of(libsm.subrange(0, i as int))
                        + record_views_of(licsm.subrange(0, j + 1)));
                }
                j = j + 1;
            }

            let package = Package {
                name: library.package_name.clone(),
                version: library.package_version.clone(),
                link: None,
                license: library.license.clone(),
                licenses: package_licenses,
            };
            let ghost packagem = package@;
            let ghost psm0 = packages@;
            proof {
                lemma_package_views_push(psm0, package);
                lemma_normalized_packages_extend(libsm, i as int);
                lemma_pool_extend(libsm, i as int);
                assert(licsm.subrange(0, m as int) =~= licsm);
                assert(libsm[i as int] == library@);
                assert(packagem == package_of(libsm[i as int]));
            }
            packages.push(package);
            proof {
                assert(package_views(packages@) == normalized_packages_of(
                    libsm.subrange(0, i + 1),
                ));
                assert(license_views(licenses@) == pool_of(libsm.subrange(0, i + 1)));
            }
            i = i + 1;
        }

        proof {
            assert(libsm.subrange(0, n as int) =~= libsm);
        }
        PackageCollection { packages, licenses }
    }

    /// Whether at least one license record of some package has an absent
    /// text.
    pub fn has_missing_license_texts(&self) -> (r: bool)
        ensures
            r == collection_has_missing(self@),
    {
        let n = self.packages.len();
        let mut i: usize = 0;
        while i < n
            invariant
                i <= n,
                n == self.packages@.len(),
                forall|a: int, b: int|
                    0 <= a < i && 0 <= b < self@.packages[a].licenses.len()
                        ==> self@.packages[a].licenses[b].text is Some,
            decreases n - i,
        {
            let package = &self.packages[i];
            let m = package.licenses.len();
            let mut j: usize = 0;
            while j < m
                invariant
                    j <= m,
                    m == package.licenses@.len(),
                    package@ == self@.packages[i as int],
                    i < self.packages@.len(),
                    forall|b: int| 0 <= b < j ==> self@.packages[i as int].licenses[b].text is Some,
                decreases m - j,
            {
                if package.licenses[j].text.is_none() {
                    proof {
                        assert(self@.packages[i as int].licenses[j as int].text is None);
                    }
                    return true;
                }
                j = j + 1;
            }
            i = i + 1;
        }
        false
    }
}

/// Whether some package of the collection has a license record with an
/// absent text.
pub open spec fn collection_has_missing(c: PackageCollectionModel) -> bool {
    exists|i: int, j: int|
        0 <= i < c.packages.len() && 0 <= j < c.packages[i].licenses.len()
            && c.packages[i].licenses[j].text is None
}

// ---------------------------------------------------------------------------
// Registry-link decoration
// ---------------------------------------------------------------------------

/// The registry page a package's name and version point at.
pub open spec fn crate_link_of(name: Seq<char>, version: Seq<char>) -> Seq<char> {
    "https://crates.io/crates/"@ + name + "/"@ + version + "/"@
}

/// Fill a package's `link` with its registry page; every other field stays
/// unchanged.
pub fn decorate_with_crate_link(p: &mut Package)
    ensures
        final(p)@ == (PackageModel { link: Some(crate_link_of(old(p)@.name, old(p)@.version)), ..old(p)@ }),
{
    let mut link = String::new();
    link.append("https://crates.io/crates/");
    link.append(p.name.as_str());
    link.append("/");
    link.append(p.version.as_str());
    link.append("/");
    p.link = Some(link);
}

// ---------------------------------------------------------------------------
// The flat-pool law
// ---------------------------------------------------------------------------

/// The total count of raw license entries across all libraries.
pub open spec fn total_license_count(libs: Seq<manifest::LibraryModel>) -> nat
    decreases libs.len(),
{
    if libs.len() == 0 {
        0
    } else {
        total_license_count(libs.drop_last()) + libs.last().licenses.len()
    }
}

/// The total count of license records across a sequence of packages.
pub open spec fn package_license_count(ps: Seq<PackageModel>) -> nat
    decreases ps.len(),
{
    if ps.len() == 0 {
        0
    } else {
        package_license_count(ps.drop_last()) + ps.last().licenses.len()
    }
}

/// The license pool is flat: normalizing any manifest yields one pool entry
/// per package-license association, so the pool's length equals the total
/// count of per-package license entries.
pub proof fn lemma_pool_is_flat(libs: Seq<manifest::LibraryModel>)
    ensures
        pool_of(libs).len() == total_license_count(libs),
        pool_of(libs).len() == package_license_count(normalized_packages_of(libs)),
    decreases libs.len(),
{
    let ps = normalized_packages_of(libs);
    if libs.len() == 0 {
        assert(ps.len() == 0);
    } else {
        lemma_pool_is_flat(libs.drop_last());
        assert(ps.drop_last() =~= normalized_packages_of(libs.drop_last()));
        assert(ps.last() == package_of(libs.last()));
        assert(ps.last().licenses.len() == libs.last().licenses.len());
    }
}

} // verus!
