//! Raw manifest records, as the manifest reader hands them over.
//!
//! A raw license text may hold the sentinel string `"NOT FOUND"`, which the
//! converter resolves to an explicitly absent text.

use vstd::prelude::*;

verus! {

/// One raw license entry of a library: an identifier and the license text
/// (possibly the sentinel string `"NOT FOUND"`).
pub struct License {
    pub license: String,
    pub text: String,
}

/// One third-party library of the manifest, with its detailed license entries.
pub struct Library {
    pub package_name: String,
    pub package_version: String,
    pub license: String,
    pub licenses: Vec<License>,
}

/// The whole manifest: the root project's name and its third-party libraries.
pub struct ThirdParty {
    pub root_name: String,
    pub third_party_libraries: Vec<Library>,
}

/// Mathematical model of a raw license entry.
pub ghost struct LicenseModel {
    pub license: Seq<char>,
    pub text: Seq<char>,
}

/// Mathematical model of a raw library record.
pub ghost struct LibraryModel {
    pub package_name: Seq<char>,
    pub package_version: Seq<char>,
    pub license: Seq<char>,
    pub licenses: Seq<LicenseModel>,
}

/// Mathematical model of the whole manifest.
pub ghost struct ThirdPartyModel {
    pub root_name: Seq<char>,
    pub third_party_libraries: Seq<LibraryModel>,
}

impl View for License {
    type V = LicenseModel;

    open spec fn view(&self) -> LicenseModel {
        LicenseModel { license: self.license@, text: self.text@ }
    }
}

impl View for Library {
    type V = LibraryModel;

    open spec fn view(&self) -> LibraryModel {
        LibraryModel {
            package_name: self.package_name@,
            package_version: self.package_version@,
            license: self.license@,
            licenses: self.licenses@.map_values(|l: License| l@),
        }
    }
}

impl View for ThirdParty {
    type V = ThirdPartyModel;

    open spec fn view(&self) -> ThirdPartyModel {
        ThirdPartyModel {
            root_name: self.root_name@,
            third_party_libraries: self.third_party_libraries@.map_values(|l: Library| l@),
        }
    }
}

} // verus!
