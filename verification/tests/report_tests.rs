//! Tests of the normalizer and the markdown renderer: the normalization of a
//! small manifest, anchor derivation, the copyright heuristic, and the two
//! rendering operations.

use license_md::converter::{License, Package, PackageCollection};
use license_md::manifest;
use license_md::md_writer::{MdConfig, MdWriter};
use license_md::text::{expand_escapes, slugify, split_lines, str_eq, trim};

fn third_party_data() -> manifest::ThirdParty {
    manifest::ThirdParty {
        root_name: "my-project".to_owned(),
        third_party_libraries: vec![
            manifest::Library {
                package_name: "my_dependency".to_owned(),
                package_version: "0.1.1".to_owned(),
                license: "MIT".to_owned(),
                licenses: vec![
                    manifest::License {
                        license: "MIT".to_owned(),
                        text: "Lots of text...".to_owned(),
                    },
                    manifest::License {
                        license: "Apache-2.0".to_owned(),
                        text: "Lots of text 2...".to_owned(),
                    },
                ],
            },
            manifest::Library {
                package_name: "my_other_dependency".to_owned(),
                package_version: "1.0.0".to_owned(),
                license: "Apache-2.0".to_owned(),
                licenses: vec![manifest::License {
                    license: "Apache-2.0".to_owned(),
                    text: "Lots of text 2...".to_owned(),
                }],
            },
        ],
    }
}

fn package_collection_data() -> PackageCollection {
    PackageCollection {
        packages: vec![
            Package {
                name: "my_dependency".to_owned(),
                version: "0.1.1".to_owned(),
                license: "MIT".to_owned(),
                link: None,
                licenses: vec![
                    License {
                        license: "MIT".to_owned(),
                        text: Some("Lots of text...".to_owned()),
                    },
                    License {
                        license: "Apache-2.0".to_owned(),
                        text: Some("Lots of text 2...".to_owned()),
                    },
                ],
            },
            Package {
                name: "my_other_dependency".to_owned(),
                version: "1.0.0".to_owned(),
                license: "Apache-2.0".to_owned(),
                link: None,
                licenses: vec![License {
                    license: "Apache-2.0".to_owned(),
                    text: Some("Lots of text 2...".to_owned()),
                }],
            },
        ],
        licenses: vec![
            License {
                license: "MIT".to_owned(),
                text: Some("Lots of text...".to_owned()),
            },
            License {
                license: "Apache-2.0".to_owned(),
                text: Some("Lots of text 2...".to_owned()),
            },
            License {
                license: "Apache-2.0".to_owned(),
                text: Some("Lots of text 2...".to_owned()),
            },
        ],
    }
}

fn default_config() -> MdConfig {
    MdConfig {
        join_similar_licenses: false,
        fail_on_missing_licenses: false,
    }
}

#[test]
fn test_from_third_party() {
    let input = third_party_data();
    let output = PackageCollection::from_third_party(&input);
    assert_eq!(output, package_collection_data(),);
}

#[test]
fn test_create_toc() {
    let input = package_collection_data();
    let writer = MdWriter::new(
        &input,
        MdConfig {
            join_similar_licenses: false,
            fail_on_missing_licenses: false,
        },
    );
    let toc = writer.create_toc();
    assert_eq!(
        toc,
        "| Library Name | License | Authors |\n|-|-|-|\n| my_dependency | [MIT](#MIT-my_dependency)/[Apache-2.0](#Apache-20-my_dependency) |  |\n| my_other_dependency | [Apache-2.0](#Apache-20-my_other_dependency) |  |\n"
    );
}

#[test]
fn pool_length_is_sum_of_package_license_counts() {
    let input = third_party_data();
    let output = PackageCollection::from_third_party(&input);
    let total: usize = output.packages.iter().map(|p| p.licenses.len()).sum();
    assert_eq!(output.licenses.len(), total);
    assert_eq!(output.licenses.len(), 3);
}

#[test]
fn sentinel_text_resolves_to_absent() {
    assert_eq!(
        license_md::converter::resolve_license_text(&"NOT FOUND".to_owned()),
        None
    );
    assert_eq!(
        license_md::converter::resolve_license_text(&"some text".to_owned()),
        Some("some text".to_owned())
    );
}

#[test]
fn has_missing_license_texts_iff_some_text_absent() {
    let complete = package_collection_data();
    assert!(!complete.has_missing_license_texts());

    let mut with_missing = package_collection_data();
    with_missing.packages[1].licenses[0].text = None;
    assert!(with_missing.has_missing_license_texts());
}

#[test]
fn normalize_resolves_sentinel_to_absent_text() {
    let input = manifest::ThirdParty {
        root_name: "r".to_owned(),
        third_party_libraries: vec![manifest::Library {
            package_name: "p".to_owned(),
            package_version: "1.0.0".to_owned(),
            license: "MIT".to_owned(),
            licenses: vec![manifest::License {
                license: "MIT".to_owned(),
                text: "NOT FOUND".to_owned(),
            }],
        }],
    };
    let output = PackageCollection::from_third_party(&input);
    assert_eq!(output.packages[0].licenses[0].text, None);
    assert_eq!(output.licenses[0].text, None);
    assert!(output.has_missing_license_texts());
}

#[test]
fn anchor_fragments_are_derived_and_idempotent() {
    assert_eq!(slugify("MIT (my_dependency)"), "MIT-my_dependency");
    assert_eq!(
        slugify("Apache-2.0 (my_dependency)"),
        "Apache-20-my_dependency"
    );
    // already slugified input is a fixed point
    assert_eq!(slugify("MIT-my_dependency"), "MIT-my_dependency");
    assert_eq!(slugify("Apache-20-my_dependency"), "Apache-20-my_dependency");
    // determinism
    assert_eq!(slugify("MIT (my_dependency)"), slugify("MIT (my_dependency)"));
}

#[test]
fn decorate_with_crate_link_sets_registry_url() {
    let mut package = Package {
        name: "my_dependency".to_owned(),
        version: "0.1.1".to_owned(),
        license: "MIT".to_owned(),
        link: None,
        licenses: vec![],
    };
    license_md::converter::decorate_with_crate_link(&mut package);
    assert_eq!(
        package.link,
        Some("https://crates.io/crates/my_dependency/0.1.1/".to_owned())
    );
    assert_eq!(package.name, "my_dependency");
    assert_eq!(package.version, "0.1.1");
}

fn single_package(licenses: Vec<License>) -> PackageCollection {
    PackageCollection {
        packages: vec![Package {
            name: "pkg".to_owned(),
            version: "1.0.0".to_owned(),
            license: "MIT".to_owned(),
            link: None,
            licenses: licenses.clone(),
        }],
        licenses,
    }
}

fn toc_of(collection: &PackageCollection) -> String {
    MdWriter::new(collection, default_config()).create_toc()
}

#[test]
fn copyright_note_from_single_mit_with_one_matching_line() {
    let collection = single_package(vec![License {
        license: "MIT".to_owned(),
        text: Some("The MIT License\n  Copyright (c) 2024 Jane Doe  \nPermission is granted".to_owned()),
    }]);
    let toc = toc_of(&collection);
    assert!(toc.contains("| Copyright (c) 2024 Jane Doe |"));
}

#[test]
fn no_copyright_note_for_two_mit_licenses() {
    let collection = single_package(vec![
        License {
            license: "MIT".to_owned(),
            text: Some("Copyright (c) 2024 Jane Doe".to_owned()),
        },
        License {
            license: "MIT".to_owned(),
            text: Some("Copyright (c) 2024 John Doe".to_owned()),
        },
    ]);
    let toc = toc_of(&collection);
    assert!(toc.ends_with(" |  |\n"));
}

#[test]
fn no_copyright_note_without_matching_line() {
    let collection = single_package(vec![License {
        license: "MIT".to_owned(),
        text: Some("The MIT License\nPermission is granted".to_owned()),
    }]);
    let toc = toc_of(&collection);
    assert!(toc.ends_with(" |  |\n"));
}

#[test]
fn no_copyright_note_for_two_matching_lines() {
    let collection = single_package(vec![License {
        license: "MIT".to_owned(),
        text: Some("Copyright (c) 2024 Jane Doe\nCopyright (c) 2024 John Doe".to_owned()),
    }]);
    let toc = toc_of(&collection);
    assert!(toc.ends_with(" |  |\n"));
}

#[test]
fn no_copyright_note_for_absent_mit_text() {
    let collection = single_package(vec![License {
        license: "MIT".to_owned(),
        text: None,
    }]);
    let toc = toc_of(&collection);
    assert!(toc.ends_with(" |  |\n"));
}

#[test]
fn no_copyright_note_for_non_mit_license() {
    let collection = single_package(vec![License {
        license: "Apache-2.0".to_owned(),
        text: Some("Copyright (c) 2024 Jane Doe".to_owned()),
    }]);
    let toc = toc_of(&collection);
    assert!(toc.ends_with(" |  |\n"));
}

#[test]
fn package_with_link_renders_as_markdown_link() {
    let mut collection = package_collection_data();
    license_md::converter::decorate_with_crate_link(&mut collection.packages[0]);
    let toc = toc_of(&collection);
    assert!(toc.contains(
        "| [my_dependency](https://crates.io/crates/my_dependency/0.1.1/) |"
    ));
}

#[test]
fn package_without_licenses_renders_empty_cell() {
    let collection = single_package(vec![]);
    let toc = toc_of(&collection);
    assert_eq!(
        toc,
        "| Library Name | License | Authors |\n|-|-|-|\n| pkg |  |  |\n"
    );
}

#[test]
fn rendering_twice_is_byte_identical() {
    let input = package_collection_data();
    let writer = MdWriter::new(&input, default_config());
    assert_eq!(writer.create_toc(), writer.create_toc());
    assert_eq!(
        writer.create_license_texts_list(),
        writer.create_license_texts_list()
    );
    let writer2 = MdWriter::new(&input, default_config());
    assert_eq!(writer.create_toc(), writer2.create_toc());
    assert_eq!(
        writer.create_license_texts_list(),
        writer2.create_license_texts_list()
    );
}

#[test]
fn catalog_lists_each_package_license_pair() {
    let input = package_collection_data();
    let writer = MdWriter::new(&input, default_config());
    let catalog = writer.create_license_texts_list();
    assert_eq!(
        catalog,
        "# Licenses of Third-Party Libraries\n\
         \n## MIT (my_dependency)\n\n```\nLots of text...```\n\
         \n## Apache-2.0 (my_dependency)\n\n```\nLots of text 2...```\n\
         \n## Apache-2.0 (my_other_dependency)\n\n```\nLots of text 2...```\n"
    );
    let sections = catalog.matches("\n## ").count();
    let total: usize = input.packages.iter().map(|p| p.licenses.len()).sum();
    assert_eq!(sections, total);
}

#[test]
fn catalog_renders_fallback_for_absent_text() {
    let collection = single_package(vec![License {
        license: "MIT".to_owned(),
        text: None,
    }]);
    let writer = MdWriter::new(&collection, default_config());
    let catalog = writer.create_license_texts_list();
    assert_eq!(
        catalog,
        "# Licenses of Third-Party Libraries\n\n## MIT (pkg)\n\n```\nNOT FOUND\n```\n"
    );
}

#[test]
fn catalog_expands_literal_escape_sequences() {
    let collection = single_package(vec![License {
        license: "MIT".to_owned(),
        text: Some("line one\\nline two".to_owned()),
    }]);
    let writer = MdWriter::new(&collection, default_config());
    let catalog = writer.create_license_texts_list();
    assert_eq!(
        catalog,
        "# Licenses of Third-Party Libraries\n\n## MIT (pkg)\n\n```\nline one\nline two```\n"
    );
}

#[test]
fn create_licenses_list_matches_create_license_texts_list() {
    let input = package_collection_data();
    let writer = MdWriter::new(&input, default_config());
    assert_eq!(
        writer.create_licenses_list(),
        writer.create_license_texts_list()
    );
}

#[test]
fn expand_escapes_rewrites_backslash_n() {
    assert_eq!(expand_escapes("a\\nb"), "a\nb");
    assert_eq!(expand_escapes("no escapes"), "no escapes");
    assert_eq!(expand_escapes(""), "");
    assert_eq!(expand_escapes("\\n\\n"), "\n\n");
}

#[test]
fn trim_removes_leading_and_trailing_whitespace() {
    assert_eq!(trim("  spaced out \t"), "spaced out");
    assert_eq!(trim("bare"), "bare");
    assert_eq!(trim(" \t "), "");
}

#[test]
fn split_lines_splits_on_newlines() {
    assert_eq!(split_lines("a\nb\nc"), vec!["a", "b", "c"]);
    assert_eq!(split_lines(""), vec![""]);
    assert_eq!(split_lines("a\n"), vec!["a", ""]);
}

#[test]
fn str_eq_compares_characters() {
    assert!(str_eq("same", "same"));
    assert!(!str_eq("same", "other"));
    assert!(!str_eq("same", "sam"));
}
