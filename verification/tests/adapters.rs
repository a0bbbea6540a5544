use apkg::adapters::{aur_search_terms, aur_search_url, AurPackage, FlatpakPackage};
use apkg::model::{BuildType, PackageSource};
use apkg::store::PackageDatabase;

fn s(x: &str) -> String {
    x.to_string()
}

fn aur_input() -> AurPackage {
    AurPackage {
        id: 7,
        name: s("ripgrep"),
        package_base: s("ripgrep"),
        version: s("14.0.0"),
        description: Some(s("fast grep")),
        url: Some(s("https://example.org")),
        url_path: s("/packages/ripgrep"),
        depends: Some(vec![s("pcre2"), s("zlib")]),
        makedepends: Some(vec![s("rust"), s("pcre2")]),
        license: Some(vec![s("MIT"), s("Unlicense")]),
        maintainer: Some(s("someone")),
    }
}

#[test]
fn aur_dependencies_concatenate_in_order() {
    let db = PackageDatabase::new();
    let out = db.convert_aur_package(aur_input());
    assert_eq!(
        out.dependencies,
        vec![s("pcre2"), s("zlib"), s("rust"), s("pcre2")],
        "runtime depends then make depends, duplicates kept"
    );
}

#[test]
fn aur_fields_map_through() {
    let db = PackageDatabase::new();
    let out = db.convert_aur_package(aur_input());
    assert_eq!(out.name, "ripgrep");
    assert_eq!(out.version, "14.0.0");
    assert_eq!(out.description, "fast grep");
    match &out.source {
        PackageSource::Aur { pkgbase, url } => {
            assert_eq!(pkgbase, "ripgrep");
            assert_eq!(url, "https://aur.archlinux.org/packages/ripgrep");
        }
        other => panic!("wrong source: {:?}", other),
    }
    match &out.build_type {
        BuildType::SourceBuild { build_cmd } => {
            assert_eq!(build_cmd, &vec![s("makepkg"), s("--noconfirm"), s("-si")]);
        }
        other => panic!("wrong build type: {:?}", other),
    }
    assert_eq!(out.homepage.as_deref(), Some("https://example.org"));
    assert_eq!(out.license, vec![s("MIT"), s("Unlicense")]);
    assert_eq!(out.maintainer.as_deref(), Some("someone"));
}

#[test]
fn aur_missing_description_gets_placeholder() {
    let db = PackageDatabase::new();
    let mut input = aur_input();
    input.description = None;
    input.depends = None;
    input.makedepends = None;
    input.license = None;
    input.maintainer = None;
    input.url = None;
    let out = db.convert_aur_package(input);
    assert_eq!(out.description, "No description");
    assert!(out.dependencies.is_empty());
    assert!(out.license.is_empty());
    assert!(out.maintainer.is_none());
    assert!(out.homepage.is_none());
}

#[test]
fn aur_search_url_percent_encodes() {
    let url = aur_search_url("a b+c");
    assert_eq!(url, "https://aur.archlinux.org/rpc/v5/search/a%20b%2Bc");
}

#[test]
fn aur_search_terms_are_the_topic_seeds() {
    assert_eq!(
        aur_search_terms(),
        vec![s("rust"), s("gui"), s("terminal"), s("system")]
    );
}

#[test]
fn aur_merge_counts_every_result() {
    let mut db = PackageDatabase::new();
    let mut second = aur_input();
    second.name = s("fd");
    let count = db.merge_aur_results(vec![aur_input(), second]);
    assert_eq!(count, 2);
    assert_eq!(db.stats().total_count, 2);
}

#[test]
fn debian_minimal_stanza_gets_defaults() {
    let mut db = PackageDatabase::new();
    db.parse_debian_packages("Package: bash\nVersion: 5.2\n\n", "stable", "main");
    let pkg = db.get("bash").expect("bash should be present");
    assert_eq!(pkg.name, "bash");
    assert_eq!(pkg.version, "5.2");
    assert_eq!(pkg.description, "");
    assert!(pkg.dependencies.is_empty());
    match &pkg.source {
        PackageSource::Debian { suite, component, arch } => {
            assert_eq!(suite, "stable");
            assert_eq!(component, "main");
            assert_eq!(arch, "amd64");
        }
        other => panic!("wrong source: {:?}", other),
    }
    match &pkg.build_type {
        BuildType::Binary { extract_cmd } => {
            assert_eq!(extract_cmd, &Some(vec![s("dpkg-deb"), s("-x")]));
        }
        other => panic!("wrong build type: {:?}", other),
    }
    assert!(pkg.license.is_empty());
}

#[test]
fn debian_stanza_without_package_yields_nothing() {
    let mut db = PackageDatabase::new();
    db.parse_debian_packages("Maintainer: nobody\nVersion: 1.0\n\n", "stable", "main");
    assert_eq!(db.stats().total_count, 0);
}

#[test]
fn debian_only_package_key_defaults_version_unknown() {
    let mut db = PackageDatabase::new();
    db.parse_debian_packages("Package: tiny\n\n", "stable", "main");
    let pkg = db.get("tiny").expect("tiny should be present");
    assert_eq!(pkg.version, "unknown");
    assert_eq!(pkg.description, "");
    assert!(pkg.dependencies.is_empty());
}

#[test]
fn debian_depends_split_on_commas_and_trimmed() {
    let mut db = PackageDatabase::new();
    db.parse_debian_packages(
        "Package: vim\nDepends: libc6 (>= 2.29), libacl1 , libgpm2\n\n",
        "stable",
        "main",
    );
    let pkg = db.get("vim").expect("vim should be present");
    assert_eq!(
        pkg.dependencies,
        vec![s("libc6 (>= 2.29)"), s("libacl1"), s("libgpm2")],
        "tokens trimmed, version constraints kept intact"
    );
}

#[test]
fn debian_repeated_key_last_value_wins() {
    let mut db = PackageDatabase::new();
    db.parse_debian_packages(
        "Package: dup\nVersion: 1\nVersion: 2\n\n",
        "stable",
        "main",
    );
    let pkg = db.get("dup").expect("dup should be present");
    assert_eq!(pkg.version, "2");
}

#[test]
fn debian_unfinished_trailing_stanza_is_dropped() {
    let mut db = PackageDatabase::new();
    db.parse_debian_packages("Package: a\n\nPackage: b\nVersion: 9", "stable", "main");
    assert!(db.get("a").is_some());
    assert!(db.get("b").is_none(), "no blank line finished the stanza");
}

#[test]
fn flatpak_listing_produces_expected_record() {
    let mut db = PackageDatabase::new();
    let count =
        db.parse_flatpak_listing("header\norg.app.Foo\t1.0\tstable\tA foo app\n", "flathub");
    assert_eq!(count, 1);
    let pkg = db.get("org.app.Foo").expect("org.app.Foo should be present");
    assert_eq!(pkg.version, "1.0");
    assert_eq!(pkg.description, "A foo app");
    assert!(pkg.dependencies.is_empty());
    match &pkg.source {
        PackageSource::Flatpak { remote, ref_name } => {
            assert_eq!(remote, "flathub");
            assert_eq!(ref_name, "app/org.app.Foo/stable");
        }
        other => panic!("wrong source: {:?}", other),
    }
    match &pkg.build_type {
        BuildType::Container { runtime } => {
            assert_eq!(runtime, "org.freedesktop.Platform");
        }
        other => panic!("wrong build type: {:?}", other),
    }
}

#[test]
fn flatpak_short_lines_are_skipped() {
    let mut db = PackageDatabase::new();
    let count = db.parse_flatpak_listing("header\nonly\tthree\tfields\n", "flathub");
    assert_eq!(count, 0);
    assert_eq!(db.stats().total_count, 0);
}

#[test]
fn flatpak_header_line_is_discarded() {
    let mut db = PackageDatabase::new();
    let count = db.parse_flatpak_listing(
        "app\tversion\tbranch\tdescription\norg.x.Y\t2\tbeta\tdesc\n",
        "flathub",
    );
    assert_eq!(count, 1);
    assert!(db.get("app").is_none(), "the header must not become a record");
    assert!(db.get("org.x.Y").is_some());
}

#[test]
fn flatpak_convert_builds_ref_from_id_and_branch() {
    let db = PackageDatabase::new();
    let out = db.convert_flatpak_package(FlatpakPackage {
        app_id: s("org.gnome.Maps"),
        version: s("45"),
        branch: s("stable"),
        remote: s("flathub"),
        description: s("maps"),
    });
    assert_eq!(out.name, "org.gnome.Maps");
    match &out.source {
        PackageSource::Flatpak { ref_name, .. } => {
            assert_eq!(ref_name, "app/org.gnome.Maps/stable");
        }
        other => panic!("wrong source: {:?}", other),
    }
}
