use apkg::model::{ApkgPackage, BuildType, PackageSource};
use apkg::store::PackageDatabase;

fn s(x: &str) -> String {
    x.to_string()
}

fn aur_record(name: &str) -> ApkgPackage {
    ApkgPackage {
        name: s(name),
        version: s("14.0.0"),
        description: s("fast grep"),
        source: PackageSource::Aur {
            pkgbase: s(name),
            url: s("https://aur.archlinux.org/packages/x"),
        },
        dependencies: vec![s("pcre2")],
        build_type: BuildType::SourceBuild {
            build_cmd: vec![s("makepkg"), s("--noconfirm"), s("-si")],
        },
        homepage: None,
        license: vec![s("MIT")],
        maintainer: Some(s("someone")),
    }
}

fn assert_same_record(a: &ApkgPackage, b: &ApkgPackage) {
    assert_eq!(a.name, b.name);
    assert_eq!(a.version, b.version);
    assert_eq!(a.description, b.description);
    assert_eq!(format!("{:?}", a.source), format!("{:?}", b.source));
    assert_eq!(a.dependencies, b.dependencies);
    assert_eq!(format!("{:?}", a.build_type), format!("{:?}", b.build_type));
    assert_eq!(a.homepage, b.homepage);
    assert_eq!(a.license, b.license);
    assert_eq!(a.maintainer, b.maintainer);
}

#[test]
fn stats_after_one_aur_insert() {
    let mut db = PackageDatabase::new();
    db.insert(aur_record("ripgrep"));
    let stats = db.stats();
    assert_eq!(stats.aur_count, 1);
    assert_eq!(stats.total_count, 1);
    assert_eq!(stats.debian_count, 0);
    assert_eq!(stats.flatpak_count, 0);
}

#[test]
fn insert_is_idempotent_for_search_and_stats() {
    let mut db = PackageDatabase::new();
    db.insert(aur_record("ripgrep"));
    let before_search: Vec<String> = db.search("rip").iter().map(|p| p.name.clone()).collect();
    let before = db.stats();
    db.insert(aur_record("ripgrep"));
    let after_search: Vec<String> = db.search("rip").iter().map(|p| p.name.clone()).collect();
    let after = db.stats();
    assert_eq!(before_search, after_search);
    assert_eq!(before.total_count, after.total_count);
    assert_eq!(before.aur_count, after.aur_count);
}

#[test]
fn insert_overwrites_same_name_last_writer_wins() {
    let mut db = PackageDatabase::new();
    db.insert(aur_record("git"));
    let mut newer = aur_record("git");
    newer.version = s("2.44.0");
    db.insert(newer);
    assert_eq!(db.stats().total_count, 1);
    assert_eq!(db.get("git").unwrap().version, "2.44.0");
}

#[test]
fn search_is_case_insensitive_on_names() {
    let mut db = PackageDatabase::new();
    let mut rec = aur_record("Foo");
    rec.description = s("nothing here");
    db.insert(rec);
    let hits = db.search("foo");
    assert_eq!(hits.len(), 1);
    assert_eq!(hits[0].name, "Foo");
    assert_eq!(db.search("FOO").len(), 1);
}

#[test]
fn search_matches_descriptions_too() {
    let mut db = PackageDatabase::new();
    let mut rec = aur_record("xyz");
    rec.description = s("A Fast Line Counter");
    db.insert(rec);
    assert_eq!(db.search("fast line").len(), 1);
    assert_eq!(db.search("slow").len(), 0);
}

#[test]
fn search_misses_return_nothing() {
    let mut db = PackageDatabase::new();
    db.insert(aur_record("ripgrep"));
    assert!(db.search("qqqq").is_empty());
}

#[test]
fn get_distinguishes_exact_names() {
    let mut db = PackageDatabase::new();
    db.insert(aur_record("ripgrep"));
    assert!(db.get("ripgrep").is_some());
    assert!(db.get("ripgre").is_none());
    assert!(db.get("Ripgrep").is_none(), "lookup by name is exact");
}

#[test]
fn stats_counts_each_source_kind() {
    let mut db = PackageDatabase::new();
    db.insert(aur_record("a"));
    db.parse_debian_packages("Package: b\n\n", "stable", "main");
    db.parse_flatpak_listing("h\norg.c.C\t1\tstable\tdesc\n", "flathub");
    let mut snap = aur_record("d");
    snap.source = PackageSource::Snap { channel: s("stable") };
    db.insert(snap);
    let stats = db.stats();
    assert_eq!(stats.aur_count, 1);
    assert_eq!(stats.debian_count, 1);
    assert_eq!(stats.flatpak_count, 1);
    assert_eq!(stats.snap_count, 1);
    assert_eq!(stats.nixpkgs_count, 0);
    assert_eq!(stats.source_count, 0);
    assert_eq!(stats.total_count, 4);
}

#[test]
fn save_then_load_restores_every_field() {
    let mut db = PackageDatabase::new();
    db.insert(aur_record("ripgrep"));
    db.parse_debian_packages(
        "Package: bash\nVersion: 5.2\nDepends: libc6 (>= 2.29), libtinfo6\nHomepage: https://www.gnu.org/software/bash/\nMaintainer: Matthias\nDescription: GNU Bourne Again SHell\n\n",
        "stable",
        "main",
    );
    db.parse_flatpak_listing("h\norg.app.Foo\t1.0\tstable\tA foo app\n", "flathub");
    let mut odd = aur_record("odd");
    odd.description = s("line one\nline two\\with backslash\tand tab");
    odd.source = PackageSource::Source {
        url: s("https://example.org/src.git"),
        vcs_type: Some(s("git")),
    };
    odd.build_type = BuildType::Binary { extract_cmd: None };
    db.insert(odd);

    let text = db.save();
    let mut fresh = PackageDatabase::new();
    fresh.load(&text).expect("a saved snapshot must load");

    assert_eq!(fresh.stats().total_count, 4);
    for name in ["ripgrep", "bash", "org.app.Foo", "odd"] {
        let a = db.get(name).unwrap();
        let b = fresh.get(name).unwrap();
        assert_same_record(a, b);
    }
}

#[test]
fn save_load_round_trip_of_empty_store() {
    let db = PackageDatabase::new();
    let text = db.save();
    assert_eq!(text, ".\n");
    let mut fresh = PackageDatabase::new();
    fresh.insert(aur_record("stale"));
    fresh.load(&text).expect("the empty snapshot must load");
    assert_eq!(fresh.stats().total_count, 0, "load replaces prior state");
}

#[test]
fn load_rejects_malformed_text_and_keeps_state() {
    let mut db = PackageDatabase::new();
    db.insert(aur_record("keep"));
    assert!(db.load("not a snapshot").is_err());
    assert!(db.load("+\nonly-a-name\n").is_err());
    assert!(db.load("").is_err());
    assert_eq!(db.stats().total_count, 1);
    assert!(db.get("keep").is_some());
}

#[test]
fn snapshot_escapes_newlines_in_fields() {
    let mut db = PackageDatabase::new();
    let mut rec = aur_record("tricky");
    rec.version = s("1\n2");
    rec.dependencies = vec![s("a\\b"), s(".")];
    db.insert(rec);
    let text = db.save();
    let mut fresh = PackageDatabase::new();
    fresh.load(&text).expect("escaped snapshot must load");
    let back = fresh.get("tricky").unwrap();
    assert_eq!(back.version, "1\n2");
    assert_eq!(back.dependencies, vec![s("a\\b"), s(".")]);
}
