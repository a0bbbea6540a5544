//! The canonical package record and its mathematical model.

use vstd::prelude::*;

verus! {

/// One package of the unified corpus, in the canonical shape every
/// adapter converges on.
#[derive(Clone, Debug)]
pub struct ApkgPackage {
    pub name: String,
    pub version: String,
    pub description: String,
    pub source: PackageSource,
    pub dependencies: Vec<String>,
    pub build_type: BuildType,
    pub homepage: Option<String>,
    pub license: Vec<String>,
    pub maintainer: Option<String>,
}

/// Which upstream a record came from, with the fields that upstream needs.
#[derive(Clone, Debug)]
pub enum PackageSource {
    Aur { pkgbase: String, url: String },
    Debian { suite: String, component: String, arch: String },
    Flatpak { remote: String, ref_name: String },
    Snap { channel: String },
    Nixpkgs { attr: String },
    Source { url: String, vcs_type: Option<String> },
}

/// How a package is materialized.
#[derive(Clone, Debug)]
pub enum BuildType {
    SourceBuild { build_cmd: Vec<String> },
    Binary { extract_cmd: Option<Vec<String>> },
    Container { runtime: String },
}

/// Per-source record counts, recomputed on demand by scanning the store.
#[derive(Clone, Debug)]
pub struct DatabaseStats {
    pub total_count: usize,
    pub aur_count: usize,
    pub debian_count: usize,
    pub flatpak_count: usize,
    pub snap_count: usize,
    pub nixpkgs_count: usize,
    pub source_count: usize,
}

/// Mathematical model of a canonical record: every text field a
/// sequence of characters.
#[verifier::ext_equal]
pub struct PkgModel {
    pub name: Seq<char>,
    pub version: Seq<char>,
    pub description: Seq<char>,
    pub source: SourceModel,
    pub dependencies: Seq<Seq<char>>,
    pub build_type: BuildModel,
    pub homepage: Option<Seq<char>>,
    pub license: Seq<Seq<char>>,
    pub maintainer: Option<Seq<char>>,
}

#[verifier::ext_equal]
pub enum SourceModel {
    Aur { pkgbase: Seq<char>, url: Seq<char> },
    Debian { suite: Seq<char>, component: Seq<char>, arch: Seq<char> },
    Flatpak { remote: Seq<char>, ref_name: Seq<char> },
    Snap { channel: Seq<char> },
    Nixpkgs { attr: Seq<char> },
    Source { url: Seq<char>, vcs_type: Option<Seq<char>> },
}

#[verifier::ext_equal]
pub enum BuildModel {
    SourceBuild { build_cmd: Seq<Seq<char>> },
    Binary { extract_cmd: Option<Seq<Seq<char>>> },
    Container { runtime: Seq<char> },
}

impl View for PackageSource {
    type V = SourceModel;

    open spec fn view(&self) -> SourceModel {
        match self {
            PackageSource::Aur { pkgbase, url } => SourceModel::Aur {
                pkgbase: pkgbase@,
                url: url@,
            },
            PackageSource::Debian { suite, component, arch } => SourceModel::Debian {
                suite: suite@,
                component: component@,
                arch: arch@,
            },
            PackageSource::Flatpak { remote, ref_name } => SourceModel::Flatpak {
                remote: remote@,
                ref_name: ref_name@,
            },
            PackageSource::Snap { channel } => SourceModel::Snap { channel: channel@ },
            PackageSource::Nixpkgs { attr } => SourceModel::Nixpkgs { attr: attr@ },
            PackageSource::Source { url, vcs_type } => SourceModel::Source {
                url: url@,
                vcs_type: vcs_type.deep_view(),
            },
        }
    }
}

impl View for BuildType {
    type V = BuildModel;

    open spec fn view(&self) -> BuildModel {
        match self {
            BuildType::SourceBuild { build_cmd } => BuildModel::SourceBuild {
                build_cmd: build_cmd.deep_view(),
            },
            BuildType::Binary { extract_cmd } => BuildModel::Binary {
                extract_cmd: extract_cmd.deep_view(),
            },
            BuildType::Container { runtime } => BuildModel::Container { runtime: runtime@ },
        }
    }
}

impl View for ApkgPackage {
    type V = PkgModel;

    open spec fn view(&self) -> PkgModel {
        PkgModel {
            name: self.name@,
            version: self.version@,
            description: self.description@,
            source: self.source@,
            dependencies: self.dependencies.deep_view(),
            build_type: self.build_type@,
            homepage: self.homepage.deep_view(),
            license: self.license.deep_view(),
            maintainer: self.maintainer.deep_view(),
        }
    }
}

impl DeepView for ApkgPackage {
    type V = PkgModel;

    open spec fn deep_view(&self) -> PkgModel {
        self.view()
    }
}

} // verus!
