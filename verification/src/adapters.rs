//! Per-upstream adapters: each maps upstream-shaped input to
//! canonical records and merges them into the store.

use vstd::prelude::*;

use crate::model::{ApkgPackage, BuildModel, BuildType, PackageSource, PkgModel, SourceModel};
use crate::store::{insert_all, PackageDatabase};
use crate::text::{
    chars_of, copy_range, encode_query, find_first_sub, find_sub, lemma_find_sub, lines_chars,
    lines_of, split_char, split_chars, string_of, trim, trim_chars, url_encoded,
};

verus! {

// ------------------------------------------------------------------
// AUR
// ------------------------------------------------------------------
/// One package object as the AUR RPC search endpoint reports it.
pub struct AurPackage {
    pub id: u64,
    pub name: String,
    pub package_base: String,
    pub version: String,
    pub description: Option<String>,
    pub url: Option<String>,
    pub url_path: String,
    pub depends: Option<Vec<String>>,
    pub makedepends: Option<Vec<String>>,
    pub license: Option<Vec<String>>,
    pub maintainer: Option<String>,
}

#[verifier::ext_equal]
pub struct AurModel {
    pub id: u64,
    pub name: Seq<char>,
    pub package_base: Seq<char>,
    pub version: Seq<char>,
    pub description: Option<Seq<char>>,
    pub url: Option<Seq<char>>,
    pub url_path: Seq<char>,
    pub depends: Option<Seq<Seq<char>>>,
    pub makedepends: Option<Seq<Seq<char>>>,
    pub license: Option<Seq<Seq<char>>>,
    pub maintainer: Option<Seq<char>>,
}

impl View for AurPackage {
    type V = AurModel;

    open spec fn view(&self) -> AurModel {
        AurModel {
            id: self.id,
            name: self.name@,
            package_base: self.package_base@,
            version: self.version@,
            description: self.description.deep_view(),
            url: self.url.deep_view(),
            url_path: self.url_path@,
            depends: self.depends.deep_view(),
            makedepends: self.makedepends.deep_view(),
            license: self.license.deep_view(),
            maintainer: self.maintainer.deep_view(),
        }
    }
}

impl DeepView for AurPackage {
    type V = AurModel;

    open spec fn deep_view(&self) -> AurModel {
        self.view()
    }
}

pub open spec fn seqs_or_empty(o: Option<Seq<Seq<char>>>) -> Seq<Seq<char>> {
    match o {
        Some(s) => s,
        None => Seq::empty(),
    }
}

/// How an AUR search result becomes a canonical record.
pub open spec fn convert_aur_spec(m: AurModel) -> PkgModel {
    PkgModel {
        name: m.name,
        version: m.version,
        description: match m.description {
            Some(d) => d,
            None => "No description"@,
        },
        source: SourceModel::Aur {
            pkgbase: m.package_base,
            url: "https://aur.archlinux.org"@ + m.url_path,
        },
        dependencies: seqs_or_empty(m.depends) + seqs_or_empty(m.makedepends),
        build_type: BuildModel::SourceBuild { build_cmd: seq!["makepkg"@, "--noconfirm"@, "-si"@] },
        homepage: m.url,
        license: seqs_or_empty(m.license),
        maintainer: m.maintainer,
    }
}

/// The URL queried for one AUR search term.
pub fn aur_search_url(term: &str) -> (r: String)
    ensures
        r@ == "https://aur.archlinux.org/rpc/v5/search/"@ + url_encoded(term@),
{
    let encoded = encode_query(term);
    String::from_str("https://aur.archlinux.org/rpc/v5/search/").concat(encoded.as_str())
}

/// The fixed topic seeds searched on every AUR sync.
pub fn aur_search_terms() -> (r: Vec<String>)
    ensures
        r.deep_view() == seq!["rust"@, "gui"@, "terminal"@, "system"@],
{
    let r: Vec<String> = vec![
        String::from_str("rust"),
        String::from_str("gui"),
        String::from_str("terminal"),
        String::from_str("system"),
    ];
    proof {
        assert(r.deep_view() =~~= seq!["rust"@, "gui"@, "terminal"@, "system"@]);
    }
    r
}

impl PackageDatabase {
    /// Map one AUR search result to a canonical record: run-time
    /// depends then make-depends, in order, with nothing dropped.
    pub fn convert_aur_package(&self, pkg: AurPackage) -> (r: ApkgPackage)
        ensures
            r@ == convert_aur_spec(pkg@),
            r@.dependencies == seqs_or_empty(pkg@.depends) + seqs_or_empty(pkg@.makedepends),
    {
        let AurPackage {
            id,
            name,
            package_base,
            version,
            description,
            url,
            url_path,
            depends,
            makedepends,
            license,
            maintainer,
        } = pkg;
        let mut deps: Vec<String> = match depends {
            Some(d) => d,
            None => Vec::new(),
        };
        let mut make: Vec<String> = match makedepends {
            Some(d) => d,
            None => Vec::new(),
        };
        proof {
            assert(deps.deep_view() =~~= seqs_or_empty(pkg@.depends));
            assert(make.deep_view() =~~= seqs_or_empty(pkg@.makedepends));
        }
        let ghost d0 = deps.deep_view();
        let ghost m0 = make.deep_view();
        deps.append(&mut make);
        proof {
            assert(deps.deep_view() =~~= d0 + m0);
        }
        let description = match description {
            Some(d) => d,
            None => String::from_str("No description"),
        };
        let full_url = String::from_str("https://aur.archlinux.org").concat(url_path.as_str());
        let build_cmd: Vec<String> = vec![
            String::from_str("makepkg"),
            String::from_str("--noconfirm"),
            String::from_str("-si"),
        ];
        let license = match license {
            Some(l) => l,
            None => Vec::new(),
        };
        let r = ApkgPackage {
            name,
            version,
            description,
            source: PackageSource::Aur { pkgbase: package_base, url: full_url },
            dependencies: deps,
            build_type: BuildType::SourceBuild { build_cmd },
            homepage: url,
            license,
            maintainer,
        };
        proof {
            assert(build_cmd.deep_view() =~~= seq!["makepkg"@, "--noconfirm"@, "-si"@]);
            assert(r.license.deep_view() =~~= seqs_or_empty(pkg@.license));
            assert(r@ =~~= convert_aur_spec(pkg@));
        }
        r
    }

    /// Merge every result of one AUR search response, in order; the
    /// count reports how many records were handed over.
    pub fn merge_aur_results(&mut self, results: Vec<AurPackage>) -> (count: usize)
        requires
            old(self).wf(),
        ensures
            final(self)@ == insert_all(
                old(self)@,
                results.deep_view().map_values(|m: AurModel| convert_aur_spec(m)),
            ),
            final(self).wf(),
            count == results@.len(),
    {
        let ghost models = results.deep_view().map_values(|m: AurModel| convert_aur_spec(m));
        let total = results.len();
        let mut rest = results;
        let mut count: usize = 0;
        proof {
            assert(rest.deep_view().map_values(|m: AurModel| convert_aur_spec(m)) =~~= models);
    }
        while rest.len() > 0
            invariant
                self.wf(),
                count + rest@.len() == total,
                insert_all(old(self)@, models) == insert_all(
                    self@,
                    rest.deep_view().map_values(|m: AurModel| convert_aur_spec(m)),
                ),
            decreases rest@.len(),
        {
            let ghost rm = rest.deep_view().map_values(|m: AurModel| convert_aur_spec(m));
            let ghost rdv = rest.deep_view();
            let pkg = rest.remove(0);
            proof {
                assert(rest.deep_view() =~~= rdv.drop_first());
                assert(rest.deep_view().map_values(|m: AurModel| convert_aur_spec(m)) =~~= rm
                    .drop_first());
                assert(rm[0] == convert_aur_spec(rdv[0]));
            }
            let apkg = self.convert_aur_package(pkg);
            self.insert(apkg);
            count = count + 1;
        }
        proof {
            assert(rest.deep_view().map_values(|m: AurModel| convert_aur_spec(m)) =~~= Seq::<
                PkgModel,
            >::empty());
        }
        count
    }
}

// ------------------------------------------------------------------
// Debian
// ------------------------------------------------------------------
/// Split a control line at the first `": "` into key and value.
pub open spec fn kv_split(line: Seq<char>) -> Option<(Seq<char>, Seq<char>)> {
    match find_sub(line, ": "@) {
        Some(k) => Some((line.subrange(0, k), line.subrange(k + 2, line.len() as int))),
        None => None,
    }
}

/// One control line added to the accumulated stanza; a line without
/// the separator is ignored.
pub open spec fn stanza_step(
    st: Seq<(Seq<char>, Seq<char>)>,
    line: Seq<char>,
) -> Seq<(Seq<char>, Seq<char>)> {
    match kv_split(line) {
        Some(kv) => st.push(kv),
        None => st,
    }
}

/// The value bound to `key` in a stanza: the last binding wins.
pub open spec fn stanza_get(st: Seq<(Seq<char>, Seq<char>)>, key: Seq<char>) -> Option<Seq<char>>
    decreases st.len(),
{
    if st.len() == 0 {
        None
    } else if st.last().0 == key {
        Some(st.last().1)
    } else {
        stanza_get(st.drop_last(), key)
    }
}

/// A `Depends` value split on commas, each token trimmed.
pub open spec fn split_commas_trimmed(d: Seq<char>) -> Seq<Seq<char>> {
    split_char(d, ',').map_values(|t: Seq<char>| trim(t))
}

/// How one control stanza becomes a canonical record.
pub open spec fn convert_debian_spec(
    st: Seq<(Seq<char>, Seq<char>)>,
    suite: Seq<char>,
    component: Seq<char>,
) -> PkgModel {
    PkgModel {
        name: stanza_get(st, "Package"@)->Some_0,
        version: match stanza_get(st, "Version"@) {
            Some(v) => v,
            None => "unknown"@,
        },
        description: match stanza_get(st, "Description"@) {
            Some(d) => d,
            None => Seq::empty(),
        },
        source: SourceModel::Debian { suite, component, arch: "amd64"@ },
        dependencies: match stanza_get(st, "Depends"@) {
            Some(d) => split_commas_trimmed(d),
            None => Seq::empty(),
        },
        build_type: BuildModel::Binary { extract_cmd: Some(seq!["dpkg-deb"@, "-x"@]) },
        homepage: stanza_get(st, "Homepage"@),
        license: Seq::empty(),
        maintainer: stanza_get(st, "Maintainer"@),
    }
}

/// What a finished stanza contributes: one record when it names a
/// `Package`, nothing otherwise.
pub open spec fn stanza_records(
    st: Seq<(Seq<char>, Seq<char>)>,
    suite: Seq<char>,
    component: Seq<char>,
) -> Seq<PkgModel> {
    if stanza_get(st, "Package"@) is Some {
        seq![convert_debian_spec(st, suite, component)]
    } else {
        Seq::empty()
    }
}

/// Walk the control lines from `i` with an accumulated stanza: a
/// blank line finishes the stanza, any trailing unfinished stanza is
/// dropped.
pub open spec fn debian_scan(
    ls: Seq<Seq<char>>,
    i: int,
    st: Seq<(Seq<char>, Seq<char>)>,
    suite: Seq<char>,
    component: Seq<char>,
) -> Seq<PkgModel>
    decreases ls.len() - i,
{
    if i < 0 || i >= ls.len() {
        Seq::empty()
    } else if ls[i].len() == 0 {
        stanza_records(st, suite, component) + debian_scan(
            ls,
            i + 1,
            Seq::empty(),
            suite,
            component,
        )
    } else {
        debian_scan(ls, i + 1, stanza_step(st, ls[i]), suite, component)
    }
}

/// Every record a control blob yields for one suite and component.
pub open spec fn debian_records(
    content: Seq<char>,
    suite: Seq<char>,
    component: Seq<char>,
) -> Seq<PkgModel> {
    debian_scan(lines_of(content), 0, Seq::empty(), suite, component)
}

/// The value bound to `key`, executable form: the last binding wins.
fn stanza_lookup(stanza: &Vec<(String, String)>, key: &str) -> (r: Option<String>)
    ensures
        match r {
            Some(v) => stanza_get(stanza.deep_view(), key@) == Some(v@),
            None => stanza_get(stanza.deep_view(), key@) is None,
        },
{
    let ghost st = stanza.deep_view();
    let key_s = key.to_owned();
    let mut i: usize = stanza.len();
    proof {
        assert(st.take(st.len() as int) =~~= st);
        assert(st.len() == stanza@.len());
    }
    while i > 0
        invariant
            i <= stanza@.len(),
            st == stanza.deep_view(),
            st.len() == stanza@.len(),
            key_s@ == key@,
            stanza_get(st, key@) == stanza_get(st.take(i as int), key@),
        decreases i,
    {
        proof {
            assert(st.take(i as int).last() == st[i - 1]);
            assert(st.take(i as int).drop_last() =~~= st.take(i - 1));
            assert(st[i - 1].0 =~= stanza@[i - 1].0@);
            assert(st[i - 1].1 =~= stanza@[i - 1].1@);
        }
        if stanza[i - 1].0.eq(&key_s) {
            let v = stanza[i - 1].1.clone();
            return Some(v);
        }
        i = i - 1;
    }
    proof {
        assert(st.take(0) =~~= Seq::<(Seq<char>, Seq<char>)>::empty());
    }
    None
}

/// A `Depends` value split on commas, executable form.
fn split_depends(d: &str) -> (r: Vec<String>)
    ensures
        r.deep_view() == split_commas_trimmed(d@),
{
    let dc = chars_of(d);
    let parts = split_chars(&dc, ',');
    let ghost ps = parts.deep_view();
    let mut r: Vec<String> = Vec::new();
    let mut i: usize = 0;
    proof {
        assert(r.deep_view() =~~= ps.take(0).map_values(|t: Seq<char>| trim(t)));
    }
    while i < parts.len()
        invariant
            i <= parts@.len(),
            ps == parts.deep_view(),
            ps.len() == parts@.len(),
            ps == split_char(d@, ','),
            r.deep_view() == ps.take(i as int).map_values(|t: Seq<char>| trim(t)),
        decreases parts@.len() - i,
    {
        let t = trim_chars(&parts[i]);
        let ghost prev = r.deep_view();
        r.push(string_of(&t));
        i = i + 1;
        proof {
            assert(ps[i - 1] =~= parts@[i - 1]@);
            assert(t@ == trim(ps[i - 1]));
            assert(r.deep_view() =~~= prev.push(trim(ps[i - 1])));
            assert(ps.take(i as int) =~~= ps.take(i - 1).push(ps[i - 1]));
            assert(r.deep_view() =~~= ps.take(i as int).map_values(|t: Seq<char>| trim(t)));
        }
    }
    proof {
        assert(ps.take(ps.len() as int) =~~= ps);
        assert(r.deep_view() =~~= split_commas_trimmed(d@));
    }
    r
}

impl PackageDatabase {
    /// Map one finished stanza to a canonical record.
    pub fn convert_debian_package(
        &self,
        stanza: &Vec<(String, String)>,
        suite: &str,
        component: &str,
    ) -> (r: ApkgPackage)
        requires
            stanza_get(stanza.deep_view(), "Package"@) is Some,
        ensures
            r@ == convert_debian_spec(stanza.deep_view(), suite@, component@),
    {
        let name = stanza_lookup(stanza, "Package").unwrap();
        let version = match stanza_lookup(stanza, "Version") {
            Some(v) => v,
            None => String::from_str("unknown"),
        };
        let description = match stanza_lookup(stanza, "Description") {
            Some(d) => d,
            None => String::new(),
        };
        let dependencies = match stanza_lookup(stanza, "Depends") {
            Some(d) => split_depends(d.as_str()),
            None => Vec::new(),
        };
        let homepage = stanza_lookup(stanza, "Homepage");
        let maintainer = stanza_lookup(stanza, "Maintainer");
        let extract_cmd: Vec<String> = vec![String::from_str("dpkg-deb"), String::from_str("-x")];
        let r = ApkgPackage {
            name,
            version,
            description,
            source: PackageSource::Debian {
                suite: suite.to_owned(),
                component: component.to_owned(),
                arch: String::from_str("amd64"),
            },
            dependencies,
            build_type: BuildType::Binary { extract_cmd: Some(extract_cmd) },
            homepage,
            license: Vec::new(),
            maintainer,
        };
        proof {
            let st = stanza.deep_view();
            if stanza_get(st, "Depends"@) is None {
                assert(r.dependencies.deep_view() =~~= Seq::<Seq<char>>::empty());
            }
            assert(extract_cmd.deep_view() =~~= seq!["dpkg-deb"@, "-x"@]);
            assert(r.license.deep_view() =~~= Seq::<Seq<char>>::empty());
            assert(r@ =~~= convert_debian_spec(st, suite@, component@));
        }
        r
    }

    /// Parse a whole control blob: a blank line finishes a stanza, a
    /// stanza without `Package` is dropped, each record is merged in
    /// order.
    pub fn parse_debian_packages(&mut self, content: &str, suite: &str, component: &str)
        requires
            old(self).wf(),
        ensures
            final(self)@ == insert_all(
                old(self)@,
                debian_records(content@, suite@, component@),
            ),
            final(self).wf(),
    {
        let cc = chars_of(content);
        let lines = lines_chars(&cc);
        let ghost ls = lines.deep_view();
        let mut sep: Vec<char> = Vec::new();
        sep.push(':');
        sep.push(' ');
        proof {
            reveal_strlit(": ");
            assert(sep@ =~= ": "@);
        }
        let mut stanza: Vec<(String, String)> = Vec::new();
        let mut i: usize = 0;
        proof {
            assert(stanza.deep_view() =~~= Seq::<(Seq<char>, Seq<char>)>::empty());
        }
        while i < lines.len()
            invariant
                self.wf(),
                i <= lines@.len(),
                ls == lines.deep_view(),
                ls.len() == lines@.len(),
                sep@ == ": "@,
                insert_all(old(self)@, debian_records(content@, suite@, component@)) == insert_all(
                    self@,
                    debian_scan(ls, i as int, stanza.deep_view(), suite@, component@),
                ),
            decreases lines@.len() - i,
        {
            let ghost st0 = stanza.deep_view();
            if lines[i].len() == 0 {
                proof {
                    assert(ls[i as int].len() == 0);
                }
                match stanza_lookup(&stanza, "Package") {
                    Some(_) => {
                        let ghost sv = self@;
                        let apkg = self.convert_debian_package(&stanza, suite, component);
                        self.insert(apkg);
                        proof {
                            let recs = stanza_records(st0, suite@, component@);
                            let rest = debian_scan(
                                ls,
                                i + 1,
                                Seq::<(Seq<char>, Seq<char>)>::empty(),
                                suite@,
                                component@,
                            );
                            assert(recs =~~= seq![convert_debian_spec(st0, suite@, component@)]);
                            assert((recs + rest)[0] == convert_debian_spec(
                                st0,
                                suite@,
                                component@,
                            ));
                            assert((recs + rest).drop_first() =~~= rest);
                            assert(insert_all(sv, recs + rest) == insert_all(self@, rest));
                        }
                    },
                    None => {
                        proof {
                            let recs = stanza_records(st0, suite@, component@);
                            let rest = debian_scan(
                                ls,
                                i + 1,
                                Seq::<(Seq<char>, Seq<char>)>::empty(),
                                suite@,
                                component@,
                            );
                            assert(recs + rest =~~= rest);
                        }
                    },
                }
                stanza = Vec::new();
                proof {
                    assert(stanza.deep_view() =~~= Seq::<(Seq<char>, Seq<char>)>::empty());
                }
            } else {
                proof {
                    assert(ls[i as int].len() != 0);
                    assert(ls[i as int] == lines@[i as int]@);
                }
                let line = &lines[i];
                match find_first_sub(line, &sep) {
                    Some(k) => {
                        proof {
                            reveal_strlit(": ");
                            assert(sep@.len() == 2);
                            assert(line@ =~= ls[i as int]);
                            lemma_find_sub(line@, sep@);
                        }
                        let key = string_of(&copy_range(line, 0, k));
                        let value = string_of(&copy_range(line, k + 2, line.len()));
                        stanza.push((key, value));
                        proof {
                            assert(kv_split(ls[i as int]) == Some(
                                (
                                    ls[i as int].subrange(0, k as int),
                                    ls[i as int].subrange(k + 2, ls[i as int].len() as int),
                                ),
                            ));
                            assert(stanza.deep_view() =~~= stanza_step(st0, ls[i as int]));
                        }
                    },
                    None => {
                        proof {
                            assert(stanza_step(st0, ls[i as int]) == st0);
                        }
                    },
                }
            }
            i = i + 1;
        }
        proof {
            assert(debian_scan(ls, ls.len() as int, stanza.deep_view(), suite@, component@)
                =~~= Seq::<PkgModel>::empty());
        }
    }
}

// ------------------------------------------------------------------
// Flatpak
// ------------------------------------------------------------------
/// One application as a Flatpak remote listing reports it.
pub struct FlatpakPackage {
    pub app_id: String,
    pub version: String,
    pub branch: String,
    pub remote: String,
    pub description: String,
}

#[verifier::ext_equal]
pub struct FlatpakModel {
    pub app_id: Seq<char>,
    pub version: Seq<char>,
    pub branch: Seq<char>,
    pub remote: Seq<char>,
    pub description: Seq<char>,
}

impl View for FlatpakPackage {
    type V = FlatpakModel;

    open spec fn view(&self) -> FlatpakModel {
        FlatpakModel {
            app_id: self.app_id@,
            version: self.version@,
            branch: self.branch@,
            remote: self.remote@,
            description: self.description@,
        }
    }
}

/// How one listing entry becomes a canonical record.
pub open spec fn convert_flatpak_spec(m: FlatpakModel) -> PkgModel {
    PkgModel {
        name: m.app_id,
        version: m.version,
        description: m.description,
        source: SourceModel::Flatpak {
            remote: m.remote,
            ref_name: "app/"@ + m.app_id + "/"@ + m.branch,
        },
        dependencies: Seq::empty(),
        build_type: BuildModel::Container { runtime: "org.freedesktop.Platform"@ },
        homepage: None,
        license: Seq::empty(),
        maintainer: None,
    }
}

/// What one listing line contributes: a record when it has at least
/// four tab-separated fields, nothing otherwise.
pub open spec fn flatpak_line_records(line: Seq<char>, remote: Seq<char>) -> Seq<PkgModel> {
    let parts = split_char(line, '\t');
    if parts.len() >= 4 {
        seq![
            convert_flatpak_spec(
                FlatpakModel {
                    app_id: parts[0],
                    version: parts[1],
                    branch: parts[2],
                    remote: remote,
                    description: parts[3],
                },
            ),
        ]
    } else {
        Seq::empty()
    }
}

pub open spec fn flatpak_scan(ls: Seq<Seq<char>>, i: int, remote: Seq<char>) -> Seq<PkgModel>
    decreases ls.len() - i,
{
    if i < 0 || i >= ls.len() {
        Seq::empty()
    } else {
        flatpak_line_records(ls[i], remote) + flatpak_scan(ls, i + 1, remote)
    }
}

/// Every record a remote listing yields; the first line is a header
/// and is discarded.
pub open spec fn flatpak_records(listing: Seq<char>, remote: Seq<char>) -> Seq<PkgModel> {
    flatpak_scan(lines_of(listing), 1, remote)
}

pub proof fn lemma_flatpak_scan_len(ls: Seq<Seq<char>>, i: int, remote: Seq<char>)
    ensures
        flatpak_scan(ls, i, remote).len() <= ls.len() - i || flatpak_scan(ls, i, remote).len()
            == 0,
    decreases ls.len() - i,
{
    if i < 0 || i >= ls.len() {
    } else {
        lemma_flatpak_scan_len(ls, i + 1, remote);
    }
}

impl PackageDatabase {
    /// Map one listing entry to a canonical record.
    pub fn convert_flatpak_package(&self, pkg: FlatpakPackage) -> (r: ApkgPackage)
        ensures
            r@ == convert_flatpak_spec(pkg@),
    {
        let FlatpakPackage { app_id, version, branch, remote, description } = pkg;
        let name = app_id.clone();
        let ref_name = String::from_str("app/").concat(app_id.as_str()).concat("/").concat(
            branch.as_str(),
        );
        let r = ApkgPackage {
            name,
            version,
            description,
            source: PackageSource::Flatpak { remote, ref_name },
            dependencies: Vec::new(),
            build_type: BuildType::Container { runtime: String::from_str(
                "org.freedesktop.Platform",
            ) },
            homepage: None,
            license: Vec::new(),
            maintainer: None,
        };
        proof {
            assert(r.dependencies.deep_view() =~~= Seq::<Seq<char>>::empty());
            assert(r.license.deep_view() =~~= Seq::<Seq<char>>::empty());
            assert(r@ =~~= convert_flatpak_spec(pkg@));
        }
        r
    }

    /// Parse one remote's listing: skip the header line, skip lines
    /// with fewer than four tab-separated fields, merge the rest in
    /// order; the count reports how many records were produced.
    pub fn parse_flatpak_listing(&mut self, listing: &str, remote: &str) -> (count: usize)
        requires
            old(self).wf(),
        ensures
            final(self)@ == insert_all(old(self)@, flatpak_records(listing@, remote@)),
            final(self).wf(),
            count == flatpak_records(listing@, remote@).len(),
    {
        let cc = chars_of(listing);
        let lines = lines_chars(&cc);
        let ghost ls = lines.deep_view();
        let mut count: usize = 0;
        let mut i: usize = 1;
        proof {
            lemma_flatpak_scan_len(ls, 1, remote@);
            assert(flatpak_records(listing@, remote@).len() <= ls.len());
        }
        while i < lines.len()
            invariant
                self.wf(),
                1 <= i,
                i <= lines@.len() || i == 1,
                ls == lines.deep_view(),
                ls.len() == lines@.len(),
                insert_all(old(self)@, flatpak_records(listing@, remote@)) == insert_all(
                    self@,
                    flatpak_scan(ls, i as int, remote@),
                ),
                count + flatpak_scan(ls, i as int, remote@).len() == flatpak_records(
                    listing@,
                    remote@,
                ).len(),
                count <= ls.len(),
                flatpak_records(listing@, remote@).len() <= ls.len(),
            decreases lines@.len() - i,
        {
            let line = &lines[i];
            let parts = split_chars(line, '\t');
            proof {
                assert(line@ =~= ls[i as int]);
                assert(parts.deep_view() == split_char(ls[i as int], '\t'));
                assert(parts.deep_view().len() == parts@.len());
            }
            if parts.len() >= 4 {
                let pkg = FlatpakPackage {
                    app_id: string_of(&parts[0]),
                    version: string_of(&parts[1]),
                    branch: string_of(&parts[2]),
                    remote: remote.to_owned(),
                    description: string_of(&parts[3]),
                };
                let ghost sv = self@;
                let apkg = self.convert_flatpak_package(pkg);
                self.insert(apkg);
                count = count + 1;
                proof {
                    let recs = flatpak_line_records(ls[i as int], remote@);
                    let rest = flatpak_scan(ls, i + 1, remote@);
                    assert(pkg@ =~~= FlatpakModel {
                        app_id: split_char(ls[i as int], '\t')[0],
                        version: split_char(ls[i as int], '\t')[1],
                        branch: split_char(ls[i as int], '\t')[2],
                        remote: remote@,
                        description: split_char(ls[i as int], '\t')[3],
                    });
                    assert(recs =~~= seq![convert_flatpak_spec(pkg@)]);
                    assert((recs + rest)[0] == convert_flatpak_spec(pkg@));
                    assert((recs + rest).drop_first() =~~= rest);
                    assert(insert_all(sv, recs + rest) == insert_all(self@, rest));
                }
            } else {
                proof {
                    let recs = flatpak_line_records(ls[i as int], remote@);
                    let rest = flatpak_scan(ls, i + 1, remote@);
                    assert(recs + rest =~~= rest);
                }
            }
            i = i + 1;
        }
        proof {
            assert(flatpak_scan(ls, i as int, remote@) =~~= Seq::<PkgModel>::empty());
        }
        count
    }
}

// ------------------------------------------------------------------
// Laws
// ------------------------------------------------------------------
/// A stanza without a `Package` key yields no record.
pub proof fn lemma_debian_stanza_needs_package(
    st: Seq<(Seq<char>, Seq<char>)>,
    suite: Seq<char>,
    component: Seq<char>,
)
    requires
        stanza_get(st, "Package"@) is None,
    ensures
        stanza_records(st, suite, component) == Seq::<PkgModel>::empty(),
{
}

/// A stanza holding only a `Package` key yields one record whose
/// version is `unknown` and whose description and dependencies are
/// empty.
pub proof fn lemma_debian_minimal_stanza(nm: Seq<char>, suite: Seq<char>, component: Seq<char>)
    ensures
        stanza_records(seq![("Package"@, nm)], suite, component) == seq![
            PkgModel {
                name: nm,
                version: "unknown"@,
                description: Seq::empty(),
                source: SourceModel::Debian { suite, component, arch: "amd64"@ },
                dependencies: Seq::empty(),
                build_type: BuildModel::Binary { extract_cmd: Some(seq!["dpkg-deb"@, "-x"@]) },
                homepage: None,
                license: Seq::empty(),
                maintainer: None,
            },
        ],
{
    reveal_strlit("Package");
    reveal_strlit("Version");
    reveal_strlit("Description");
    reveal_strlit("Depends");
    reveal_strlit("Homepage");
    reveal_strlit("Maintainer");
    let st = seq![("Package"@, nm)];
    let e: Seq<(Seq<char>, Seq<char>)> = Seq::empty();
    assert(stanza_get(e, "Version"@) is None);
    assert(stanza_get(e, "Description"@) is None);
    assert(stanza_get(e, "Depends"@) is None);
    assert(stanza_get(e, "Homepage"@) is None);
    assert(stanza_get(e, "Maintainer"@) is None);
    assert(st.last() == ("Package"@, nm));
    assert(st.drop_last() =~~= e);
    assert(st.drop_last() == e);
    assert(stanza_get(st, "Package"@) == Some(nm));
    assert("Version"@[0] == 'V' && "Package"@[0] == 'P');
    assert("Version"@ != "Package"@);
    assert(stanza_get(st, "Version"@) is None);
    assert("Description"@.len() != "Package"@.len());
    assert(stanza_get(st, "Description"@) is None);
    assert("Depends"@[2] == 'p' && "Package"@[2] == 'c');
    assert("Depends"@ != "Package"@);
    assert(stanza_get(st, "Depends"@) is None);
    assert("Homepage"@.len() != "Package"@.len());
    assert(stanza_get(st, "Homepage"@) is None);
    assert("Maintainer"@.len() != "Package"@.len());
    assert(stanza_get(st, "Maintainer"@) is None);
    assert(stanza_records(st, suite, component) =~~= seq![
        PkgModel {
            name: nm,
            version: "unknown"@,
            description: Seq::empty(),
            source: SourceModel::Debian { suite, component, arch: "amd64"@ },
            dependencies: Seq::empty(),
            build_type: BuildModel::Binary { extract_cmd: Some(seq!["dpkg-deb"@, "-x"@]) },
            homepage: None,
            license: Seq::empty(),
            maintainer: None,
        },
    ]);
}

/// A listing line with fewer than four tab-separated fields yields no
/// record; one with at least four yields one record whose reference
/// joins the first and third fields.
pub proof fn lemma_flatpak_line(line: Seq<char>, remote: Seq<char>)
    ensures
        split_char(line, '\t').len() < 4 ==> flatpak_line_records(line, remote) == Seq::<
            PkgModel,
        >::empty(),
        split_char(line, '\t').len() >= 4 ==> {
            let parts = split_char(line, '\t');
            let recs = flatpak_line_records(line, remote);
            recs.len() == 1 && recs[0].name == parts[0] && recs[0].version == parts[1]
                && recs[0].description == parts[3] && recs[0].source == (SourceModel::Flatpak {
                remote: remote,
                ref_name: "app/"@ + parts[0] + "/"@ + parts[2],
            })
        },
{
}

} // verus!
