//! The aggregation store: an in-memory collection of canonical
//! records keyed by name, with merge, search and statistics.

use vstd::prelude::*;

use crate::model::{ApkgPackage, DatabaseStats, PkgModel, SourceModel};
use crate::text::{chars_of, contains_chars, contains_sub, lower_of, lowercase};

verus! {

/// No two records share a name.
pub open spec fn unique_names(s: Seq<PkgModel>) -> bool {
    forall|i: int, j: int|
        #![trigger s[i].name, s[j].name]
        0 <= i < j < s.len() ==> s[i].name != s[j].name
}

/// Index of the first record named `name`, or `s.len()` when none is.
pub open spec fn find_name(s: Seq<PkgModel>, name: Seq<char>) -> nat
    decreases s.len(),
{
    if s.len() == 0 {
        0
    } else if s[0].name == name {
        0
    } else {
        1 + find_name(s.drop_first(), name)
    }
}

pub proof fn lemma_find_name(s: Seq<PkgModel>, name: Seq<char>)
    ensures
        find_name(s, name) <= s.len(),
        find_name(s, name) < s.len() ==> s[find_name(s, name) as int].name == name,
        forall|j: int| 0 <= j < find_name(s, name) ==> (#[trigger] s[j]).name != name,
        find_name(s, name) == s.len() ==> forall|j: int|
            0 <= j < s.len() ==> (#[trigger] s[j]).name != name,
    decreases s.len(),
{
    if s.len() == 0 {
    } else if s[0].name == name {
    } else {
        lemma_find_name(s.drop_first(), name);
        let f = find_name(s, name) as int;
        assert forall|j: int| 0 <= j < f implies (#[trigger] s[j]).name != name by {
            if j > 0 {
                assert(s.drop_first()[j - 1] == s[j]);
                assert(s.drop_first()[j - 1].name != name);
            }
        }
        if f == s.len() {
            assert forall|j: int| 0 <= j < s.len() implies (#[trigger] s[j]).name != name by {
                if j > 0 {
                    assert(s.drop_first()[j - 1] == s[j]);
                    assert(s.drop_first()[j - 1].name != name);
                }
            }
        }
    }
}

/// `find_name` returns `i` exactly when `i` is the first index named `name`.
pub proof fn lemma_find_name_is(s: Seq<PkgModel>, name: Seq<char>, i: int)
    requires
        0 <= i <= s.len(),
        i < s.len() ==> s[i].name == name,
        forall|j: int| 0 <= j < i ==> (#[trigger] s[j]).name != name,
        i == s.len() ==> forall|j: int| 0 <= j < s.len() ==> (#[trigger] s[j]).name != name,
    ensures
        find_name(s, name) == i,
{
    lemma_find_name(s, name);
    let f = find_name(s, name) as int;
    if f < i {
        assert(s[f].name != name);
    } else if i < f {
        assert(s[i].name != name);
    }
}

/// Upsert keyed by name: replace the record of the same name, or
/// append when the name is new.
pub open spec fn spec_insert(s: Seq<PkgModel>, p: PkgModel) -> Seq<PkgModel> {
    if find_name(s, p.name) < s.len() {
        s.update(find_name(s, p.name) as int, p)
    } else {
        s.push(p)
    }
}

/// Merge a sequence of records into a store state, first to last.
pub open spec fn insert_all(s: Seq<PkgModel>, ps: Seq<PkgModel>) -> Seq<PkgModel>
    decreases ps.len(),
{
    if ps.len() == 0 {
        s
    } else {
        insert_all(spec_insert(s, ps[0]), ps.drop_first())
    }
}

/// A record matches a query when its lowercased name or description
/// contains the lowercased query.
pub open spec fn pkg_matches(p: PkgModel, q: Seq<char>) -> bool {
    contains_sub(lower_of(p.name), lower_of(q)) || contains_sub(lower_of(p.description), lower_of(q))
}

/// The matching records, in store order.
pub open spec fn matching(s: Seq<PkgModel>, q: Seq<char>) -> Seq<PkgModel>
    decreases s.len(),
{
    if s.len() == 0 {
        Seq::empty()
    } else {
        (if pkg_matches(s[0], q) {
            seq![s[0]]
        } else {
            Seq::empty()
        }) + matching(s.drop_first(), q)
    }
}

/// The source variants a record can carry, for counting.
pub enum SourceKind {
    Aur,
    Debian,
    Flatpak,
    Snap,
    Nixpkgs,
    Source,
}

pub open spec fn kind_of(s: SourceModel) -> SourceKind {
    match s {
        SourceModel::Aur { .. } => SourceKind::Aur,
        SourceModel::Debian { .. } => SourceKind::Debian,
        SourceModel::Flatpak { .. } => SourceKind::Flatpak,
        SourceModel::Snap { .. } => SourceKind::Snap,
        SourceModel::Nixpkgs { .. } => SourceKind::Nixpkgs,
        SourceModel::Source { .. } => SourceKind::Source,
    }
}

/// How many records carry the given source variant.
pub open spec fn count_kind(s: Seq<PkgModel>, k: SourceKind) -> nat
    decreases s.len(),
{
    if s.len() == 0 {
        0
    } else {
        (if kind_of(s[0].source) == k {
            1nat
        } else {
            0nat
        }) + count_kind(s.drop_first(), k)
    }
}

pub proof fn lemma_count_kind_le(s: Seq<PkgModel>, k: SourceKind)
    ensures
        count_kind(s, k) <= s.len(),
    decreases s.len(),
{
    if s.len() > 0 {
        lemma_count_kind_le(s.drop_first(), k);
    }
}

/// The in-memory keyed collection of canonical records.
pub struct PackageDatabase {
    pub packages: Vec<ApkgPackage>,
}

impl View for PackageDatabase {
    type V = Seq<PkgModel>;

    open spec fn view(&self) -> Seq<PkgModel> {
        self.packages.deep_view()
    }
}

impl PackageDatabase {
    pub open spec fn wf(&self) -> bool {
        unique_names(self@)
    }

    /// A fresh, empty store.
    pub fn new() -> (r: PackageDatabase)
        ensures
            r@ == Seq::<PkgModel>::empty(),
            r.wf(),
    {
        let r = PackageDatabase { packages: Vec::new() };
        proof {
            assert(r@ =~~= Seq::<PkgModel>::empty());
        }
        r
    }

    /// Unconditional upsert keyed by `name`: the last writer wins.
    pub fn insert(&mut self, pkg: ApkgPackage)
        requires
            old(self).wf(),
        ensures
            final(self)@ == spec_insert(old(self)@, pkg@),
            final(self).wf(),
    {
        let ghost s0 = self@;
        let ghost nm = pkg@.name;
        let n = self.packages.len();
        let mut i: usize = 0;
        while i < n
            invariant
                *self == *old(self),
                s0 == self@,
                unique_names(s0),
                nm == pkg@.name,
                n == self.packages@.len(),
                i <= n,
                s0.len() == n,
                forall|j: int| 0 <= j < i ==> (#[trigger] s0[j]).name != nm,
            decreases n - i,
        {
            if self.packages[i].name == pkg.name {
                proof {
                    assert(s0[i as int].name == nm);
                    lemma_find_name_is(s0, nm, i as int);
                }
                self.packages.set(i, pkg);
                proof {
                    assert(self@ =~~= s0.update(i as int, pkg@));
                    assert forall|a: int, b: int|
                        #![trigger self@[a].name, self@[b].name]
                        0 <= a < b < self@.len() implies self@[a].name != self@[b].name by {
                        assert(s0[a].name != s0[b].name);
                        assert(self@[a].name == s0[a].name);
                        assert(self@[b].name == s0[b].name);
                    }
                }
                return ;
            }
            i = i + 1;
        }
        proof {
            lemma_find_name_is(s0, nm, s0.len() as int);
        }
        self.packages.push(pkg);
        proof {
            assert(self@ =~~= s0.push(pkg@));
            assert forall|a: int, b: int|
                #![trigger self@[a].name, self@[b].name]
                0 <= a < b < self@.len() implies self@[a].name != self@[b].name by {
                if b < s0.len() {
                    assert(s0[a].name != s0[b].name);
                } else {
                    assert(s0[a].name != nm);
                }
            }
        }
    }

    /// Case-insensitive substring search over names and descriptions;
    /// results come in store order.
    pub fn search(&self, query: &str) -> (r: Vec<&ApkgPackage>)
        ensures
            r.deep_view() == matching(self@, query@),
    {
        let lq = lowercase(query);
        let lqc = chars_of(lq.as_str());
        let mut r: Vec<&ApkgPackage> = Vec::new();
        let n = self.packages.len();
        let mut i: usize = 0;
        proof {
            assert(self@.skip(0) =~~= self@);
        }
        while i < n
            invariant
                n == self.packages@.len(),
                i <= n,
                lqc@ == lower_of(query@),
                matching(self@, query@) == r.deep_view() + matching(self@.skip(i as int), query@),
            decreases n - i,
        {
            proof {
                assert(self@.skip(i as int).drop_first() =~~= self@.skip(i + 1));
                assert(self@.skip(i as int)[0] == self@[i as int]);
            }
            let p = &self.packages[i];
            let ln = lowercase(p.name.as_str());
            let lnc = chars_of(ln.as_str());
            let ghost prev = r.deep_view();
            if contains_chars(&lnc, &lqc) {
                r.push(p);
                proof {
                    assert(r.deep_view() =~~= prev.push(self@[i as int]));
                    assert(matching(self@, query@) =~~= r.deep_view() + matching(
                        self@.skip(i + 1),
                        query@,
                    ));
                }
            } else {
                let ld = lowercase(p.description.as_str());
                let ldc = chars_of(ld.as_str());
                if contains_chars(&ldc, &lqc) {
                    r.push(p);
                    proof {
                        assert(r.deep_view() =~~= prev.push(self@[i as int]));
                        assert(matching(self@, query@) =~~= r.deep_view() + matching(
                            self@.skip(i + 1),
                            query@,
                        ));
                    }
                } else {
                    proof {
                        assert(matching(self@, query@) =~~= r.deep_view() + matching(
                            self@.skip(i + 1),
                            query@,
                        ));
                    }
                }
            }
            i = i + 1;
        }
        proof {
            assert(self@.skip(n as int) =~~= Seq::<PkgModel>::empty());
            assert(matching(self@, query@) =~~= r.deep_view());
        }
        r
    }

    /// The record named exactly `name`, if any.
    pub fn get(&self, name: &str) -> (r: Option<&ApkgPackage>)
        ensures
            match r {
                Some(p) => find_name(self@, name@) < self@.len() && p@ == self@[find_name(
                    self@,
                    name@,
                ) as int],
                None => find_name(self@, name@) == self@.len(),
            },
    {
        let name_s = name.to_owned();
        let n = self.packages.len();
        let mut i: usize = 0;
        while i < n
            invariant
                name_s@ == name@,
                n == self.packages@.len(),
                i <= n,
                forall|j: int| 0 <= j < i ==> (#[trigger] self@[j]).name != name@,
            decreases n - i,
        {
            if self.packages[i].name.eq(&name_s) {
                proof {
                    lemma_find_name_is(self@, name@, i as int);
                }
                return Some(&self.packages[i]);
            }
            i = i + 1;
        }
        proof {
            lemma_find_name_is(self@, name@, self@.len() as int);
        }
        None
    }

    /// Per-variant counts over the whole store.
    pub fn stats(&self) -> (r: DatabaseStats)
        ensures
            r.total_count == self@.len(),
            r.aur_count == count_kind(self@, SourceKind::Aur),
            r.debian_count == count_kind(self@, SourceKind::Debian),
            r.flatpak_count == count_kind(self@, SourceKind::Flatpak),
            r.snap_count == count_kind(self@, SourceKind::Snap),
            r.nixpkgs_count == count_kind(self@, SourceKind::Nixpkgs),
            r.source_count == count_kind(self@, SourceKind::Source),
    {
        let mut aur: usize = 0;
        let mut debian: usize = 0;
        let mut flatpak: usize = 0;
        let mut snap: usize = 0;
        let mut nixpkgs: usize = 0;
        let mut source: usize = 0;
        let n = self.packages.len();
        let mut i: usize = 0;
        proof {
            assert(self@.skip(0) =~~= self@);
            lemma_count_kind_le(self@, SourceKind::Aur);
            lemma_count_kind_le(self@, SourceKind::Debian);
            lemma_count_kind_le(self@, SourceKind::Flatpak);
            lemma_count_kind_le(self@, SourceKind::Snap);
            lemma_count_kind_le(self@, SourceKind::Nixpkgs);
            lemma_count_kind_le(self@, SourceKind::Source);
        }
        while i < n
            invariant
                n == self.packages@.len(),
                i <= n,
                aur + debian + flatpak + snap + nixpkgs + source <= i,
                count_kind(self@, SourceKind::Aur) == aur + count_kind(
                    self@.skip(i as int),
                    SourceKind::Aur,
                ),
                count_kind(self@, SourceKind::Debian) == debian + count_kind(
                    self@.skip(i as int),
                    SourceKind::Debian,
                ),
                count_kind(self@, SourceKind::Flatpak) == flatpak + count_kind(
                    self@.skip(i as int),
                    SourceKind::Flatpak,
                ),
                count_kind(self@, SourceKind::Snap) == snap + count_kind(
                    self@.skip(i as int),
                    SourceKind::Snap,
                ),
                count_kind(self@, SourceKind::Nixpkgs) == nixpkgs + count_kind(
                    self@.skip(i as int),
                    SourceKind::Nixpkgs,
                ),
                count_kind(self@, SourceKind::Source) == source + count_kind(
                    self@.skip(i as int),
                    SourceKind::Source,
                ),
            decreases n - i,
        {
            proof {
                assert(self@.skip(i as int).drop_first() =~~= self@.skip(i + 1));
                assert(self@.skip(i as int)[0] == self@[i as int]);
            }
            match &self.packages[i].source {
                crate::model::PackageSource::Aur { .. } => {
                    aur = aur + 1;
                },
                crate::model::PackageSource::Debian { .. } => {
                    debian = debian + 1;
                },
                crate::model::PackageSource::Flatpak { .. } => {
                    flatpak = flatpak + 1;
                },
                crate::model::PackageSource::Snap { .. } => {
                    snap = snap + 1;
                },
                crate::model::PackageSource::Nixpkgs { .. } => {
                    nixpkgs = nixpkgs + 1;
                },
                crate::model::PackageSource::Source { .. } => {
                    source = source + 1;
                },
            }
            i = i + 1;
        }
        proof {
            assert(self@.skip(n as int) =~~= Seq::<PkgModel>::empty());
        }
        DatabaseStats {
            total_count: n,
            aur_count: aur,
            debian_count: debian,
            flatpak_count: flatpak,
            snap_count: snap,
            nixpkgs_count: nixpkgs,
            source_count: source,
        }
    }
}

/// Search is case-insensitive: two queries with the same lowercased
/// form select exactly the same records.
pub proof fn lemma_search_case_insensitive(s: Seq<PkgModel>, q1: Seq<char>, q2: Seq<char>)
    requires
        lower_of(q1) == lower_of(q2),
    ensures
        matching(s, q1) == matching(s, q2),
    decreases s.len(),
{
    if s.len() > 0 {
        lemma_search_case_insensitive(s.drop_first(), q1, q2);
    }
}

/// Merging records whose names are fresh and pairwise distinct
/// simply appends them in order.
pub proof fn lemma_insert_all_fresh(s: Seq<PkgModel>, ps: Seq<PkgModel>)
    requires
        unique_names(s + ps),
    ensures
        insert_all(s, ps) == s + ps,
    decreases ps.len(),
{
    if ps.len() == 0 {
        assert(insert_all(s, ps) =~~= s + ps);
    } else {
        let p = ps[0];
        assert forall|j: int| 0 <= j < s.len() implies (#[trigger] s[j]).name != p.name by {
            assert((s + ps)[j].name != (s + ps)[s.len() as int].name);
        }
        lemma_find_name_is(s, p.name, s.len() as int);
        assert(spec_insert(s, p) == s.push(p));
        assert(s.push(p) + ps.drop_first() =~~= s + ps);
        lemma_insert_all_fresh(s.push(p), ps.drop_first());
        assert(insert_all(s, ps) == insert_all(s.push(p), ps.drop_first()));
    }
}

/// Inserting the same record twice leaves the store exactly as one
/// insertion does: `search` and `stats` see the same sequence.
pub proof fn lemma_insert_idempotent(s: Seq<PkgModel>, p: PkgModel)
    ensures
        spec_insert(spec_insert(s, p), p) == spec_insert(s, p),
{
    lemma_find_name(s, p.name);
    let f = find_name(s, p.name) as int;
    let s1 = spec_insert(s, p);
    if f < s.len() {
        assert forall|j: int| 0 <= j < f implies (#[trigger] s1[j]).name != p.name by {
            assert(s[j].name != p.name);
        }
        lemma_find_name_is(s1, p.name, f);
        assert(spec_insert(s1, p) =~~= s1);
    } else {
        assert forall|j: int| 0 <= j < s.len() implies (#[trigger] s1[j]).name != p.name by {
            assert(s[j].name != p.name);
        }
        lemma_find_name_is(s1, p.name, s.len() as int);
        assert(spec_insert(s1, p) =~~= s1);
    }
}

} // verus!
