//! The persisted snapshot: a line-oriented text encoding of the whole
//! store, written in full on every save and parsed back on load.
//!
//! Every logical line is escaped (backslash and newline) and ended
//! with a newline; lists and options are framed with one-character
//! marker lines, and each record's source and build variants with a
//! word of their own.

use vstd::prelude::*;

use crate::model::{ApkgPackage, BuildModel, BuildType, PackageSource, PkgModel, SourceModel};
use crate::store::{insert_all, lemma_insert_all_fresh, unique_names, PackageDatabase};
use crate::text::{append_chars, chars_eq, chars_of, string_of};

verus! {

// ------------------------------------------------------------------
// Escaping one logical line
// ------------------------------------------------------------------
pub open spec fn esc_char(c: char) -> Seq<char> {
    if c == '\\' {
        seq!['\\', '\\']
    } else if c == '\n' {
        seq!['\\', 'n']
    } else {
        seq![c]
    }
}

/// The escaped form of a logical line: free of raw newlines.
pub open spec fn esc(s: Seq<char>) -> Seq<char>
    decreases s.len(),
{
    if s.len() == 0 {
        Seq::empty()
    } else {
        esc(s.drop_last()) + esc_char(s.last())
    }
}

/// Undo `esc`; fails on a dangling or unknown escape.
pub open spec fn unesc(s: Seq<char>) -> Option<Seq<char>>
    decreases s.len(),
{
    if s.len() == 0 {
        Some(Seq::empty())
    } else if s[0] == '\\' {
        if s.len() < 2 {
            None
        } else {
            let c = if s[1] == '\\' {
                Some('\\')
            } else if s[1] == 'n' {
                Some('\n')
            } else {
                None
            };
            match c {
                None => None,
                Some(c0) => match unesc(s.skip(2)) {
                    None => None,
                    Some(t) => Some(seq![c0] + t),
                },
            }
        }
    } else {
        match unesc(s.drop_first()) {
            None => None,
            Some(t) => Some(seq![s[0]] + t),
        }
    }
}

pub proof fn lemma_esc_first(s: Seq<char>)
    requires
        s.len() > 0,
    ensures
        esc(s) == esc_char(s[0]) + esc(s.drop_first()),
    decreases s.len(),
{
    if s.len() == 1 {
        assert(s.drop_last() =~= Seq::<char>::empty());
        assert(s.drop_first() =~= Seq::<char>::empty());
        assert(s.last() == s[0]);
        assert(esc(s) =~= esc_char(s[0]) + esc(s.drop_first()));
    } else {
        lemma_esc_first(s.drop_last());
        assert(s.drop_last().drop_first() =~= s.drop_first().drop_last());
        assert(s.drop_last()[0] == s[0]);
        assert(s.drop_first().last() == s.last());
        assert(esc(s) == esc(s.drop_last()) + esc_char(s.last()));
        assert(esc(s.drop_last()) == esc_char(s[0]) + esc(s.drop_first().drop_last()));
        assert(esc(s.drop_first()) == esc(s.drop_first().drop_last()) + esc_char(s.last()));
        assert(esc(s) =~= esc_char(s[0]) + esc(s.drop_first()));
    }
}

/// Escaped text never holds a raw newline.
pub proof fn lemma_esc_no_newline(s: Seq<char>)
    ensures
        forall|i: int| 0 <= i < esc(s).len() ==> esc(s)[i] != '\n',
    decreases s.len(),
{
    if s.len() > 0 {
        lemma_esc_no_newline(s.drop_last());
        assert forall|i: int| 0 <= i < esc(s).len() implies #[trigger] esc(s)[i] != '\n' by {
            if i < esc(s.drop_last()).len() {
                assert(esc(s)[i] == esc(s.drop_last())[i]);
            } else {
                assert(esc(s)[i] == esc_char(s.last())[i - esc(s.drop_last()).len()]);
            }
        }
    }
}

/// Escaping loses nothing: `unesc` undoes `esc` exactly.
pub proof fn lemma_unesc_esc(s: Seq<char>)
    ensures
        unesc(esc(s)) == Some(s),
    decreases s.len(),
{
    if s.len() == 0 {
    } else {
        lemma_esc_first(s);
        lemma_unesc_esc(s.drop_first());
        let e = esc(s);
        let c = s[0];
        if c == '\\' {
            assert(e[0] == '\\' && e[1] == '\\');
            assert(e.skip(2) =~= esc(s.drop_first()));
            assert(unesc(e) == Some(seq![c] + s.drop_first()));
            assert(seq![c] + s.drop_first() =~= s);
        } else if c == '\n' {
            assert(e[0] == '\\' && e[1] == 'n');
            assert(e.skip(2) =~= esc(s.drop_first()));
            assert(unesc(e) == Some(seq![c] + s.drop_first()));
            assert(seq![c] + s.drop_first() =~= s);
        } else {
            assert(e[0] == c);
            assert(e.drop_first() =~= esc(s.drop_first()));
            assert(unesc(e) == Some(seq![c] + s.drop_first()));
            assert(seq![c] + s.drop_first() =~= s);
        }
    }
}

// ------------------------------------------------------------------
// Lines of the snapshot text
// ------------------------------------------------------------------
/// Each logical line, escaped and newline-terminated, in order.
pub open spec fn join_lines(ls: Seq<Seq<char>>) -> Seq<char>
    decreases ls.len(),
{
    if ls.len() == 0 {
        Seq::empty()
    } else {
        esc(ls[0]) + seq!['\n'] + join_lines(ls.drop_first())
    }
}

/// The logical lines of a snapshot text, or nothing when a line is
/// unterminated or wrongly escaped.
pub open spec fn parse_lines(s: Seq<char>) -> Option<Seq<Seq<char>>> {
    let parts = crate::text::split_char(s, '\n');
    if parts.last() != Seq::<char>::empty() {
        None
    } else {
        let raw = parts.drop_last();
        if forall|i: int| 0 <= i < raw.len() ==> (#[trigger] unesc(raw[i])) is Some {
            Some(Seq::new(raw.len(), |i: int| unesc(raw[i])->Some_0))
        } else {
            None
        }
    }
}

/// Splitting after a newline-free prefix peels that prefix off.
pub proof fn lemma_split_prefix(a: Seq<char>, b: Seq<char>)
    requires
        forall|i: int| 0 <= i < a.len() ==> a[i] != '\n',
    ensures
        crate::text::split_char(a + seq!['\n'] + b, '\n') == seq![a] + crate::text::split_char(
            b,
            '\n',
        ),
    decreases a.len(),
{
    let whole = a + seq!['\n'] + b;
    if a.len() == 0 {
        assert(whole[0] == '\n');
        assert(whole.drop_first() =~= b);
        assert(crate::text::split_char(whole, '\n') =~~= seq![a] + crate::text::split_char(
            b,
            '\n',
        ));
    } else {
        assert forall|i: int| 0 <= i < a.drop_first().len() implies #[trigger] a.drop_first()[i]
            != '\n' by {
            assert(a.drop_first()[i] == a[i + 1]);
        }
        lemma_split_prefix(a.drop_first(), b);
        assert(whole[0] == a[0]);
        assert(whole[0] != '\n');
        assert(whole.drop_first() =~= a.drop_first() + seq!['\n'] + b);
        let r = crate::text::split_char(whole.drop_first(), '\n');
        assert(r == seq![a.drop_first()] + crate::text::split_char(b, '\n'));
        assert(r[0] == a.drop_first());
        crate::text::lemma_split_char_len(whole.drop_first(), '\n');
        assert(seq![whole[0]] + r[0] =~= a);
        assert(crate::text::split_char(whole, '\n') =~~= seq![a] + crate::text::split_char(
            b,
            '\n',
        ));
    }
}

/// Parsing undoes joining, line by line.
pub proof fn lemma_parse_join_lines(ls: Seq<Seq<char>>)
    ensures
        parse_lines(join_lines(ls)) == Some(ls),
    decreases ls.len(),
{
    if ls.len() == 0 {
        let parts = crate::text::split_char(Seq::<char>::empty(), '\n');
        assert(parts =~~= seq![Seq::<char>::empty()]);
        assert(parts.last() == Seq::<char>::empty());
        let raw = parts.drop_last();
        assert(raw =~~= Seq::<Seq<char>>::empty());
        assert(parse_lines(join_lines(ls)) == Some(Seq::new(0, |i: int| unesc(raw[i])->Some_0)));
        assert(Seq::new(0, |i: int| unesc(raw[i])->Some_0) =~~= ls);
    } else {
        lemma_parse_join_lines(ls.drop_first());
        lemma_esc_no_newline(ls[0]);
        let rest = join_lines(ls.drop_first());
        assert(join_lines(ls) == esc(ls[0]) + seq!['\n'] + rest);
        lemma_split_prefix(esc(ls[0]), rest);
        let parts = crate::text::split_char(join_lines(ls), '\n');
        let sub_parts = crate::text::split_char(rest, '\n');
        assert(parts == seq![esc(ls[0])] + sub_parts);
        crate::text::lemma_split_char_len(rest, '\n');
        assert(parts.last() == sub_parts.last());
        assert(sub_parts.last() == Seq::<char>::empty());
        let raw = parts.drop_last();
        let sub_raw = sub_parts.drop_last();
        assert(raw =~~= seq![esc(ls[0])] + sub_raw);
        lemma_unesc_esc(ls[0]);
        assert forall|i: int| 0 <= i < raw.len() implies (#[trigger] unesc(raw[i])) is Some by {
            if i == 0 {
            } else {
                assert(raw[i] == sub_raw[i - 1]);
                assert(unesc(sub_raw[i - 1]) is Some);
            }
        }
        let out = Seq::new(raw.len(), |i: int| unesc(raw[i])->Some_0);
        let sub_out = Seq::new(sub_raw.len(), |i: int| unesc(sub_raw[i])->Some_0);
        assert(sub_out == ls.drop_first());
        assert forall|i: int| 0 <= i < out.len() implies out[i] == ls[i] by {
            if i == 0 {
            } else {
                assert(raw[i] == sub_raw[i - 1]);
                assert(out[i] == sub_out[i - 1]);
            }
        }
        assert(out =~~= ls);
    }
}

// ------------------------------------------------------------------
// Logical lines of one store state
// ------------------------------------------------------------------
pub open spec fn opt_lines(o: Option<Seq<char>>) -> Seq<Seq<char>> {
    match o {
        None => seq![seq!['-']],
        Some(s) => seq![seq!['+'], s],
    }
}

pub open spec fn list_lines(l: Seq<Seq<char>>) -> Seq<Seq<char>>
    decreases l.len(),
{
    if l.len() == 0 {
        seq![seq!['.']]
    } else {
        seq![seq!['+'], l[0]] + list_lines(l.drop_first())
    }
}

pub open spec fn source_lines(s: SourceModel) -> Seq<Seq<char>> {
    match s {
        SourceModel::Aur { pkgbase, url } => seq!["aur"@, pkgbase, url],
        SourceModel::Debian { suite, component, arch } => seq!["debian"@, suite, component, arch],
        SourceModel::Flatpak { remote, ref_name } => seq!["flatpak"@, remote, ref_name],
        SourceModel::Snap { channel } => seq!["snap"@, channel],
        SourceModel::Nixpkgs { attr } => seq!["nixpkgs"@, attr],
        SourceModel::Source { url, vcs_type } => seq!["src"@, url] + opt_lines(vcs_type),
    }
}

pub open spec fn build_lines(b: BuildModel) -> Seq<Seq<char>> {
    match b {
        BuildModel::SourceBuild { build_cmd } => seq!["sourcebuild"@] + list_lines(build_cmd),
        BuildModel::Binary { extract_cmd } => match extract_cmd {
            Some(cmd) => seq!["binary"@, seq!['+']] + list_lines(cmd),
            None => seq!["binary"@, seq!['-']],
        },
        BuildModel::Container { runtime } => seq!["container"@, runtime],
    }
}

pub open spec fn pkg_lines(p: PkgModel) -> Seq<Seq<char>> {
    seq![p.name, p.version, p.description] + source_lines(p.source) + list_lines(p.dependencies)
        + build_lines(p.build_type) + opt_lines(p.homepage) + list_lines(p.license) + opt_lines(
        p.maintainer,
    )
}

pub open spec fn pkgs_lines(m: Seq<PkgModel>) -> Seq<Seq<char>>
    decreases m.len(),
{
    if m.len() == 0 {
        seq![seq!['.']]
    } else {
        seq![seq!['+']] + pkg_lines(m[0]) + pkgs_lines(m.drop_first())
    }
}

/// The full snapshot text of a store state.
pub open spec fn snapshot_of(m: Seq<PkgModel>) -> Seq<char> {
    join_lines(pkgs_lines(m))
}

// ------------------------------------------------------------------
// Parsing the logical lines back into records
// ------------------------------------------------------------------
pub open spec fn p_opt(ls: Seq<Seq<char>>, i: int) -> Option<(Option<Seq<char>>, int)> {
    if i < 0 || i >= ls.len() {
        None
    } else if ls[i] == seq!['-'] {
        Some((None, i + 1))
    } else if ls[i] == seq!['+'] {
        if i + 1 < ls.len() {
            Some((Some(ls[i + 1]), i + 2))
        } else {
            None
        }
    } else {
        None
    }
}

pub open spec fn p_list(ls: Seq<Seq<char>>, i: int) -> Option<(Seq<Seq<char>>, int)>
    decreases ls.len() - i,
{
    if i < 0 || i >= ls.len() {
        None
    } else if ls[i] == seq!['.'] {
        Some((Seq::empty(), i + 1))
    } else if ls[i] == seq!['+'] {
        if i + 1 < ls.len() {
            match p_list(ls, i + 2) {
                None => None,
                Some((rest, j)) => Some((seq![ls[i + 1]] + rest, j)),
            }
        } else {
            None
        }
    } else {
        None
    }
}

pub open spec fn p_source(ls: Seq<Seq<char>>, i: int) -> Option<(SourceModel, int)> {
    if i < 0 || i >= ls.len() {
        None
    } else if ls[i] == "aur"@ {
        if i + 2 < ls.len() {
            Some((SourceModel::Aur { pkgbase: ls[i + 1], url: ls[i + 2] }, i + 3))
        } else {
            None
        }
    } else if ls[i] == "debian"@ {
        if i + 3 < ls.len() {
            Some(
                (
                    SourceModel::Debian { suite: ls[i + 1], component: ls[i + 2], arch: ls[i + 3] },
                    i + 4,
                ),
            )
        } else {
            None
        }
    } else if ls[i] == "flatpak"@ {
        if i + 2 < ls.len() {
            Some((SourceModel::Flatpak { remote: ls[i + 1], ref_name: ls[i + 2] }, i + 3))
        } else {
            None
        }
    } else if ls[i] == "snap"@ {
        if i + 1 < ls.len() {
            Some((SourceModel::Snap { channel: ls[i + 1] }, i + 2))
        } else {
            None
        }
    } else if ls[i] == "nixpkgs"@ {
        if i + 1 < ls.len() {
            Some((SourceModel::Nixpkgs { attr: ls[i + 1] }, i + 2))
        } else {
            None
        }
    } else if ls[i] == "src"@ {
        if i + 1 < ls.len() {
            match p_opt(ls, i + 2) {
                None => None,
                Some((o, j)) => Some((SourceModel::Source { url: ls[i + 1], vcs_type: o }, j)),
            }
        } else {
            None
        }
    } else {
        None
    }
}

pub open spec fn p_build(ls: Seq<Seq<char>>, i: int) -> Option<(BuildModel, int)> {
    if i < 0 || i >= ls.len() {
        None
    } else if ls[i] == "sourcebuild"@ {
        match p_list(ls, i + 1) {
            None => None,
            Some((cmd, j)) => Some((BuildModel::SourceBuild { build_cmd: cmd }, j)),
        }
    } else if ls[i] == "binary"@ {
        if i + 1 >= ls.len() {
            None
        } else if ls[i + 1] == seq!['-'] {
            Some((BuildModel::Binary { extract_cmd: None }, i + 2))
        } else if ls[i + 1] == seq!['+'] {
            match p_list(ls, i + 2) {
                None => None,
                Some((cmd, j)) => Some((BuildModel::Binary { extract_cmd: Some(cmd) }, j)),
            }
        } else {
            None
        }
    } else if ls[i] == "container"@ {
        if i + 1 < ls.len() {
            Some((BuildModel::Container { runtime: ls[i + 1] }, i + 2))
        } else {
            None
        }
    } else {
        None
    }
}

pub open spec fn p_pkg(ls: Seq<Seq<char>>, i: int) -> Option<(PkgModel, int)> {
    if i < 0 || i + 3 > ls.len() {
        None
    } else {
        match p_source(ls, i + 3) {
            None => None,
            Some((src, j1)) => match p_list(ls, j1) {
                None => None,
                Some((deps, j2)) => match p_build(ls, j2) {
                    None => None,
                    Some((bt, j3)) => match p_opt(ls, j3) {
                        None => None,
                        Some((home, j4)) => match p_list(ls, j4) {
                            None => None,
                            Some((lic, j5)) => match p_opt(ls, j5) {
                                None => None,
                                Some((maint, j6)) => Some(
                                    (
                                        PkgModel {
                                            name: ls[i],
                                            version: ls[i + 1],
                                            description: ls[i + 2],
                                            source: src,
                                            dependencies: deps,
                                            build_type: bt,
                                            homepage: home,
                                            license: lic,
                                            maintainer: maint,
                                        },
                                        j6,
                                    ),
                                ),
                            },
                        },
                    },
                },
            },
        }
    }
}

pub proof fn lemma_p_opt_advances(ls: Seq<Seq<char>>, i: int)
    ensures
        p_opt(ls, i) matches Some((o, j)) ==> i < j <= ls.len(),
{
}

pub proof fn lemma_p_list_advances(ls: Seq<Seq<char>>, i: int)
    ensures
        p_list(ls, i) matches Some((l, j)) ==> i < j <= ls.len(),
    decreases ls.len() - i,
{
    if 0 <= i < ls.len() && ls[i] == seq!['+'] && i + 1 < ls.len() {
        lemma_p_list_advances(ls, i + 2);
    }
}

pub proof fn lemma_p_source_advances(ls: Seq<Seq<char>>, i: int)
    ensures
        p_source(ls, i) matches Some((s, j)) ==> i < j <= ls.len(),
{
    lemma_p_opt_advances(ls, i + 2);
}

pub proof fn lemma_p_build_advances(ls: Seq<Seq<char>>, i: int)
    ensures
        p_build(ls, i) matches Some((b, j)) ==> i < j <= ls.len(),
{
    lemma_p_list_advances(ls, i + 1);
    lemma_p_list_advances(ls, i + 2);
}

pub proof fn lemma_p_pkg_advances(ls: Seq<Seq<char>>, i: int)
    ensures
        p_pkg(ls, i) matches Some((p, j)) ==> i < j <= ls.len(),
{
    if p_pkg(ls, i) is Some {
        lemma_p_source_advances(ls, i + 3);
        let (src, j1) = p_source(ls, i + 3)->Some_0;
        lemma_p_list_advances(ls, j1);
        let (deps, j2) = p_list(ls, j1)->Some_0;
        lemma_p_build_advances(ls, j2);
        let (bt, j3) = p_build(ls, j2)->Some_0;
        lemma_p_opt_advances(ls, j3);
        let (home, j4) = p_opt(ls, j3)->Some_0;
        lemma_p_list_advances(ls, j4);
        let (lic, j5) = p_list(ls, j4)->Some_0;
        lemma_p_opt_advances(ls, j5);
    }
}

pub open spec fn p_pkgs(ls: Seq<Seq<char>>, i: int) -> Option<(Seq<PkgModel>, int)>
    decreases ls.len() - i via p_pkgs_dec
{
    if i < 0 || i >= ls.len() {
        None
    } else if ls[i] == seq!['.'] {
        Some((Seq::empty(), i + 1))
    } else if ls[i] == seq!['+'] {
        match p_pkg(ls, i + 1) {
            None => None,
            Some((p, j)) => match p_pkgs(ls, j) {
                None => None,
                Some((rest, k)) => Some((seq![p] + rest, k)),
            },
        }
    } else {
        None
    }
}

#[via_fn]
proof fn p_pkgs_dec(ls: Seq<Seq<char>>, i: int) {
    if 0 <= i < ls.len() && ls[i] != seq!['.'] && ls[i] == seq!['+'] {
        lemma_p_pkg_advances(ls, i + 1);
    }
}

/// The store state a snapshot text encodes, if it is well formed.
pub open spec fn parse_snapshot(s: Seq<char>) -> Option<Seq<PkgModel>> {
    match parse_lines(s) {
        None => None,
        Some(ls) => match p_pkgs(ls, 0) {
            None => None,
            Some((m, j)) => if j == ls.len() {
                Some(m)
            } else {
                None
            },
        },
    }
}

// ------------------------------------------------------------------
// Parsing undoes encoding, block by block
// ------------------------------------------------------------------
/// A window equal to a concatenation splits into its two halves.
proof fn lemma_window_concat(ls: Seq<Seq<char>>, i: int, a: Seq<Seq<char>>, b: Seq<Seq<char>>)
    requires
        0 <= i,
        i + a.len() + b.len() <= ls.len(),
        ls.subrange(i, i + a.len() + b.len()) == a + b,
    ensures
        ls.subrange(i, i + a.len()) == a,
        ls.subrange(i + a.len(), i + a.len() + b.len()) == b,
{
    let w = ls.subrange(i, i + a.len() + b.len());
    assert forall|k: int| 0 <= k < a.len() implies ls.subrange(i, i + a.len())[k] == a[k] by {
        assert(w[k] == (a + b)[k]);
    }
    assert(ls.subrange(i, i + a.len()) =~= a);
    assert forall|k: int| 0 <= k < b.len() implies ls.subrange(
        i + a.len(),
        i + a.len() + b.len(),
    )[k] == b[k] by {
        assert(w[a.len() + k] == (a + b)[a.len() + k]);
    }
    assert(ls.subrange(i + a.len(), i + a.len() + b.len()) =~= b);
}

proof fn lemma_window_index(ls: Seq<Seq<char>>, i: int, a: Seq<Seq<char>>, k: int)
    requires
        0 <= i,
        i + a.len() <= ls.len(),
        ls.subrange(i, i + a.len()) == a,
        0 <= k < a.len(),
    ensures
        ls[i + k] == a[k],
{
    assert(ls.subrange(i, i + a.len())[k] == a[k]);
}

proof fn lemma_marks_distinct()
    ensures
        "aur"@ != "debian"@,
        "flatpak"@ != "aur"@ && "flatpak"@ != "debian"@,
        "snap"@ != "aur"@ && "snap"@ != "debian"@ && "snap"@ != "flatpak"@,
        "nixpkgs"@ != "aur"@ && "nixpkgs"@ != "debian"@ && "nixpkgs"@ != "flatpak"@ && "nixpkgs"@
            != "snap"@,
        "src"@ != "aur"@ && "src"@ != "debian"@ && "src"@ != "flatpak"@ && "src"@ != "snap"@
            && "src"@ != "nixpkgs"@,
        "binary"@ != "sourcebuild"@,
        "container"@ != "sourcebuild"@ && "container"@ != "binary"@,
        "aur"@ != seq!['.'] && "aur"@ != seq!['+'] && "aur"@ != seq!['-'],
        "aur"@.len() == 3 && "debian"@.len() == 6 && "flatpak"@.len() == 7 && "snap"@.len() == 4
            && "nixpkgs"@.len() == 7 && "src"@.len() == 3 && "sourcebuild"@.len() == 11
            && "binary"@.len() == 6 && "container"@.len() == 9,
{
    reveal_strlit("aur");
    reveal_strlit("debian");
    reveal_strlit("flatpak");
    reveal_strlit("snap");
    reveal_strlit("nixpkgs");
    reveal_strlit("src");
    reveal_strlit("sourcebuild");
    reveal_strlit("binary");
    reveal_strlit("container");
    assert("aur"@.len() == 3);
    assert("debian"@.len() == 6);
    assert("flatpak"@.len() == 7);
    assert("snap"@.len() == 4);
    assert("nixpkgs"@.len() == 7);
    assert("src"@.len() == 3);
    assert("sourcebuild"@.len() == 11);
    assert("binary"@.len() == 6);
    assert("container"@.len() == 9);
    assert("flatpak"@[0] == 'f' && "nixpkgs"@[0] == 'n');
    assert("src"@[0] == 's' && "aur"@[0] == 'a');
    assert(seq!['.'].len() == 1 && seq!['+'].len() == 1 && seq!['-'].len() == 1);
}

proof fn lemma_marker_chars()
    ensures
        seq!['+'] != seq!['-'],
        seq!['+'] != seq!['.'],
        seq!['-'] != seq!['.'],
{
    assert(seq!['+'][0] == '+');
    assert(seq!['-'][0] == '-');
    assert(seq!['.'][0] == '.');
}

proof fn lemma_p_opt_rt(ls: Seq<Seq<char>>, i: int, o: Option<Seq<char>>)
    requires
        0 <= i,
        i + opt_lines(o).len() <= ls.len(),
        ls.subrange(i, i + opt_lines(o).len()) == opt_lines(o),
    ensures
        p_opt(ls, i) == Some((o, i + opt_lines(o).len())),
{
    match o {
        None => {
            lemma_window_index(ls, i, opt_lines(o), 0);
        },
        Some(s) => {
            lemma_window_index(ls, i, opt_lines(o), 0);
            lemma_window_index(ls, i, opt_lines(o), 1);
            lemma_marker_chars();
        },
    }
}

proof fn lemma_p_list_rt(ls: Seq<Seq<char>>, i: int, l: Seq<Seq<char>>)
    requires
        0 <= i,
        i + list_lines(l).len() <= ls.len(),
        ls.subrange(i, i + list_lines(l).len()) == list_lines(l),
    ensures
        p_list(ls, i) == Some((l, i + list_lines(l).len())),
    decreases l.len(),
{
    if l.len() == 0 {
        lemma_window_index(ls, i, list_lines(l), 0);
        assert(p_list(ls, i) == Some((Seq::<Seq<char>>::empty(), i + 1)));
        assert(Seq::<Seq<char>>::empty() =~~= l);
    } else {
        let head: Seq<Seq<char>> = seq![seq!['+'], l[0]];
        let tail = list_lines(l.drop_first());
        assert(list_lines(l) == head + tail);
        lemma_window_concat(ls, i, head, tail);
        lemma_window_index(ls, i, head, 0);
        lemma_window_index(ls, i, head, 1);
        lemma_marker_chars();
        lemma_p_list_rt(ls, i + 2, l.drop_first());
        assert(seq![ls[i + 1]] + l.drop_first() =~~= l);
    }
}

proof fn lemma_p_source_rt(ls: Seq<Seq<char>>, i: int, s: SourceModel)
    requires
        0 <= i,
        i + source_lines(s).len() <= ls.len(),
        ls.subrange(i, i + source_lines(s).len()) == source_lines(s),
    ensures
        p_source(ls, i) == Some((s, i + source_lines(s).len())),
{
    lemma_marks_distinct();
    let b = source_lines(s);
    match s {
        SourceModel::Aur { pkgbase, url } => {
            lemma_window_index(ls, i, b, 0);
            lemma_window_index(ls, i, b, 1);
            lemma_window_index(ls, i, b, 2);
        },
        SourceModel::Debian { suite, component, arch } => {
            lemma_window_index(ls, i, b, 0);
            lemma_window_index(ls, i, b, 1);
            lemma_window_index(ls, i, b, 2);
            lemma_window_index(ls, i, b, 3);
        },
        SourceModel::Flatpak { remote, ref_name } => {
            lemma_window_index(ls, i, b, 0);
            lemma_window_index(ls, i, b, 1);
            lemma_window_index(ls, i, b, 2);
        },
        SourceModel::Snap { channel } => {
            lemma_window_index(ls, i, b, 0);
            lemma_window_index(ls, i, b, 1);
        },
        SourceModel::Nixpkgs { attr } => {
            lemma_window_index(ls, i, b, 0);
            lemma_window_index(ls, i, b, 1);
        },
        SourceModel::Source { url, vcs_type } => {
            let head: Seq<Seq<char>> = seq!["src"@, url];
            let tail = opt_lines(vcs_type);
            assert(b == head + tail);
            lemma_window_concat(ls, i, head, tail);
            lemma_window_index(ls, i, head, 0);
            lemma_window_index(ls, i, head, 1);
            lemma_p_opt_rt(ls, i + 2, vcs_type);
        },
    }
}

proof fn lemma_p_build_rt(ls: Seq<Seq<char>>, i: int, bt: BuildModel)
    requires
        0 <= i,
        i + build_lines(bt).len() <= ls.len(),
        ls.subrange(i, i + build_lines(bt).len()) == build_lines(bt),
    ensures
        p_build(ls, i) == Some((bt, i + build_lines(bt).len())),
{
    lemma_marks_distinct();
    let b = build_lines(bt);
    match bt {
        BuildModel::SourceBuild { build_cmd } => {
            let head: Seq<Seq<char>> = seq!["sourcebuild"@];
            let tail = list_lines(build_cmd);
            assert(b == head + tail);
            lemma_window_concat(ls, i, head, tail);
            lemma_window_index(ls, i, head, 0);
            lemma_p_list_rt(ls, i + 1, build_cmd);
        },
        BuildModel::Binary { extract_cmd } => {
            match extract_cmd {
                Some(cmd) => {
                    let head: Seq<Seq<char>> = seq!["binary"@, seq!['+']];
                    let tail = list_lines(cmd);
                    assert(b == head + tail);
                    lemma_window_concat(ls, i, head, tail);
                    lemma_window_index(ls, i, head, 0);
                    lemma_window_index(ls, i, head, 1);
                    lemma_marker_chars();
                    assert("binary"@ != seq!['+'] && "binary"@ != seq!['-']);
                    lemma_p_list_rt(ls, i + 2, cmd);
                },
                None => {
                    lemma_window_index(ls, i, b, 0);
                    lemma_window_index(ls, i, b, 1);
                },
            }
        },
        BuildModel::Container { runtime } => {
            lemma_window_index(ls, i, b, 0);
            lemma_window_index(ls, i, b, 1);
        },
    }
}

proof fn lemma_p_pkg_rt(ls: Seq<Seq<char>>, i: int, p: PkgModel)
    requires
        0 <= i,
        i + pkg_lines(p).len() <= ls.len(),
        ls.subrange(i, i + pkg_lines(p).len()) == pkg_lines(p),
    ensures
        p_pkg(ls, i) == Some((p, i + pkg_lines(p).len())),
{
    let a1: Seq<Seq<char>> = seq![p.name, p.version, p.description];
    let a2 = source_lines(p.source);
    let a3 = list_lines(p.dependencies);
    let a4 = build_lines(p.build_type);
    let a5 = opt_lines(p.homepage);
    let a6 = list_lines(p.license);
    let a7 = opt_lines(p.maintainer);
    let b = pkg_lines(p);
    assert(b == a1 + a2 + a3 + a4 + a5 + a6 + a7);
    assert(b =~~= (a1 + a2 + a3 + a4 + a5 + a6) + a7);
    lemma_window_concat(ls, i, a1 + a2 + a3 + a4 + a5 + a6, a7);
    assert(a1 + a2 + a3 + a4 + a5 + a6 =~~= (a1 + a2 + a3 + a4 + a5) + a6);
    lemma_window_concat(ls, i, a1 + a2 + a3 + a4 + a5, a6);
    assert(a1 + a2 + a3 + a4 + a5 =~~= (a1 + a2 + a3 + a4) + a5);
    lemma_window_concat(ls, i, a1 + a2 + a3 + a4, a5);
    assert(a1 + a2 + a3 + a4 =~~= (a1 + a2 + a3) + a4);
    lemma_window_concat(ls, i, a1 + a2 + a3, a4);
    assert(a1 + a2 + a3 =~~= (a1 + a2) + a3);
    lemma_window_concat(ls, i, a1 + a2, a3);
    lemma_window_concat(ls, i, a1, a2);
    lemma_window_index(ls, i, a1, 0);
    lemma_window_index(ls, i, a1, 1);
    lemma_window_index(ls, i, a1, 2);
    let j1 = i + a1.len() + a2.len();
    let j2 = j1 + a3.len();
    let j3 = j2 + a4.len();
    let j4 = j3 + a5.len();
    let j5 = j4 + a6.len();
    lemma_p_source_rt(ls, i + 3, p.source);
    lemma_p_list_rt(ls, j1, p.dependencies);
    lemma_p_build_rt(ls, j2, p.build_type);
    lemma_p_opt_rt(ls, j3, p.homepage);
    lemma_p_list_rt(ls, j4, p.license);
    lemma_p_opt_rt(ls, j5, p.maintainer);
    let q = p_pkg(ls, i)->Some_0.0;
    assert(q =~~= p);
}

proof fn lemma_p_pkgs_rt(ls: Seq<Seq<char>>, i: int, m: Seq<PkgModel>)
    requires
        0 <= i,
        i + pkgs_lines(m).len() <= ls.len(),
        ls.subrange(i, i + pkgs_lines(m).len()) == pkgs_lines(m),
    ensures
        p_pkgs(ls, i) == Some((m, i + pkgs_lines(m).len())),
    decreases m.len(),
{
    lemma_marks_distinct();
    if m.len() == 0 {
        lemma_window_index(ls, i, pkgs_lines(m), 0);
        assert(p_pkgs(ls, i) == Some((Seq::<PkgModel>::empty(), i + 1)));
        assert(Seq::<PkgModel>::empty() =~~= m);
    } else {
        let head: Seq<Seq<char>> = seq![seq!['+']];
        let mid = pkg_lines(m[0]);
        let tail = pkgs_lines(m.drop_first());
        assert(pkgs_lines(m) == head + mid + tail);
        assert(pkgs_lines(m) =~~= (head + mid) + tail);
        lemma_window_concat(ls, i, head + mid, tail);
        lemma_window_concat(ls, i, head, mid);
        lemma_window_index(ls, i, head, 0);
        lemma_marker_chars();
        lemma_p_pkg_rt(ls, i + 1, m[0]);
        lemma_p_pkgs_rt(ls, i + 1 + mid.len(), m.drop_first());
        assert(seq![m[0]] + m.drop_first() =~~= m);
    }
}

/// Parsing a saved snapshot yields exactly the records that were saved.
pub proof fn lemma_parse_snapshot_of(m: Seq<PkgModel>)
    ensures
        parse_snapshot(snapshot_of(m)) == Some(m),
{
    lemma_parse_join_lines(pkgs_lines(m));
    let ls = pkgs_lines(m);
    assert(ls.subrange(0, ls.len() as int) =~~= ls);
    lemma_p_pkgs_rt(ls, 0, m);
}

/// Round trip: a save of any well-formed store state, loaded into a
/// fresh store, reproduces the key set and every field in order.
pub proof fn lemma_save_load_round_trip(m: Seq<PkgModel>)
    requires
        unique_names(m),
    ensures
        parse_snapshot(snapshot_of(m)) == Some(m),
        insert_all(Seq::empty(), m) == m,
{
    lemma_parse_snapshot_of(m);
    assert(Seq::<PkgModel>::empty() + m =~~= m);
    lemma_insert_all_fresh(Seq::empty(), m);
}

// ------------------------------------------------------------------
// Executable encoding
// ------------------------------------------------------------------
/// The escaped form of one logical line.
fn esc_chars(v: &Vec<char>) -> (r: Vec<char>)
    ensures
        r@ == esc(v@),
{
    let mut r: Vec<char> = Vec::new();
    let mut i: usize = 0;
    while i < v.len()
        invariant
            i <= v@.len(),
            r@ == esc(v@.take(i as int)),
        decreases v@.len() - i,
    {
        proof {
            assert(v@.take(i + 1).drop_last() =~= v@.take(i as int));
            assert(v@.take(i + 1).last() == v@[i as int]);
        }
        let c = v[i];
        if c == '\\' {
            r.push('\\');
            r.push('\\');
        } else if c == '\n' {
            r.push('\\');
            r.push('n');
        } else {
            r.push(c);
        }
        i = i + 1;
        proof {
            assert(r@ =~= esc(v@.take(i as int)));
        }
    }
    proof {
        assert(v@.take(v@.len() as int) =~= v@);
    }
    r
}

/// One marker line.
fn mark(c: char) -> (r: Vec<char>)
    ensures
        r@ == seq![c],
{
    let mut r: Vec<char> = Vec::new();
    r.push(c);
    proof {
        assert(r@ =~= seq![c]);
    }
    r
}

fn push_str_line(out: &mut Vec<Vec<char>>, s: &String)
    ensures
        final(out).deep_view() == old(out).deep_view().push(s@),
{
    let ghost o0 = out.deep_view();
    out.push(chars_of(s.as_str()));
    proof {
        assert(out.deep_view() =~~= o0.push(s@));
    }
}

fn push_mark_line(out: &mut Vec<Vec<char>>, c: char)
    ensures
        final(out).deep_view() == old(out).deep_view().push(seq![c]),
{
    let ghost o0 = out.deep_view();
    out.push(mark(c));
    proof {
        assert(out.deep_view() =~~= o0.push(seq![c]));
    }
}

fn push_opt_lines(out: &mut Vec<Vec<char>>, o: &Option<String>)
    ensures
        final(out).deep_view() == old(out).deep_view() + opt_lines(o.deep_view()),
{
    let ghost o0 = out.deep_view();
    match o {
        None => {
            push_mark_line(out, '-');
            proof {
                assert(out.deep_view() =~~= o0 + opt_lines(o.deep_view()));
            }
        },
        Some(s) => {
            push_mark_line(out, '+');
            push_str_line(out, s);
            proof {
                assert(out.deep_view() =~~= o0 + opt_lines(o.deep_view()));
            }
        },
    }
}

fn push_list_lines(out: &mut Vec<Vec<char>>, l: &Vec<String>)
    ensures
        final(out).deep_view() == old(out).deep_view() + list_lines(l.deep_view()),
{
    let ghost o0 = out.deep_view();
    let ghost ldv = l.deep_view();
    let mut k: usize = 0;
    proof {
        assert(ldv.skip(0) =~~= ldv);
    }
    while k < l.len()
        invariant
            k <= l@.len(),
            ldv == l.deep_view(),
            ldv.len() == l@.len(),
            o0 + list_lines(ldv) == out.deep_view() + list_lines(ldv.skip(k as int)),
        decreases l@.len() - k,
    {
        proof {
            assert(ldv.skip(k as int).drop_first() =~~= ldv.skip(k + 1));
            assert(ldv.skip(k as int)[0] == ldv[k as int]);
            assert(ldv[k as int] == l@[k as int]@);
        }
        let ghost before = out.deep_view();
        push_mark_line(out, '+');
        push_str_line(out, &l[k]);
        k = k + 1;
        proof {
            assert(out.deep_view() =~~= before + seq![seq!['+'], ldv[k - 1]]);
            assert(list_lines(ldv.skip(k - 1)) == seq![seq!['+'], ldv[k - 1]] + list_lines(
                ldv.skip(k as int),
            ));
            assert(o0 + list_lines(ldv) =~~= out.deep_view() + list_lines(ldv.skip(k as int)));
        }
    }
    proof {
        assert(ldv.skip(ldv.len() as int) =~~= Seq::<Seq<char>>::empty());
    }
    push_mark_line(out, '.');
    proof {
        assert(list_lines(Seq::<Seq<char>>::empty()) =~~= seq![seq!['.']]);
        assert(out.deep_view() =~~= o0 + list_lines(ldv));
    }
}

fn push_source_lines(out: &mut Vec<Vec<char>>, s: &PackageSource)
    ensures
        final(out).deep_view() == old(out).deep_view() + source_lines(s@),
{
    let ghost o0 = out.deep_view();
    match s {
        PackageSource::Aur { pkgbase, url } => {
            out.push(chars_of("aur"));
            push_str_line(out, pkgbase);
            push_str_line(out, url);
            proof {
                assert(out.deep_view() =~~= o0 + source_lines(s@));
            }
        },
        PackageSource::Debian { suite, component, arch } => {
            out.push(chars_of("debian"));
            push_str_line(out, suite);
            push_str_line(out, component);
            push_str_line(out, arch);
            proof {
                assert(out.deep_view() =~~= o0 + source_lines(s@));
            }
        },
        PackageSource::Flatpak { remote, ref_name } => {
            out.push(chars_of("flatpak"));
            push_str_line(out, remote);
            push_str_line(out, ref_name);
            proof {
                assert(out.deep_view() =~~= o0 + source_lines(s@));
            }
        },
        PackageSource::Snap { channel } => {
            out.push(chars_of("snap"));
            push_str_line(out, channel);
            proof {
                assert(out.deep_view() =~~= o0 + source_lines(s@));
            }
        },
        PackageSource::Nixpkgs { attr } => {
            out.push(chars_of("nixpkgs"));
            push_str_line(out, attr);
            proof {
                assert(out.deep_view() =~~= o0 + source_lines(s@));
            }
        },
        PackageSource::Source { url, vcs_type } => {
            out.push(chars_of("src"));
            push_str_line(out, url);
            push_opt_lines(out, vcs_type);
            proof {
                assert(out.deep_view() =~~= o0 + source_lines(s@));
            }
        },
    }
}

fn push_build_lines(out: &mut Vec<Vec<char>>, b: &BuildType)
    ensures
        final(out).deep_view() == old(out).deep_view() + build_lines(b@),
{
    let ghost o0 = out.deep_view();
    match b {
        BuildType::SourceBuild { build_cmd } => {
            out.push(chars_of("sourcebuild"));
            push_list_lines(out, build_cmd);
            proof {
                assert(out.deep_view() =~~= o0 + build_lines(b@));
            }
        },
        BuildType::Binary { extract_cmd } => {
            out.push(chars_of("binary"));
            match extract_cmd {
                Some(cmd) => {
                    push_mark_line(out, '+');
                    push_list_lines(out, cmd);
                    proof {
                        assert(out.deep_view() =~~= o0 + build_lines(b@));
                    }
                },
                None => {
                    push_mark_line(out, '-');
                    proof {
                        assert(out.deep_view() =~~= o0 + build_lines(b@));
                    }
                },
            }
        },
        BuildType::Container { runtime } => {
            out.push(chars_of("container"));
            push_str_line(out, runtime);
            proof {
                assert(out.deep_view() =~~= o0 + build_lines(b@));
            }
        },
    }
}

fn push_pkg_lines(out: &mut Vec<Vec<char>>, p: &ApkgPackage)
    ensures
        final(out).deep_view() == old(out).deep_view() + pkg_lines(p@),
{
    let ghost o0 = out.deep_view();
    push_str_line(out, &p.name);
    push_str_line(out, &p.version);
    push_str_line(out, &p.description);
    push_source_lines(out, &p.source);
    push_list_lines(out, &p.dependencies);
    push_build_lines(out, &p.build_type);
    push_opt_lines(out, &p.homepage);
    push_list_lines(out, &p.license);
    push_opt_lines(out, &p.maintainer);
    proof {
        assert(out.deep_view() =~~= o0 + pkg_lines(p@));
    }
}

/// Join the escaped lines with newlines, executable form.
fn join_exec(lines: &Vec<Vec<char>>) -> (r: Vec<char>)
    ensures
        r@ == join_lines(lines.deep_view()),
{
    let ghost ldv = lines.deep_view();
    let mut r: Vec<char> = Vec::new();
    let mut k: usize = 0;
    proof {
        assert(ldv.skip(0) =~~= ldv);
        assert(r@ + join_lines(ldv) =~= join_lines(ldv));
    }
    while k < lines.len()
        invariant
            k <= lines@.len(),
            ldv == lines.deep_view(),
            ldv.len() == lines@.len(),
            r@ + join_lines(ldv.skip(k as int)) == join_lines(ldv),
        decreases lines@.len() - k,
    {
        proof {
            assert(ldv.skip(k as int).drop_first() =~~= ldv.skip(k + 1));
            assert(ldv.skip(k as int)[0] == ldv[k as int]);
            assert(ldv[k as int] =~= lines@[k as int]@);
        }
        let e = esc_chars(&lines[k]);
        append_chars(&mut r, &e);
        r.push('\n');
        k = k + 1;
        proof {
            assert(join_lines(ldv.skip(k - 1)) == esc(ldv[k - 1]) + seq!['\n'] + join_lines(
                ldv.skip(k as int),
            ));
            assert(r@ + join_lines(ldv.skip(k as int)) =~= join_lines(ldv));
        }
    }
    proof {
        assert(ldv.skip(ldv.len() as int) =~~= Seq::<Seq<char>>::empty());
        assert(r@ =~= join_lines(ldv));
    }
    r
}

// ------------------------------------------------------------------
// Executable decoding
// ------------------------------------------------------------------
/// Undo the escaping of one line, executable form.
fn unesc_chars(v: &Vec<char>) -> (r: Option<Vec<char>>)
    ensures
        match r {
            Some(u) => unesc(v@) == Some(u@),
            None => unesc(v@) is None,
        },
{
    let mut acc: Vec<char> = Vec::new();
    let mut i: usize = 0;
    proof {
        assert(v@.skip(0) =~= v@);
        if unesc(v@) is Some {
            assert(acc@ + unesc(v@)->Some_0 =~= unesc(v@)->Some_0);
        }
    }
    while i < v.len()
        invariant
            i <= v@.len(),
            match unesc(v@.skip(i as int)) {
                Some(t) => unesc(v@) == Some(acc@ + t),
                None => unesc(v@) is None,
            },
        decreases v@.len() - i,
    {
        proof {
            assert(v@.skip(i as int)[0] == v@[i as int]);
            assert(v@.skip(i as int).drop_first() =~= v@.skip(i + 1));
        }
        let c = v[i];
        if c == '\\' {
            if i + 1 >= v.len() {
                proof {
                    assert(v@.skip(i as int).len() < 2);
                    assert(unesc(v@.skip(i as int)) is None);
                }
                return None;
            }
            proof {
                assert(v@.skip(i as int)[1] == v@[i + 1]);
                assert(v@.skip(i as int).skip(2) =~= v@.skip(i + 2));
            }
            let d = v[i + 1];
            let ghost a0 = acc@;
            if d == '\\' {
                acc.push('\\');
            } else if d == 'n' {
                acc.push('\n');
            } else {
                proof {
                    assert(unesc(v@.skip(i as int)) is None);
                }
                return None;
            }
            i = i + 2;
            proof {
                match unesc(v@.skip(i as int)) {
                    Some(t) => {
                        assert(a0 + (seq![acc@.last()] + t) =~= acc@ + t);
                    },
                    None => {},
                }
            }
        } else {
            let ghost a0 = acc@;
            acc.push(c);
            i = i + 1;
            proof {
                match unesc(v@.skip(i as int)) {
                    Some(t) => {
                        assert(a0 + (seq![c] + t) =~= acc@ + t);
                    },
                    None => {},
                }
            }
        }
    }
    proof {
        assert(v@.skip(v@.len() as int) =~= Seq::<char>::empty());
        assert(unesc(v@) == Some(acc@ + Seq::<char>::empty()));
        assert(acc@ + Seq::<char>::empty() =~= acc@);
    }
    Some(acc)
}

fn pe_opt(ls: &Vec<Vec<char>>, i: usize) -> (r: Option<(Option<String>, usize)>)
    ensures
        match r {
            Some(p) => p_opt(ls.deep_view(), i as int) == Some((p.0.deep_view(), p.1 as int)),
            None => p_opt(ls.deep_view(), i as int) is None,
        },
{
    let ghost lsd = ls.deep_view();
    if i >= ls.len() {
        return None;
    }
    proof {
        assert(lsd[i as int] =~= ls@[i as int]@);
    }
    let line = &ls[i];
    if line.len() == 1 && line[0] == '-' {
        proof {
            assert(lsd[i as int] =~= seq!['-']);
        }
        Some((None, i + 1))
    } else if line.len() == 1 && line[0] == '+' {
        proof {
            assert(lsd[i as int] =~= seq!['+']);
            assert(seq!['+'][0] == '+' && seq!['-'][0] == '-');
            assert(lsd[i as int] != seq!['-']);
        }
        if ls.len() - i > 1 {
            let v = string_of(&ls[i + 1]);
            proof {
                assert(lsd[i + 1] =~= ls@[i + 1]@);
                assert(Some(v).deep_view() =~~= Some(lsd[i + 1]));
            }
            Some((Some(v), i + 2))
        } else {
            None
        }
    } else {
        proof {
            if lsd[i as int] == seq!['-'] {
                assert(lsd[i as int].len() == 1 && lsd[i as int][0] == '-');
                assert(false);
            }
            if lsd[i as int] == seq!['+'] {
                assert(lsd[i as int].len() == 1 && lsd[i as int][0] == '+');
                assert(false);
            }
        }
        None
    }
}

fn pe_list(ls: &Vec<Vec<char>>, i: usize) -> (r: Option<(Vec<String>, usize)>)
    ensures
        match r {
            Some(p) => p_list(ls.deep_view(), i as int) == Some((p.0.deep_view(), p.1 as int)),
            None => p_list(ls.deep_view(), i as int) is None,
        },
{
    let ghost lsd = ls.deep_view();
    let mut acc: Vec<String> = Vec::new();
    let mut j: usize = i;
    proof {
        assert(acc.deep_view() =~~= Seq::<Seq<char>>::empty());
        match p_list(lsd, i as int) {
            Some((l2, k)) => {
                assert(acc.deep_view() + l2 =~~= l2);
            },
            None => {},
        }
    }
    while j < ls.len()
        invariant
            lsd == ls.deep_view(),
            lsd.len() == ls@.len(),
            i <= j,
            p_list(lsd, i as int) == (match p_list(lsd, j as int) {
                Some((l2, k)) => Some((acc.deep_view() + l2, k)),
                None => None,
            }),
        decreases ls@.len() - j,
    {
        proof {
            assert(lsd[j as int] =~= ls@[j as int]@);
            assert(seq!['+'][0] == '+' && seq!['.'][0] == '.');
        }
        let line = &ls[j];
        if line.len() == 1 && line[0] == '.' {
            proof {
                assert(lsd[j as int] =~= seq!['.']);
                assert(p_list(lsd, j as int) == Some(
                    (Seq::<Seq<char>>::empty(), j as int + 1),
                ));
                assert(acc.deep_view() + Seq::<Seq<char>>::empty() =~~= acc.deep_view());
                assert(p_list(lsd, i as int) == Some((acc.deep_view(), j as int + 1)));
            }
            return Some((acc, j + 1));
        } else if line.len() == 1 && line[0] == '+' {
            proof {
                assert(lsd[j as int] =~= seq!['+']);
                assert(lsd[j as int] != seq!['.']);
            }
            if ls.len() - j > 1 {
                let ghost a0 = acc.deep_view();
                acc.push(string_of(&ls[j + 1]));
                proof {
                    assert(lsd[j + 1] =~= ls@[j + 1]@);
                    assert(acc.deep_view() =~~= a0.push(lsd[j + 1]));
                }
                j = j + 2;
                proof {
                    assert(lsd[j - 2] == seq!['+']);
                    assert(lsd[j - 2] != seq!['.']);
                    assert(j - 1 < lsd.len());
                    match p_list(lsd, j as int) {
                        Some((l2, k)) => {
                            assert(p_list(lsd, j - 2) == Some((seq![lsd[j - 1]] + l2, k)));
                            assert(a0 + (seq![lsd[j - 1]] + l2) =~~= acc.deep_view() + l2);
                        },
                        None => {
                            assert(p_list(lsd, j - 2) is None);
                        },
                    }
                }
            } else {
                proof {
                    assert(p_list(lsd, j as int) is None);
                    assert(p_list(lsd, i as int) is None);
                }
                return None;
            }
        } else {
            proof {
                if lsd[j as int] == seq!['.'] {
                    assert(lsd[j as int].len() == 1 && lsd[j as int][0] == '.');
                    assert(false);
                }
                if lsd[j as int] == seq!['+'] {
                    assert(lsd[j as int].len() == 1 && lsd[j as int][0] == '+');
                    assert(false);
                }
                assert(p_list(lsd, j as int) is None);
            }
            return None;
        }
    }
    proof {
        assert(p_list(lsd, j as int) is None);
    }
    None
}

fn line_is(line: &Vec<char>, tag: &str) -> (r: bool)
    ensures
        r == (line@ == tag@),
{
    let tc = chars_of(tag);
    chars_eq(line, &tc)
}

fn pe_source(ls: &Vec<Vec<char>>, i: usize) -> (r: Option<(PackageSource, usize)>)
    ensures
        match r {
            Some(p) => p_source(ls.deep_view(), i as int) == Some((p.0@, p.1 as int)),
            None => p_source(ls.deep_view(), i as int) is None,
        },
{
    let ghost lsd = ls.deep_view();
    if i >= ls.len() {
        return None;
    }
    proof {
        assert(lsd[i as int] =~= ls@[i as int]@);
    }
    let line = &ls[i];
    if line_is(line, "aur") {
        if ls.len() - i > 2 {
            proof {
                assert(lsd[i + 1] =~= ls@[i + 1]@);
                assert(lsd[i + 2] =~= ls@[i + 2]@);
            }
            let s = PackageSource::Aur {
                pkgbase: string_of(&ls[i + 1]),
                url: string_of(&ls[i + 2]),
            };
            Some((s, i + 3))
        } else {
            None
        }
    } else if line_is(line, "debian") {
        if ls.len() - i > 3 {
            proof {
                assert(lsd[i + 1] =~= ls@[i + 1]@);
                assert(lsd[i + 2] =~= ls@[i + 2]@);
                assert(lsd[i + 3] =~= ls@[i + 3]@);
            }
            let s = PackageSource::Debian {
                suite: string_of(&ls[i + 1]),
                component: string_of(&ls[i + 2]),
                arch: string_of(&ls[i + 3]),
            };
            Some((s, i + 4))
        } else {
            None
        }
    } else if line_is(line, "flatpak") {
        if ls.len() - i > 2 {
            proof {
                assert(lsd[i + 1] =~= ls@[i + 1]@);
                assert(lsd[i + 2] =~= ls@[i + 2]@);
            }
            let s = PackageSource::Flatpak {
                remote: string_of(&ls[i + 1]),
                ref_name: string_of(&ls[i + 2]),
            };
            Some((s, i + 3))
        } else {
            None
        }
    } else if line_is(line, "snap") {
        if ls.len() - i > 1 {
            proof {
                assert(lsd[i + 1] =~= ls@[i + 1]@);
            }
            Some((PackageSource::Snap { channel: string_of(&ls[i + 1]) }, i + 2))
        } else {
            None
        }
    } else if line_is(line, "nixpkgs") {
        if ls.len() - i > 1 {
            proof {
                assert(lsd[i + 1] =~= ls@[i + 1]@);
            }
            Some((PackageSource::Nixpkgs { attr: string_of(&ls[i + 1]) }, i + 2))
        } else {
            None
        }
    } else if line_is(line, "src") {
        if ls.len() - i > 1 {
            proof {
                assert(lsd[i + 1] =~= ls@[i + 1]@);
            }
            let url = string_of(&ls[i + 1]);
            match pe_opt(ls, i + 2) {
                None => None,
                Some((o, j)) => {
                    let s = PackageSource::Source { url, vcs_type: o };
                    proof {
                        assert(s@ =~~= p_source(lsd, i as int)->Some_0.0);
                    }
                    Some((s, j))
                },
            }
        } else {
            None
        }
    } else {
        None
    }
}

fn pe_build(ls: &Vec<Vec<char>>, i: usize) -> (r: Option<(BuildType, usize)>)
    ensures
        match r {
            Some(p) => p_build(ls.deep_view(), i as int) == Some((p.0@, p.1 as int)),
            None => p_build(ls.deep_view(), i as int) is None,
        },
{
    let ghost lsd = ls.deep_view();
    if i >= ls.len() {
        return None;
    }
    proof {
        assert(lsd[i as int] =~= ls@[i as int]@);
    }
    let line = &ls[i];
    if line_is(line, "sourcebuild") {
        match pe_list(ls, i + 1) {
            None => None,
            Some((cmd, j)) => Some((BuildType::SourceBuild { build_cmd: cmd }, j)),
        }
    } else if line_is(line, "binary") {
        if ls.len() - i <= 1 {
            return None;
        }
        proof {
            assert(lsd[i + 1] =~= ls@[i + 1]@);
            assert(seq!['+'][0] == '+' && seq!['-'][0] == '-');
        }
        let m = &ls[i + 1];
        if m.len() == 1 && m[0] == '-' {
            proof {
                assert(lsd[i + 1] =~= seq!['-']);
            }
            Some((BuildType::Binary { extract_cmd: None }, i + 2))
        } else if m.len() == 1 && m[0] == '+' {
            proof {
                assert(lsd[i + 1] =~= seq!['+']);
                assert(lsd[i + 1] != seq!['-']);
            }
            match pe_list(ls, i + 2) {
                None => None,
                Some((cmd, j)) => Some((BuildType::Binary { extract_cmd: Some(cmd) }, j)),
            }
        } else {
            proof {
                if lsd[i + 1] == seq!['-'] {
                    assert(lsd[i + 1].len() == 1 && lsd[i + 1][0] == '-');
                    assert(false);
                }
                if lsd[i + 1] == seq!['+'] {
                    assert(lsd[i + 1].len() == 1 && lsd[i + 1][0] == '+');
                    assert(false);
                }
            }
            None
        }
    } else if line_is(line, "container") {
        if ls.len() - i > 1 {
            proof {
                assert(lsd[i + 1] =~= ls@[i + 1]@);
            }
            Some((BuildType::Container { runtime: string_of(&ls[i + 1]) }, i + 2))
        } else {
            None
        }
    } else {
        None
    }
}

fn pe_pkg(ls: &Vec<Vec<char>>, i: usize) -> (r: Option<(ApkgPackage, usize)>)
    ensures
        match r {
            Some(p) => p_pkg(ls.deep_view(), i as int) == Some((p.0@, p.1 as int)),
            None => p_pkg(ls.deep_view(), i as int) is None,
        },
{
    let ghost lsd = ls.deep_view();
    if ls.len() < 3 || i > ls.len() - 3 {
        return None;
    }
    proof {
        assert(lsd[i as int] =~= ls@[i as int]@);
        assert(lsd[i + 1] =~= ls@[i + 1]@);
        assert(lsd[i + 2] =~= ls@[i + 2]@);
    }
    let name = string_of(&ls[i]);
    let version = string_of(&ls[i + 1]);
    let description = string_of(&ls[i + 2]);
    match pe_source(ls, i + 3) {
        None => None,
        Some((source, j1)) => match pe_list(ls, j1) {
            None => None,
            Some((dependencies, j2)) => match pe_build(ls, j2) {
                None => None,
                Some((build_type, j3)) => match pe_opt(ls, j3) {
                    None => None,
                    Some((homepage, j4)) => match pe_list(ls, j4) {
                        None => None,
                        Some((license, j5)) => match pe_opt(ls, j5) {
                            None => None,
                            Some((maintainer, j6)) => {
                                let p = ApkgPackage {
                                    name,
                                    version,
                                    description,
                                    source,
                                    dependencies,
                                    build_type,
                                    homepage,
                                    license,
                                    maintainer,
                                };
                                proof {
                                    assert(p@ =~~= p_pkg(lsd, i as int)->Some_0.0);
                                }
                                Some((p, j6))
                            },
                        },
                    },
                },
            },
        },
    }
}

/// An error parsing a snapshot text.
#[derive(Debug)]
pub enum SnapshotError {
    Malformed,
}

impl PackageDatabase {
    /// The snapshot text of the whole store.
    pub fn save(&self) -> (r: String)
        ensures
            r@ == snapshot_of(self@),
    {
        let ghost m = self@;
        let mut out: Vec<Vec<char>> = Vec::new();
        let mut k: usize = 0;
        proof {
            assert(m.skip(0) =~~= m);
            assert(out.deep_view() =~~= Seq::<Seq<char>>::empty());
        }
        while k < self.packages.len()
            invariant
                k <= self.packages@.len(),
                m == self@,
                m.len() == self.packages@.len(),
                out.deep_view() + pkgs_lines(m.skip(k as int)) == pkgs_lines(m),
            decreases self.packages@.len() - k,
        {
            proof {
                assert(m.skip(k as int).drop_first() =~~= m.skip(k + 1));
                assert(m.skip(k as int)[0] == m[k as int]);
            }
            let ghost before = out.deep_view();
            push_mark_line(&mut out, '+');
            push_pkg_lines(&mut out, &self.packages[k]);
            k = k + 1;
            proof {
                assert(out.deep_view() =~~= before + (seq![seq!['+']] + pkg_lines(m[k - 1])));
                assert(pkgs_lines(m.skip(k - 1)) == seq![seq!['+']] + pkg_lines(m[k - 1])
                    + pkgs_lines(m.skip(k as int)));
                assert(out.deep_view() + pkgs_lines(m.skip(k as int)) =~~= pkgs_lines(m));
            }
        }
        proof {
            assert(m.skip(m.len() as int) =~~= Seq::<PkgModel>::empty());
        }
        push_mark_line(&mut out, '.');
        proof {
            assert(pkgs_lines(Seq::<PkgModel>::empty()) =~~= seq![seq!['.']]);
            assert(out.deep_view() =~~= pkgs_lines(m));
        }
        let joined = join_exec(&out);
        string_of(&joined)
    }

    /// Replace the whole store with the records of a snapshot text;
    /// a malformed text is rejected and the store is left untouched.
    pub fn load(&mut self, data: &str) -> (r: Result<(), SnapshotError>)
        ensures
            match parse_snapshot(data@) {
                Some(m) => r is Ok && final(self)@ == insert_all(Seq::empty(), m)
                    && final(self).wf(),
                None => r is Err && final(self)@ == old(self)@,
            },
    {
        match decode_lines(data) {
            None => Err(SnapshotError::Malformed),
            Some(lines) => {
                let ghost lsd = lines.deep_view();
                match pe_all(&lines) {
                    None => Err(SnapshotError::Malformed),
                    Some(pkgs) => {
                        let ghost m = pkgs.deep_view();
                        proof {
                            assert(parse_snapshot(data@) == Some(m));
                        }
                        self.packages = Vec::new();
                        proof {
                            assert(self@ =~~= Seq::<PkgModel>::empty());
                        }
                        let mut rest = pkgs;
                        proof {
                            assert(rest.deep_view() =~~= m);
                        }
                        while rest.len() > 0
                            invariant
                                self.wf(),
                                parse_snapshot(data@) == Some(m),
                                insert_all(Seq::empty(), m) == insert_all(
                                    self@,
                                    rest.deep_view(),
                                ),
                            decreases rest@.len(),
                        {
                            let ghost rdv = rest.deep_view();
                            let pkg = rest.remove(0);
                            proof {
                                assert(rest.deep_view() =~~= rdv.drop_first());
                                assert(rdv[0] == pkg@);
                            }
                            self.insert(pkg);
                        }
                        proof {
                            assert(rest.deep_view() =~~= Seq::<PkgModel>::empty());
                        }
                        Ok(())
                    },
                }
            },
        }
    }
}

/// The logical lines of a snapshot text, executable form.
fn decode_lines(data: &str) -> (r: Option<Vec<Vec<char>>>)
    ensures
        match r {
            Some(l) => parse_lines(data@) == Some(l.deep_view()),
            None => parse_lines(data@) is None,
        },
{
    let cc = chars_of(data);
    let parts = crate::text::split_chars(&cc, '\n');
    let ghost pd = parts.deep_view();
    proof {
        assert(pd.last() =~= parts@[parts@.len() - 1]@);
    }
    if parts[parts.len() - 1].len() != 0 {
        proof {
            assert(pd.last() != Seq::<char>::empty());
        }
        return None;
    }
    proof {
        assert(pd.last() =~= Seq::<char>::empty());
    }
    let mut raw = parts;
    raw.pop();
    let ghost rd = raw.deep_view();
    proof {
        assert(rd =~~= pd.drop_last());
    }
    let mut lines: Vec<Vec<char>> = Vec::new();
    let mut k: usize = 0;
    while k < raw.len()
        invariant
            k <= raw@.len(),
            rd == raw.deep_view(),
            rd.len() == raw@.len(),
            rd == crate::text::split_char(data@, '\n').drop_last(),
            crate::text::split_char(data@, '\n').last() == Seq::<char>::empty(),
            lines@.len() == k,
            forall|j: int| 0 <= j < k ==> (#[trigger] unesc(rd[j])) is Some,
            forall|j: int|
                0 <= j < k ==> #[trigger] lines.deep_view()[j] == unesc(rd[j])->Some_0,
        decreases raw@.len() - k,
    {
        proof {
            assert(rd[k as int] =~= raw@[k as int]@);
        }
        match unesc_chars(&raw[k]) {
            None => {
                proof {
                    assert(unesc(rd[k as int]) is None);
                }
                return None;
            },
            Some(u) => {
                let ghost before = lines.deep_view();
                lines.push(u);
                k = k + 1;
                proof {
                    assert(lines.deep_view() =~~= before.push(u@));
                    assert forall|j: int|
                        0 <= j < k implies #[trigger] lines.deep_view()[j] == unesc(
                        rd[j],
                    )->Some_0 by {
                        if j < k - 1 {
                            assert(before[j] == unesc(rd[j])->Some_0);
                        }
                    }
                }
            },
        }
    }
    proof {
        assert(parse_lines(data@) == Some(Seq::new(rd.len(), |i: int| unesc(rd[i])->Some_0)));
        assert(lines.deep_view() =~~= Seq::new(rd.len(), |i: int| unesc(rd[i])->Some_0));
    }
    Some(lines)
}

/// The full record list of the logical lines, executable form.
fn pe_all(lines: &Vec<Vec<char>>) -> (r: Option<Vec<ApkgPackage>>)
    ensures
        match r {
            Some(ps) => p_pkgs(lines.deep_view(), 0) == Some(
                (ps.deep_view(), lines.deep_view().len() as int),
            ),
            None => match p_pkgs(lines.deep_view(), 0) {
                Some(q) => q.1 != lines.deep_view().len(),
                None => true,
            },
        },
{
    let ghost lsd = lines.deep_view();
    let mut pkgs: Vec<ApkgPackage> = Vec::new();
    let mut i: usize = 0;
    proof {
        assert(pkgs.deep_view() =~~= Seq::<PkgModel>::empty());
        match p_pkgs(lsd, 0) {
            Some((m2, k2)) => {
                assert(pkgs.deep_view() + m2 =~~= m2);
            },
            None => {},
        }
    }
    loop
        invariant
            lsd == lines.deep_view(),
            lsd.len() == lines@.len(),
            i <= lines@.len(),
            p_pkgs(lsd, 0) == (match p_pkgs(lsd, i as int) {
                Some((m2, k2)) => Some((pkgs.deep_view() + m2, k2)),
                None => None,
            }),
        decreases lines@.len() - i,
    {
        if i >= lines.len() {
            proof {
                assert(p_pkgs(lsd, i as int) is None);
            }
            return None;
        }
        proof {
            assert(lsd[i as int] =~= lines@[i as int]@);
            assert(seq!['.'][0] == '.' && seq!['+'][0] == '+');
        }
        let line = &lines[i];
        if line.len() == 1 && line[0] == '.' {
            proof {
                assert(lsd[i as int] =~= seq!['.']);
                assert(p_pkgs(lsd, i as int) == Some((Seq::<PkgModel>::empty(), i as int + 1)));
                assert(pkgs.deep_view() + Seq::<PkgModel>::empty() =~~= pkgs.deep_view());
            }
            i = i + 1;
            if i != lines.len() {
                return None;
            }
            proof {
                assert(p_pkgs(lsd, 0) == Some((pkgs.deep_view(), lsd.len() as int)));
            }
            return Some(pkgs);
        } else if line.len() == 1 && line[0] == '+' {
            proof {
                assert(lsd[i as int] =~= seq!['+']);
                assert(lsd[i as int] != seq!['.']);
            }
            match pe_pkg(lines, i + 1) {
                None => {
                    proof {
                        assert(p_pkgs(lsd, i as int) is None);
                    }
                    return None;
                },
                Some((pkg, j)) => {
                    proof {
                        lemma_p_pkg_advances(lsd, i + 1);
                    }
                    let ghost a0 = pkgs.deep_view();
                    let ghost iold = i as int;
                    pkgs.push(pkg);
                    i = j;
                    proof {
                        assert(pkgs.deep_view() =~~= a0.push(pkg@));
                        assert(lsd[iold] == seq!['+']);
                        assert(lsd[iold] != seq!['.']);
                        match p_pkgs(lsd, i as int) {
                            Some((m2, k2)) => {
                                assert(p_pkgs(lsd, iold) == Some((seq![pkg@] + m2, k2)));
                                assert(a0 + (seq![pkg@] + m2) =~~= pkgs.deep_view() + m2);
                            },
                            None => {
                                assert(p_pkgs(lsd, iold) is None);
                            },
                        }
                    }
                },
            }
        } else {
            proof {
                if lsd[i as int] == seq!['.'] {
                    assert(lsd[i as int].len() == 1 && lsd[i as int][0] == '.');
                    assert(false);
                }
                if lsd[i as int] == seq!['+'] {
                    assert(lsd[i as int].len() == 1 && lsd[i as int][0] == '+');
                    assert(false);
                }
                assert(p_pkgs(lsd, i as int) is None);
            }
            return None;
        }
    }
}

} // verus!
