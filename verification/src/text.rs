//! Character-level text helpers: conversions between `String` and
//! `Vec<char>`, substring search, and splitting, together with the
//! few outside text operations the library relies on.

use vstd::prelude::*;

verus! {

/// What `str::to_lowercase` returns: a function of the characters alone.
pub uninterp spec fn lower_of(s: Seq<char>) -> Seq<char>;

/// What `urlencoding::encode` returns: a function of the characters alone.
pub uninterp spec fn url_encoded(s: Seq<char>) -> Seq<char>;

/// Relies on `str::to_lowercase`: the result depends on the input
/// characters alone.
#[verifier::external_body]
pub(crate) fn lowercase(s: &str) -> (r: String)
    ensures
        r@ == lower_of(s@),
{
    s.to_lowercase()
}

/// Relies on `urlencoding::encode`: percent-encodes every byte except
/// ASCII alphanumerics and `-`, `_`, `.`, `~`; the result depends on
/// the input characters alone.
#[verifier::external_body]
pub(crate) fn encode_query(s: &str) -> (r: String)
    ensures
        r@ == url_encoded(s@),
{
    urlencoding::encode(s).into_owned()
}

/// Relies on `String::push`: appends exactly the one character.
#[verifier::external_body]
pub(crate) fn push_char(s: &mut String, c: char)
    ensures
        final(s)@ == old(s)@ + seq![c],
{
    s.push(c)
}

/// All characters of `s`, in order.
pub fn chars_of(s: &str) -> (r: Vec<char>)
    ensures
        r@ == s@,
{
    let n = s.unicode_len();
    let mut r: Vec<char> = Vec::new();
    let mut i: usize = 0;
    while i < n
        invariant
            i <= n,
            n == s@.len(),
            r@ == s@.take(i as int),
        decreases n - i,
    {
        let c = s.get_char(i);
        r.push(c);
        i = i + 1;
        proof {
            assert(r@ =~= s@.take(i as int));
        }
    }
    proof {
        assert(r@ =~= s@);
    }
    r
}

/// A `String` holding exactly the characters of `v`.
pub fn string_of(v: &Vec<char>) -> (r: String)
    ensures
        r@ == v@,
{
    let mut r = String::new();
    let mut i: usize = 0;
    while i < v.len()
        invariant
            i <= v.len(),
            r@ == v@.take(i as int),
        decreases v.len() - i,
    {
        push_char(&mut r, v[i]);
        i = i + 1;
        proof {
            assert(r@ =~= v@.take(i as int));
        }
    }
    proof {
        assert(r@ =~= v@);
    }
    r
}

/// `needle` occurs somewhere in `hay` as a contiguous run.
pub open spec fn contains_sub(hay: Seq<char>, needle: Seq<char>) -> bool {
    exists|i: int|
        0 <= i && i + needle.len() <= hay.len() && #[trigger] hay.subrange(i, i + needle.len())
            == needle
}

/// A fresh vector with the same characters.
pub fn copy_chars(v: &Vec<char>) -> (r: Vec<char>)
    ensures
        r@ == v@,
{
    let mut r: Vec<char> = Vec::new();
    let mut i: usize = 0;
    while i < v.len()
        invariant
            i <= v@.len(),
            r@ == v@.take(i as int),
        decreases v@.len() - i,
    {
        r.push(v[i]);
        i = i + 1;
        proof {
            assert(r@ =~= v@.take(i as int));
        }
    }
    proof {
        assert(r@ =~= v@);
    }
    r
}

/// Equality of two character vectors.
pub fn chars_eq(a: &Vec<char>, b: &Vec<char>) -> (r: bool)
    ensures
        r == (a@ == b@),
{
    if a.len() != b.len() {
        return false;
    }
    let mut i: usize = 0;
    while i < a.len()
        invariant
            a@.len() == b@.len(),
            i <= a@.len(),
            forall|k: int| 0 <= k < i ==> a@[k] == b@[k],
        decreases a@.len() - i,
    {
        if a[i] != b[i] {
            return false;
        }
        i = i + 1;
    }
    proof {
        assert(a@ =~= b@);
    }
    true
}

/// Append every character of `v` to `acc`.
pub fn append_chars(acc: &mut Vec<char>, v: &Vec<char>)
    ensures
        final(acc)@ == old(acc)@ + v@,
{
    let ghost a0 = acc@;
    let mut i: usize = 0;
    while i < v.len()
        invariant
            i <= v@.len(),
            acc@ == a0 + v@.take(i as int),
        decreases v@.len() - i,
    {
        acc.push(v[i]);
        i = i + 1;
        proof {
            assert(acc@ =~= a0 + v@.take(i as int));
        }
    }
    proof {
        assert(acc@ =~= a0 + v@);
    }
}

/// `needle` occurs in `hay` starting at position `at`.
fn match_at(hay: &Vec<char>, needle: &Vec<char>, at: usize) -> (r: bool)
    requires
        at + needle@.len() <= hay@.len(),
    ensures
        r == (hay@.subrange(at as int, at + needle@.len()) == needle@),
{
    let hn = hay.len();
    proof {
        assert(hay@.len() == hn);
    }
    let mut j: usize = 0;
    while j < needle.len()
        invariant
            j <= needle@.len(),
            at + needle@.len() <= hay@.len(),
            hay@.len() <= usize::MAX,
            forall|k: int| 0 <= k < j ==> hay@[at + k] == needle@[k],
        decreases needle@.len() - j,
    {
        proof {
            assert(at + j < hay@.len());
        }
        if hay[at + j] != needle[j] {
            proof {
                assert(hay@.subrange(at as int, at + needle@.len())[j as int] != needle@[j as int]);
            }
            return false;
        }
        j = j + 1;
    }
    proof {
        assert(hay@.subrange(at as int, at + needle@.len()) =~= needle@);
    }
    true
}

/// Substring test over character vectors.
pub fn contains_chars(hay: &Vec<char>, needle: &Vec<char>) -> (r: bool)
    ensures
        r == contains_sub(hay@, needle@),
{
    if needle.len() > hay.len() {
        return false;
    }
    if needle.len() == 0 {
        proof {
            assert(hay@.subrange(0, 0int + needle@.len()) =~= needle@);
        }
        return true;
    }
    let stop = hay.len() - needle.len();
    let mut i: usize = 0;
    while i <= stop
        invariant
            needle@.len() >= 1,
            stop == hay@.len() - needle@.len(),
            hay@.len() <= usize::MAX,
            i <= stop + 1,
            forall|k: int|
                0 <= k < i ==> #[trigger] hay@.subrange(k, k + needle@.len()) != needle@,
        decreases stop + 1 - i,
    {
        if match_at(hay, needle, i) {
            proof {
                assert(hay@.subrange(i as int, i as int + needle@.len()) == needle@);
            }
            return true;
        }
        i = i + 1;
    }
    proof {
        if contains_sub(hay@, needle@) {
            let w = choose|w: int|
                0 <= w && w + needle@.len() <= hay@.len() && #[trigger] hay@.subrange(
                    w,
                    w + needle@.len(),
                ) == needle@;
            assert(hay@.subrange(w, w + needle@.len()) != needle@);
            assert(false);
        }
    }
    false
}

/// First index at which `needle` occurs in `hay`, if any.
pub open spec fn find_sub(hay: Seq<char>, needle: Seq<char>) -> Option<int>
    decreases hay.len(),
{
    if needle.len() > hay.len() {
        None
    } else if hay.subrange(0, needle.len() as int) == needle {
        Some(0int)
    } else if hay.len() == 0 {
        None
    } else {
        match find_sub(hay.drop_first(), needle) {
            Some(i) => Some(i + 1),
            None => None,
        }
    }
}

pub proof fn lemma_find_sub(hay: Seq<char>, needle: Seq<char>)
    ensures
        match find_sub(hay, needle) {
            Some(i) => 0 <= i && i + needle.len() <= hay.len() && hay.subrange(
                i,
                i + needle.len(),
            ) == needle && forall|j: int|
                0 <= j < i ==> #[trigger] hay.subrange(j, j + needle.len()) != needle,
            None => forall|j: int|
                0 <= j && j + needle.len() <= hay.len() ==> #[trigger] hay.subrange(j, j + needle.len())
                    != needle,
        },
    decreases hay.len(),
{
    if needle.len() > hay.len() {
    } else if hay.subrange(0, needle.len() as int) == needle {
    } else if hay.len() == 0 {
    } else {
        lemma_find_sub(hay.drop_first(), needle);
        let l = needle.len() as int;
        assert forall|j: int| 0 <= j && j + l <= hay.len() - 1 implies #[trigger] hay.drop_first()
            .subrange(j, j + l) == hay.subrange(j + 1, j + 1 + l) by {
            assert(hay.drop_first().subrange(j, j + l) =~= hay.subrange(j + 1, j + 1 + l));
        }
        match find_sub(hay.drop_first(), needle) {
            Some(i) => {
                assert(hay.subrange(i + 1, i + 1 + l) == needle);
                assert forall|j: int| 0 <= j < i + 1 implies #[trigger] hay.subrange(j, j + l)
                    != needle by {
                    if j == 0 {
                        assert(hay.subrange(0, l) != needle);
                    } else {
                        assert(hay.drop_first().subrange(j - 1, j - 1 + l) != needle);
                    }
                }
            },
            None => {
                assert forall|j: int| 0 <= j && j + l <= hay.len() implies #[trigger] hay.subrange(
                    j,
                    j + l,
                ) != needle by {
                    if j == 0 {
                        assert(hay.subrange(0, l) != needle);
                    } else {
                        assert(hay.drop_first().subrange(j - 1, j - 1 + l) != needle);
                    }
                }
            },
        }
    }
}

/// First occurrence of `needle` in `hay`, executable form.
pub fn find_first_sub(hay: &Vec<char>, needle: &Vec<char>) -> (r: Option<usize>)
    ensures
        match r {
            Some(i) => find_sub(hay@, needle@) == Some(i as int),
            None => find_sub(hay@, needle@) is None,
        },
{
    proof {
        lemma_find_sub(hay@, needle@);
    }
    if needle.len() > hay.len() {
        return None;
    }
    if needle.len() == 0 {
        proof {
            assert(hay@.subrange(0, 0) =~= needle@);
        }
        return Some(0);
    }
    let stop = hay.len() - needle.len();
    let mut i: usize = 0;
    while i <= stop
        invariant
            needle@.len() >= 1,
            stop == hay@.len() - needle@.len(),
            hay@.len() <= usize::MAX,
            i <= stop + 1,
            forall|k: int|
                0 <= k < i ==> #[trigger] hay@.subrange(k, k + needle@.len()) != needle@,
        decreases stop + 1 - i,
    {
        if match_at(hay, needle, i) {
            proof {
                lemma_find_sub(hay@, needle@);
                let f = find_sub(hay@, needle@);
                if f is Some {
                    let fi = f->Some_0;
                    if fi < i {
                        assert(hay@.subrange(fi, fi + needle@.len()) == needle@);
                        assert(false);
                    }
                    if fi > i {
                        assert(hay@.subrange(i as int, i + needle@.len()) != needle@);
                        assert(false);
                    }
                } else {
                    assert(hay@.subrange(i as int, i + needle@.len()) != needle@);
                    assert(false);
                }
            }
            return Some(i);
        }
        i = i + 1;
    }
    proof {
        lemma_find_sub(hay@, needle@);
        if find_sub(hay@, needle@) is Some {
            let fi = find_sub(hay@, needle@)->Some_0;
            assert(hay@.subrange(fi, fi + needle@.len()) == needle@);
            assert(false);
        }
    }
    None
}

/// Split on every occurrence of `c`; always at least one part, and
/// parts do not contain `c`.
pub open spec fn split_char(s: Seq<char>, c: char) -> Seq<Seq<char>>
    decreases s.len(),
{
    if s.len() == 0 {
        seq![Seq::<char>::empty()]
    } else if s[0] == c {
        seq![Seq::<char>::empty()] + split_char(s.drop_first(), c)
    } else {
        let r = split_char(s.drop_first(), c);
        seq![seq![s[0]] + r[0]] + r.drop_first()
    }
}

pub proof fn lemma_split_char_len(s: Seq<char>, c: char)
    ensures
        split_char(s, c).len() >= 1,
    decreases s.len(),
{
    if s.len() == 0 {
    } else {
        lemma_split_char_len(s.drop_first(), c);
    }
}

/// Appending one character extends the last part, or opens a new
/// empty part when the character is the separator.
pub proof fn lemma_split_char_push(s: Seq<char>, c: char, x: char)
    ensures
        split_char(s, c).len() >= 1,
        x == c ==> split_char(s.push(x), c) == split_char(s, c).push(Seq::<char>::empty()),
        x != c ==> split_char(s.push(x), c) == split_char(s, c).update(
            split_char(s, c).len() - 1,
            split_char(s, c).last().push(x),
        ),
    decreases s.len(),
{
    lemma_split_char_len(s, c);
    if s.len() == 0 {
        assert(s.push(x).drop_first() =~= Seq::<char>::empty());
        assert(split_char(Seq::<char>::empty(), c) == seq![Seq::<char>::empty()]);
        assert(s.push(x)[0] == x);
        if x == c {
            assert(split_char(s.push(x), c) =~~= split_char(s, c).push(Seq::<char>::empty()));
        } else {
            assert(seq![x] + Seq::<char>::empty() =~= seq![x]);
            assert(split_char(s.push(x), c) =~~= split_char(s, c).update(
                split_char(s, c).len() - 1,
                split_char(s, c).last().push(x),
            ));
        }
    } else {
        lemma_split_char_push(s.drop_first(), c, x);
        lemma_split_char_len(s.drop_first(), c);
        assert(s.push(x).drop_first() =~~= s.drop_first().push(x));
        assert(s.push(x)[0] == s[0]);
        let r = split_char(s.drop_first(), c);
        let rp = split_char(s.drop_first().push(x), c);
        if s[0] == c {
            if x == c {
                assert(split_char(s.push(x), c) =~~= split_char(s, c).push(Seq::<char>::empty()));
            } else {
                assert(split_char(s.push(x), c) =~~= split_char(s, c).update(
                    split_char(s, c).len() - 1,
                    split_char(s, c).last().push(x),
                ));
            }
        } else {
            if x == c {
                assert(rp[0] == r[0]);
                assert(split_char(s.push(x), c) =~~= split_char(s, c).push(Seq::<char>::empty()));
            } else {
                if r.len() == 1 {
                    assert(rp == r.update(0, r.last().push(x)));
                    assert(rp[0] == r[0].push(x));
                    assert(seq![s[0]] + r[0].push(x) =~~= (seq![s[0]] + r[0]).push(x));
                    assert(split_char(s.push(x), c) =~~= split_char(s, c).update(
                        split_char(s, c).len() - 1,
                        split_char(s, c).last().push(x),
                    ));
                } else {
                    assert(rp[0] == r[0]);
                    assert(split_char(s.push(x), c) =~~= split_char(s, c).update(
                        split_char(s, c).len() - 1,
                        split_char(s, c).last().push(x),
                    ));
                }
            }
        }
    }
}

/// Split a character vector on `c`, executable form.
pub fn split_chars(v: &Vec<char>, c: char) -> (r: Vec<Vec<char>>)
    ensures
        r.deep_view() == split_char(v@, c),
        r@.len() >= 1,
{
    let mut done: Vec<Vec<char>> = Vec::new();
    let mut cur: Vec<char> = Vec::new();
    let mut i: usize = 0;
    while i < v.len()
        invariant
            i <= v@.len(),
            split_char(v@.take(i as int), c) == done.deep_view().push(cur@),
        decreases v@.len() - i,
    {
        proof {
            assert(v@.take(i + 1).drop_last() =~~= v@.take(i as int));
            assert(v@.take(i + 1) =~~= v@.take(i as int).push(v@[i as int]));
            lemma_split_char_push(v@.take(i as int), c, v@[i as int]);
        }
        let x = v[i];
        if x == c {
            done.push(cur);
            cur = Vec::new();
            proof {
                assert(split_char(v@.take(i + 1), c) =~~= done.deep_view().push(cur@));
            }
        } else {
            cur.push(x);
            proof {
                assert(split_char(v@.take(i + 1), c) =~~= done.deep_view().push(cur@));
            }
        }
        i = i + 1;
    }
    proof {
        assert(v@.take(v@.len() as int) =~~= v@);
    }
    done.push(cur);
    proof {
        lemma_split_char_len(v@, c);
        assert(done.deep_view() =~~= split_char(v@, c));
    }
    done
}

/// What `char::is_whitespace` returns: a function of the character alone.
pub uninterp spec fn is_space(c: char) -> bool;

/// Relies on `char::is_whitespace`: the Unicode white-space property
/// of the one character.
#[verifier::external_body]
pub(crate) fn char_is_space(c: char) -> (r: bool)
    ensures
        r == is_space(c),
{
    c.is_whitespace()
}

/// `s` without leading white space.
pub open spec fn trim_start(s: Seq<char>) -> Seq<char>
    decreases s.len(),
{
    if s.len() > 0 && is_space(s[0]) {
        trim_start(s.drop_first())
    } else {
        s
    }
}

/// `s` without trailing white space.
pub open spec fn trim_end(s: Seq<char>) -> Seq<char>
    decreases s.len(),
{
    if s.len() > 0 && is_space(s.last()) {
        trim_end(s.drop_last())
    } else {
        s
    }
}

/// `s` without leading or trailing white space, as `str::trim` leaves it.
pub open spec fn trim(s: Seq<char>) -> Seq<char> {
    trim_end(trim_start(s))
}

/// The characters `v[from..to]`.
pub fn copy_range(v: &Vec<char>, from: usize, to: usize) -> (r: Vec<char>)
    requires
        from <= to <= v@.len(),
    ensures
        r@ == v@.subrange(from as int, to as int),
{
    let mut r: Vec<char> = Vec::new();
    let mut i: usize = from;
    while i < to
        invariant
            from <= i <= to <= v@.len(),
            r@ == v@.subrange(from as int, i as int),
        decreases to - i,
    {
        r.push(v[i]);
        i = i + 1;
        proof {
            assert(r@ =~= v@.subrange(from as int, i as int));
        }
    }
    r
}

/// Trim white space from both ends, executable form.
pub fn trim_chars(v: &Vec<char>) -> (r: Vec<char>)
    ensures
        r@ == trim(v@),
{
    proof {
        assert(v@.skip(0) =~= v@);
    }
    let mut a: usize = 0;
    while a < v.len() && char_is_space(v[a])
        invariant
            a <= v@.len(),
            trim_start(v@) == trim_start(v@.skip(a as int)),
        decreases v@.len() - a,
    {
        proof {
            assert(v@.skip(a as int).drop_first() =~= v@.skip(a + 1));
            assert(v@.skip(a as int)[0] == v@[a as int]);
        }
        a = a + 1;
    }
    proof {
        if a < v@.len() {
            assert(v@.skip(a as int)[0] == v@[a as int]);
        }
        assert(trim_start(v@) == v@.skip(a as int));
    }
    proof {
        assert(v@.skip(a as int).take(v@.len() - a) =~= v@.skip(a as int));
    }
    let mut b: usize = v.len();
    while b > a && char_is_space(v[b - 1])
        invariant
            a <= b <= v@.len(),
            trim_start(v@) == v@.skip(a as int),
            trim_end(v@.skip(a as int)) == trim_end(v@.skip(a as int).take(b - a)),
        decreases b,
    {
        proof {
            let s1 = v@.skip(a as int);
            assert(s1.take(b - a).last() == v@[b - 1]);
            assert(s1.take(b - a).drop_last() =~= s1.take(b - 1 - a));
        }
        b = b - 1;
    }
    proof {
        let s1 = v@.skip(a as int);
        if b > a {
            assert(s1.take(b - a).last() == v@[b - 1]);
        }
        assert(trim_end(s1.take(b - a)) == s1.take(b - a));
        assert(s1.take(b - a) =~= v@.subrange(a as int, b as int));
    }
    copy_range(v, a, b)
}

/// The lines of a text, as `str::lines` yields them: split on `'\n'`,
/// drop a final empty piece, and strip one trailing `'\r'` per line.
pub open spec fn strip_cr(l: Seq<char>) -> Seq<char> {
    if l.len() > 0 && l.last() == '\r' {
        l.drop_last()
    } else {
        l
    }
}

pub open spec fn lines_of(s: Seq<char>) -> Seq<Seq<char>> {
    let parts = split_char(s, '\n');
    let kept = if parts.last() == Seq::<char>::empty() {
        parts.drop_last()
    } else {
        parts
    };
    kept.map_values(|l: Seq<char>| strip_cr(l))
}

/// The lines of a character vector, executable form.
pub fn lines_chars(v: &Vec<char>) -> (r: Vec<Vec<char>>)
    ensures
        r.deep_view() == lines_of(v@),
{
    let mut parts = split_chars(v, '\n');
    proof {
        assert(parts.deep_view().len() == parts@.len());
    }
    if parts[parts.len() - 1].len() == 0 {
        proof {
            assert(parts.deep_view().last() =~~= Seq::<char>::empty());
        }
        parts.pop();
        proof {
            assert(parts.deep_view() =~~= split_char(v@, '\n').drop_last());
        }
    } else {
        proof {
            assert(parts.deep_view().last() != Seq::<char>::empty());
        }
    }
    let ghost kept = parts.deep_view();
    let mut r: Vec<Vec<char>> = Vec::new();
    let mut i: usize = 0;
    while i < parts.len()
        invariant
            i <= parts@.len(),
            kept == parts.deep_view(),
            kept.len() == parts@.len(),
            r.deep_view() == kept.take(i as int).map_values(|l: Seq<char>| strip_cr(l)),
        decreases parts@.len() - i,
    {
        let mut out: Vec<char> = copy_chars(&parts[i]);
        if out.len() > 0 && out[out.len() - 1] == '\r' {
            out.pop();
            proof {
                assert(out@ =~~= strip_cr(kept[i as int]));
            }
        } else {
            proof {
                assert(out@ =~~= strip_cr(kept[i as int]));
            }
        }
        let ghost prev = r.deep_view();
        r.push(out);
        i = i + 1;
        proof {
            assert(r.deep_view() =~~= prev.push(out@));
            assert(kept.take(i as int) =~~= kept.take(i - 1).push(kept[i - 1]));
            assert(r.deep_view() =~~= kept.take(i as int).map_values(|l: Seq<char>| strip_cr(l)));
        }
    }
    proof {
        assert(kept.take(kept.len() as int) =~~= kept);
        assert(r.deep_view() =~~= lines_of(v@));
    }
    r
}

} // verus!
