//! Pairing files across two directories and comparing a pair's contents.
//!
//! A filename takes part in pairing when its stem has at least six
//! underscore-separated segments, the first being `SC` and the last `Z`.
//! Its pair key is the triple of the second segment, the third segment,
//! and the second-to-last segment; the remaining segments, notably the
//! version segment, are ignored.  Two files match exactly when their keys
//! are equal, and a lookup into the second directory resolves duplicate
//! keys to the last listed file.
//!
//! Comparing a pair's decoded contents reduces each to its line set and
//! reports the lines unique to each side; equal line sets mean no
//! difference.

use vstd::prelude::*;

use crate::file_utils::{content_body, line_set, lemma_sorted_body_unique, process_content};
use crate::text::{
    lex_le, split_lines_spec, split_on, split_on_spec, str_eq, strings_sorted,
};

verus! {

/// The differences between two files: the normalized lines that exist
/// only in the first file and those that exist only in the second.
#[derive(Debug, Clone)]
pub struct FileDifferences {
    /// Lines that exist only in the first file.
    pub only_in_first: Vec<String>,
    /// Lines that exist only in the second file.
    pub only_in_second: Vec<String>,
}

/// The index of the last `'.'` in `name` that does not stand first,
/// if any: the position where the extension begins.
pub open spec fn last_dot(name: Seq<char>) -> Option<int>
    decreases name.len(),
{
    if name.len() <= 1 {
        None
    } else if name.last() == '.' {
        Some(name.len() - 1)
    } else {
        last_dot(name.drop_last())
    }
}

/// The stem of a filename: the portion before the extension, or the
/// whole name when there is no extension or when the only `'.'` leads.
pub open spec fn stem_spec(name: Seq<char>) -> Seq<char> {
    match last_dot(name) {
        Some(j) => name.subrange(0, j),
        None => name,
    }
}

/// Extracts the stem of a filename.
pub fn file_stem(name: &str) -> (r: String)
    ensures
        r@ == stem_spec(name@),
{
    let n = name.unicode_len();
    if n <= 1 {
        return name.to_owned();
    }
    let mut i: usize = 1;
    let mut dot: usize = 0;
    proof {
        assert(name@.subrange(0, 1).len() <= 1);
    }
    while i < n
        invariant
            1 <= i <= n,
            n == name@.len(),
            dot == 0 ==> last_dot(name@.subrange(0, i as int)) is None,
            dot != 0 ==> 1 <= dot < i && last_dot(name@.subrange(0, i as int)) == Some(dot as int),
        decreases n - i,
    {
        proof {
            let cur = name@.subrange(0, i + 1);
            assert(cur.last() == name@[i as int]);
            assert(cur.drop_last() =~= name@.subrange(0, i as int));
        }
        if name.get_char(i) == '.' {
            dot = i;
        }
        i += 1;
    }
    proof {
        assert(name@.subrange(0, n as int) =~= name@);
    }
    if dot == 0 {
        name.to_owned()
    } else {
        let piece = name.substring_char(0, dot);
        piece.to_owned()
    }
}

/// The pair key of a filename, when its stem follows the convention:
/// at least six underscore-separated segments, the first `SC` and the
/// last `Z`.  The key is the triple of the second segment, the third
/// segment, and the second-to-last segment.
pub open spec fn key_of(name: Seq<char>) -> Option<(Seq<char>, Seq<char>, Seq<char>)> {
    let parts = split_on_spec(stem_spec(name), '_');
    if parts.len() >= 6 && parts[0] == seq!['S', 'C'] && parts[parts.len() - 1] == seq!['Z'] {
        Some((parts[1], parts[2], parts[parts.len() - 2]))
    } else {
        None
    }
}

/// Extracts the pair key of a filename, or nothing when the name does
/// not follow the convention.
pub fn extract_pair_key(name: &str) -> (r: Option<(String, String, String)>)
    ensures
        r matches Some(k) ==> key_of(name@) == Some((k.0@, k.1@, k.2@)),
        r is None ==> key_of(name@) is None,
{
    let stem = file_stem(name);
    let parts = split_on(stem.as_str(), '_');
    let ghost pv = parts.deep_view();
    proof {
        reveal_strlit("SC");
        reveal_strlit("Z");
        assert("SC"@ =~= seq!['S', 'C']);
        assert("Z"@ =~= seq!['Z']);
        assert(pv.len() == parts@.len());
    }
    let m = parts.len();
    if m < 6 {
        return None;
    }
    proof {
        assert(pv[0] == parts@[0]@);
        assert(pv[m - 1] == parts@[m - 1]@);
        assert(pv[1] == parts@[1]@);
        assert(pv[2] == parts@[2]@);
        assert(pv[m - 2] == parts@[m - 2]@);
    }
    if !str_eq(parts[0].as_str(), "SC") {
        return None;
    }
    if !str_eq(parts[m - 1].as_str(), "Z") {
        return None;
    }
    Some((parts[1].clone(), parts[2].clone(), parts[m - 2].clone()))
}

/// The index in `names2` of the last name whose key is `k`, if any:
/// the entry a duplicate-keyed lookup resolves to.
pub open spec fn last_match(
    names2: Seq<Seq<char>>,
    k: (Seq<char>, Seq<char>, Seq<char>),
) -> Option<int>
    decreases names2.len(),
{
    if names2.len() == 0 {
        None
    } else if key_of(names2.last()) == Some(k) {
        Some(names2.len() - 1)
    } else {
        last_match(names2.drop_last(), k)
    }
}

pub proof fn lemma_last_match(names2: Seq<Seq<char>>, k: (Seq<char>, Seq<char>, Seq<char>))
    ensures
        last_match(names2, k) matches Some(j) ==> 0 <= j < names2.len() && key_of(names2[j])
            == Some(k),
        last_match(names2, k) is None ==> forall|j: int|
            0 <= j < names2.len() ==> key_of(#[trigger] names2[j]) != Some(k),
    decreases names2.len(),
{
    if names2.len() > 0 && key_of(names2.last()) != Some(k) {
        lemma_last_match(names2.drop_last(), k);
        assert forall|j: int| 0 <= j < names2.len() - 1 implies names2.drop_last()[j]
            == names2[j] by {}
    }
}

/// The file pairs the two directory listings produce: each name in the
/// first listing whose key also appears in the second listing, in
/// listing order, paired with the last name in the second listing that
/// carries the same key.
pub open spec fn pair_spec(names1: Seq<Seq<char>>, names2: Seq<Seq<char>>) -> Seq<
    (Seq<char>, Seq<char>),
>
    decreases names1.len(),
{
    if names1.len() == 0 {
        Seq::empty()
    } else {
        let head = match key_of(names1[0]) {
            Some(k) => match last_match(names2, k) {
                Some(j) => seq![(names1[0], names2[j])],
                None => Seq::empty(),
            },
            None => Seq::empty(),
        };
        head + pair_spec(names1.drop_first(), names2)
    }
}

/// Finds the index in `names2` of the last name whose key is `k`.
fn find_last_match(names2: &Vec<String>, k: &(String, String, String)) -> (r: Option<usize>)
    ensures
        r matches Some(j) ==> j < names2@.len() && last_match(
            names2.deep_view(),
            (k.0@, k.1@, k.2@),
        ) == Some(j as int),
        r is None ==> last_match(names2.deep_view(), (k.0@, k.1@, k.2@)) is None,
{
    let ghost n2 = names2.deep_view();
    let ghost kk = (k.0@, k.1@, k.2@);
    let mut j: usize = names2.len();
    proof {
        assert(n2.len() == names2@.len());
        assert(n2.subrange(0, j as int) =~= n2);
    }
    while j > 0
        invariant
            j <= names2@.len(),
            n2 == names2.deep_view(),
            n2.len() == names2@.len(),
            kk == (k.0@, k.1@, k.2@),
            last_match(n2, kk) == last_match(n2.subrange(0, j as int), kk),
        decreases j,
    {
        let key2 = extract_pair_key(names2[j - 1].as_str());
        let is_match = match &key2 {
            Some(k2) => str_eq(k2.0.as_str(), k.0.as_str()) && str_eq(k2.1.as_str(), k.1.as_str())
                && str_eq(k2.2.as_str(), k.2.as_str()),
            None => false,
        };
        proof {
            let sub = n2.subrange(0, j as int);
            assert(sub.last() == n2[j - 1]);
            assert(n2[j - 1] == names2@[j - 1]@);
            assert(sub.drop_last() =~= n2.subrange(0, j - 1));
        }
        if is_match {
            proof {
                assert(key_of(n2[j - 1]) == Some(kk));
                assert(last_match(n2.subrange(0, j as int), kk) == Some(j - 1));
            }
            return Some(j - 1);
        }
        proof {
            assert(key_of(n2[j - 1]) != Some(kk));
        }
        j -= 1;
    }
    proof {
        assert(n2.subrange(0, 0) =~= Seq::<Seq<char>>::empty());
    }
    None
}

/// Generates the file pairs of two directory listings, matching names
/// by their pair keys.  Listings are given and returned as file names;
/// the caller resolves them against its directories.
pub fn generate_file_pairs(names1: &Vec<String>, names2: &Vec<String>) -> (r: Vec<
    (String, String),
>)
    ensures
        r.deep_view() == pair_spec(names1.deep_view(), names2.deep_view()),
{
    let ghost n1 = names1.deep_view();
    let ghost n2 = names2.deep_view();
    let mut r: Vec<(String, String)> = Vec::new();
    let mut i: usize = 0;
    proof {
        assert(n1.len() == names1@.len());
        assert(n1.subrange(0, n1.len() as int) =~= n1);
        assert(r.deep_view() =~= Seq::<(Seq<char>, Seq<char>)>::empty());
    }
    while i < names1.len()
        invariant
            i <= names1@.len(),
            n1 == names1.deep_view(),
            n2 == names2.deep_view(),
            n1.len() == names1@.len(),
            pair_spec(n1, n2) == r.deep_view() + pair_spec(
                n1.subrange(i as int, n1.len() as int),
                n2,
            ),
        decreases names1@.len() - i,
    {
        let ghost tail = n1.subrange(i as int, n1.len() as int);
        proof {
            assert(tail[0] == n1[i as int]);
            assert(n1[i as int] == names1@[i as int]@);
            assert(tail.drop_first() =~= n1.subrange(i + 1, n1.len() as int));
        }
        let key = extract_pair_key(names1[i].as_str());
        match &key {
            None => {
                proof {
                    assert(pair_spec(tail, n2) =~= Seq::<(Seq<char>, Seq<char>)>::empty()
                        + pair_spec(tail.drop_first(), n2));
                }
            },
            Some(k) => {
                match find_last_match(names2, k) {
                    None => {
                        proof {
                            assert(key_of(tail[0]) == Some((k.0@, k.1@, k.2@)));
                            assert(pair_spec(tail, n2) =~= Seq::<(Seq<char>, Seq<char>)>::empty()
                                + pair_spec(tail.drop_first(), n2));
                        }
                    },
                    Some(j) => {
                        let ghost old_r = r.deep_view();
                        let first = names1[i].clone();
                        let second = names2[j].clone();
                        r.push((first, second));
                        proof {
                            assert(n2[j as int] == names2@[j as int]@);
                            assert(r.deep_view() =~= old_r.push((n1[i as int], n2[j as int])));
                            assert(pair_spec(tail, n2) =~= seq![(n1[i as int], n2[j as int])]
                                + pair_spec(tail.drop_first(), n2));
                            assert(r.deep_view() + pair_spec(tail.drop_first(), n2) =~= old_r + (
                            seq![(n1[i as int], n2[j as int])] + pair_spec(
                                tail.drop_first(),
                                n2,
                            )));
                        }
                    },
                }
            },
        }
        i += 1;
    }
    proof {
        assert(n1.subrange(i as int, n1.len() as int).len() == 0);
        assert(pair_spec(n1.subrange(i as int, n1.len() as int), n2) =~= Seq::<
            (Seq<char>, Seq<char>),
        >::empty());
    }
    r
}

/// Whether `v` holds a line whose characters are `x`.
fn vec_contains(v: &Vec<String>, x: &str) -> (r: bool)
    ensures
        r == v.deep_view().contains(x@),
{
    let ghost dv = v.deep_view();
    let mut i: usize = 0;
    proof {
        assert(dv.len() == v@.len());
    }
    while i < v.len()
        invariant
            i <= v@.len(),
            dv == v.deep_view(),
            dv.len() == v@.len(),
            forall|j: int| 0 <= j < i ==> #[trigger] dv[j] != x@,
        decreases v@.len() - i,
    {
        proof {
            assert(dv[i as int] == v@[i as int]@);
        }
        if str_eq(v[i].as_str(), x) {
            proof {
                assert(dv.contains(x@));
            }
            return true;
        }
        i += 1;
    }
    proof {
        if dv.contains(x@) {
            let j = choose|j: int| 0 <= j < dv.len() && dv[j] == x@;
            assert(dv[j] != x@);
        }
    }
    false
}

/// The lines of `a` that are absent from `b`, without duplicates, in
/// sorted order.
fn set_minus(a: &Vec<String>, b: &Vec<String>) -> (r: Vec<String>)
    requires
        strings_sorted(a.deep_view()),
    ensures
        strings_sorted(r.deep_view()),
        r.deep_view().no_duplicates(),
        r.deep_view().to_set() == a.deep_view().to_set().difference(b.deep_view().to_set()),
{
    broadcast use vstd::set::group_set_axioms;

    let ghost av = a.deep_view();
    let ghost bv = b.deep_view();
    let mut r: Vec<String> = Vec::new();
    let mut i: usize = 0;
    proof {
        assert(av.len() == a@.len());
        assert(r.deep_view() =~= Seq::<Seq<char>>::empty());
        assert(r.deep_view().to_set() =~= av.subrange(0, 0).to_set().difference(bv.to_set()));
    }
    while i < a.len()
        invariant
            i <= a@.len(),
            av == a.deep_view(),
            bv == b.deep_view(),
            av.len() == a@.len(),
            strings_sorted(av),
            strings_sorted(r.deep_view()),
            r.deep_view().no_duplicates(),
            r.deep_view().to_set() == av.subrange(0, i as int).to_set().difference(bv.to_set()),
            forall|p: int|
                0 <= p < r.deep_view().len() ==> exists|q: int|
                    0 <= q < i && #[trigger] r.deep_view()[p] == av[q],
        decreases a@.len() - i,
    {
        broadcast use vstd::set::group_set_axioms;

        let ghost x = av[i as int];
        proof {
            assert(av[i as int] == a@[i as int]@);
            assert(av.subrange(0, i + 1) =~= av.subrange(0, i as int).push(x));
        }
        let in_b = vec_contains(b, a[i].as_str());
        let in_r = vec_contains(&r, a[i].as_str());
        if !in_b && !in_r {
            let ghost old_r = r.deep_view();
            let item = a[i].clone();
            r.push(item);
            proof {
                assert(r.deep_view() =~= old_r.push(x));
                assert forall|p: int| 0 <= p < old_r.len() implies lex_le(old_r[p], x) by {
                    let q = choose|q: int| 0 <= q < i && old_r[p] == av[q];
                    assert(lex_le(av[q], av[i as int]));
                }
                assert(strings_sorted(r.deep_view())) by {
                    assert forall|p: int, q: int|
                        0 <= p < q < r.deep_view().len() implies #[trigger] lex_le(
                        r.deep_view()[p],
                        r.deep_view()[q],
                    ) by {
                        if q < old_r.len() {
                            assert(lex_le(old_r[p], old_r[q]));
                        } else {
                            assert(lex_le(old_r[p], x));
                        }
                    }
                }
                assert(r.deep_view().no_duplicates()) by {
                    assert(!old_r.contains(x));
                }
                assert(r.deep_view().to_set() =~= av.subrange(0, i + 1).to_set().difference(
                    bv.to_set(),
                )) by {
                    assert(old_r.push(x) =~= old_r + seq![x]);
                    assert(av.subrange(0, i as int).push(x) =~= av.subrange(0, i as int)
                        + seq![x]);
                    Seq::<Seq<char>>::lemma_to_set_insert_commutes(old_r, x);
                    Seq::<Seq<char>>::lemma_to_set_insert_commutes(av.subrange(0, i as int), x);
                    assert(!bv.contains(x));
                }
            }
        } else {
            proof {
                assert(r.deep_view().to_set() =~= av.subrange(0, i + 1).to_set().difference(
                    bv.to_set(),
                )) by {
                    assert(av.subrange(0, i as int).push(x) =~= av.subrange(0, i as int)
                        + seq![x]);
                    Seq::<Seq<char>>::lemma_to_set_insert_commutes(av.subrange(0, i as int), x);
                    if in_b {
                        assert(bv.contains(x));
                    } else {
                        assert(r.deep_view().contains(x));
                        assert(r.deep_view().to_set().contains(x));
                        assert(av.subrange(0, i as int).to_set().contains(x));
                    }
                }
            }
        }
        i += 1;
    }
    proof {
        assert(av.subrange(0, av.len() as int) =~= av);
    }
    r
}

/// Compares two normalized line collections by the sets of lines they
/// hold.  Returns nothing when the sets coincide, else the sorted,
/// duplicate-free lines unique to each side.
pub fn compare_line_collections(lines1: &Vec<String>, lines2: &Vec<String>) -> (r: Option<
    FileDifferences,
>)
    requires
        strings_sorted(lines1.deep_view()),
        strings_sorted(lines2.deep_view()),
    ensures
        (r is None) <==> lines1.deep_view().to_set() == lines2.deep_view().to_set(),
        r matches Some(d) ==> strings_sorted(d.only_in_first.deep_view())
            && d.only_in_first.deep_view().no_duplicates()
            && d.only_in_first.deep_view().to_set() == lines1.deep_view().to_set().difference(
            lines2.deep_view().to_set(),
        ),
        r matches Some(d) ==> strings_sorted(d.only_in_second.deep_view())
            && d.only_in_second.deep_view().no_duplicates()
            && d.only_in_second.deep_view().to_set() == lines2.deep_view().to_set().difference(
            lines1.deep_view().to_set(),
        ),
{
    broadcast use vstd::set::group_set_axioms;

    let ghost s1 = lines1.deep_view().to_set();
    let ghost s2 = lines2.deep_view().to_set();
    let d1 = set_minus(lines1, lines2);
    let d2 = set_minus(lines2, lines1);
    if d1.is_empty() && d2.is_empty() {
        proof {
            assert(s1 =~= s2) by {
                assert(d1.deep_view().len() == 0);
                assert(d2.deep_view().len() == 0);
                assert forall|x: Seq<char>| s1.contains(x) implies s2.contains(x) by {
                    if !s2.contains(x) {
                        assert(d1.deep_view().to_set().contains(x));
                        assert(d1.deep_view().contains(x));
                    }
                }
                assert forall|x: Seq<char>| s2.contains(x) implies s1.contains(x) by {
                    if !s1.contains(x) {
                        assert(d2.deep_view().to_set().contains(x));
                        assert(d2.deep_view().contains(x));
                    }
                }
            }
        }
        None
    } else {
        proof {
            if s1 == s2 {
                assert(s1.difference(s2) =~= Set::<Seq<char>>::empty());
                assert(s2.difference(s1) =~= Set::<Seq<char>>::empty());
                if d1.deep_view().len() > 0 {
                    assert(d1.deep_view().contains(d1.deep_view()[0]));
                    assert(d1.deep_view().to_set().contains(d1.deep_view()[0]));
                } else {
                    assert(d2.deep_view().len() > 0);
                    assert(d2.deep_view().contains(d2.deep_view()[0]));
                    assert(d2.deep_view().to_set().contains(d2.deep_view()[0]));
                }
            }
        }
        Some(FileDifferences { only_in_first: d1, only_in_second: d2 })
    }
}

/// Compares two files' decoded contents by their line sets.  Returns
/// nothing when the line sets coincide, else the sorted, duplicate-free
/// lines unique to each side.  Contents with equal text, and contents
/// differing only in their header line, compare as identical.
pub fn compare_files(content1: &str, content2: &str) -> (r: Option<FileDifferences>)
    ensures
        (r is None) <==> line_set(content1@) == line_set(content2@),
        content1@ == content2@ ==> r is None,
        split_lines_spec(content1@).len() >= 1 && split_lines_spec(content2@).len() >= 1
            && split_lines_spec(content1@).drop_first() == split_lines_spec(content2@).drop_first()
            ==> r is None,
        r matches Some(d) ==> strings_sorted(d.only_in_first.deep_view())
            && d.only_in_first.deep_view().no_duplicates()
            && d.only_in_first.deep_view().to_set() == line_set(content1@).difference(
            line_set(content2@),
        ),
        r matches Some(d) ==> strings_sorted(d.only_in_second.deep_view())
            && d.only_in_second.deep_view().no_duplicates()
            && d.only_in_second.deep_view().to_set() == line_set(content2@).difference(
            line_set(content1@),
        ),
{
    let l1 = process_content(content1);
    let l2 = process_content(content2);
    proof {
        lemma_sorted_body_unique(content1@, l1.deep_view(), l1.deep_view());
        lemma_sorted_body_unique(content2@, l2.deep_view(), l2.deep_view());
        if split_lines_spec(content1@).len() >= 1 && split_lines_spec(content2@).len() >= 1
            && split_lines_spec(content1@).drop_first() == split_lines_spec(
            content2@,
        ).drop_first() {
            crate::file_utils::lemma_header_excluded(content1@, content2@);
        }
    }
    compare_line_collections(&l1, &l2)
}

/// The two reported difference sets are disjoint from each other and
/// from the intersection of the two line sets, and the first difference
/// set together with that intersection recovers the first line set.
pub proof fn lemma_difference_partition(s1: Set<Seq<char>>, s2: Set<Seq<char>>)
    ensures
        s1.difference(s2).disjoint(s2.difference(s1)),
        s1.difference(s2).disjoint(s1.intersect(s2)),
        s2.difference(s1).disjoint(s1.intersect(s2)),
        s1.difference(s2).union(s1.intersect(s2)) == s1,
{
    broadcast use vstd::set::group_set_axioms;

    assert(s1.difference(s2).union(s1.intersect(s2)) =~= s1);
}

/// A name that does not follow the filename convention contributes no
/// pair: it stands on neither side of any pair the matching emits.
pub proof fn lemma_nonconforming_excluded(
    names1: Seq<Seq<char>>,
    names2: Seq<Seq<char>>,
    nm: Seq<char>,
)
    requires
        key_of(nm) is None,
    ensures
        forall|j: int|
            0 <= j < pair_spec(names1, names2).len() ==> (#[trigger] pair_spec(names1, names2)[j]).0
                != nm && pair_spec(names1, names2)[j].1 != nm,
    decreases names1.len(),
{
    if names1.len() > 0 {
        lemma_nonconforming_excluded(names1.drop_first(), names2, nm);
        let rest = pair_spec(names1.drop_first(), names2);
        let whole = pair_spec(names1, names2);
        match key_of(names1[0]) {
            Some(k) => {
                lemma_last_match(names2, k);
                match last_match(names2, k) {
                    Some(j2) => {
                        let head = seq![(names1[0], names2[j2])];
                        assert(whole == head + rest);
                        assert forall|j: int| 0 <= j < whole.len() implies (#[trigger] whole[j]).0
                            != nm && whole[j].1 != nm by {
                            if j == 0 {
                                assert(key_of(names1[0]) is Some);
                                assert(key_of(names2[j2]) is Some);
                            } else {
                                assert(whole[j] == rest[j - 1]);
                            }
                        }
                    },
                    None => {
                        assert(whole =~= rest);
                    },
                }
            },
            None => {
                assert(whole =~= rest);
            },
        }
    }
}

} // verus!
