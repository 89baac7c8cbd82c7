//! Text primitives: line and field splitting, whitespace trimming, and
//! lexicographic ordering of character sequences.
//!
//! A line is a maximal run of characters not containing `'\n'`.  A final
//! newline terminates the last line rather than opening an empty one, so
//! `"a\nb\n"` and `"a\nb"` both split into the lines `"a"` and `"b"`.

use vstd::prelude::*;

verus! {

/// Whether `c` has the Unicode `White_Space` property, the set of
/// characters that trimming removes.
pub open spec fn is_space(c: char) -> bool {
    let u = c as u32;
    u == 0x20 || (0x09 <= u && u <= 0x0d) || u == 0x85 || u == 0xa0 || u == 0x1680 || (0x2000 <= u
        && u <= 0x200a) || u == 0x2028 || u == 0x2029 || u == 0x202f || u == 0x205f || u == 0x3000
}

fn is_space_char(c: char) -> (r: bool)
    ensures
        r == is_space(c),
{
    let u = c as u32;
    u == 0x20 || (0x09 <= u && u <= 0x0d) || u == 0x85 || u == 0xa0 || u == 0x1680 || (0x2000 <= u
        && u <= 0x200a) || u == 0x2028 || u == 0x2029 || u == 0x202f || u == 0x205f || u == 0x3000
}

/// `s` without its leading whitespace.
pub open spec fn trim_start_spec(s: Seq<char>) -> Seq<char>
    decreases s.len(),
{
    if s.len() == 0 {
        s
    } else if is_space(s[0]) {
        trim_start_spec(s.drop_first())
    } else {
        s
    }
}

/// `s` without its trailing whitespace.
pub open spec fn trim_end_spec(s: Seq<char>) -> Seq<char>
    decreases s.len(),
{
    if s.len() == 0 {
        s
    } else if is_space(s.last()) {
        trim_end_spec(s.drop_last())
    } else {
        s
    }
}

/// `s` without its surrounding whitespace.
pub open spec fn trim_spec(s: Seq<char>) -> Seq<char> {
    trim_end_spec(trim_start_spec(s))
}

/// Returns `s` with leading and trailing whitespace removed.
pub fn trim(s: &str) -> (r: String)
    ensures
        r@ == trim_spec(s@),
{
    let n = s.unicode_len();
    let mut a: usize = 0;
    proof {
        assert(s@.subrange(0, n as int) =~= s@);
    }
    while a < n && is_space_char(s.get_char(a))
        invariant
            a <= n,
            n == s@.len(),
            trim_start_spec(s@) == trim_start_spec(s@.subrange(a as int, n as int)),
        decreases n - a,
    {
        proof {
            assert(s@.subrange(a as int, n as int).drop_first() =~= s@.subrange(
                a + 1,
                n as int,
            ));
        }
        a += 1;
    }
    if a == n {
        proof {
            assert(s@.subrange(a as int, n as int) =~= Seq::<char>::empty());
            assert(trim_spec(s@) =~= Seq::<char>::empty());
        }
        return String::new();
    }
    proof {
        assert(trim_start_spec(s@) == s@.subrange(a as int, n as int));
    }
    let mut b: usize = n;
    while b > a + 1 && is_space_char(s.get_char(b - 1))
        invariant
            a < b <= n,
            n == s@.len(),
            trim_start_spec(s@) == s@.subrange(a as int, n as int),
            trim_end_spec(s@.subrange(a as int, n as int)) == trim_end_spec(
                s@.subrange(a as int, b as int),
            ),
        decreases b,
    {
        proof {
            let cur = s@.subrange(a as int, b as int);
            assert(cur.last() == s@[b - 1]);
            assert(cur.drop_last() =~= s@.subrange(a as int, b - 1));
        }
        b -= 1;
    }
    proof {
        let cur = s@.subrange(a as int, b as int);
        assert(cur[0] == s@[a as int]);
        if is_space(cur.last()) {
            assert(b == a + 1);
            assert(cur.last() == cur[0]);
            assert(false);
        }
        assert(trim_spec(s@) == cur);
    }
    let piece = s.substring_char(a, b);
    piece.to_owned()
}

/// Lexicographic order on character sequences, by Unicode scalar value.
/// This agrees with Rust's ordering on `String`, whose byte-wise UTF-8
/// comparison orders exactly by scalar value.
pub open spec fn lex_le(a: Seq<char>, b: Seq<char>) -> bool
    decreases a.len(),
{
    if a.len() == 0 {
        true
    } else if b.len() == 0 {
        false
    } else if (a[0] as u32) < (b[0] as u32) {
        true
    } else if (a[0] as u32) > (b[0] as u32) {
        false
    } else {
        lex_le(a.drop_first(), b.drop_first())
    }
}

/// `lex_le` is reflexive.
pub proof fn lemma_lex_le_refl(a: Seq<char>)
    ensures
        lex_le(a, a),
    decreases a.len(),
{
    if a.len() > 0 {
        lemma_lex_le_refl(a.drop_first());
    }
}

/// Any two character sequences are comparable under `lex_le`.
pub proof fn lemma_lex_le_total(a: Seq<char>, b: Seq<char>)
    ensures
        lex_le(a, b) || lex_le(b, a),
    decreases a.len(),
{
    if a.len() > 0 && b.len() > 0 && (a[0] as u32) == (b[0] as u32) {
        lemma_lex_le_total(a.drop_first(), b.drop_first());
    }
}

/// `lex_le` is antisymmetric: mutual order means equality.
pub proof fn lemma_lex_le_antisym(a: Seq<char>, b: Seq<char>)
    requires
        lex_le(a, b),
        lex_le(b, a),
    ensures
        a == b,
    decreases a.len(),
{
    if a.len() == 0 {
        assert(b.len() == 0);
        assert(a =~= b);
    } else {
        assert(b.len() > 0);
        lemma_lex_le_antisym(a.drop_first(), b.drop_first());
        vstd::utf8::char_u32_cast(a[0], a[0] as u32);
        vstd::utf8::char_u32_cast(b[0], b[0] as u32);
        assert(a[0] == b[0]);
        assert(a =~= b) by {
            assert(a.drop_first().len() == a.len() - 1);
            assert(b.drop_first().len() == b.len() - 1);
            assert(a.len() == b.len());
            assert(forall|i: int|
                1 <= i < a.len() ==> a[i] == a.drop_first()[i - 1] && b[i] == b.drop_first()[i
                    - 1]);
        }
    }
}

/// `lex_le` is transitive.
pub proof fn lemma_lex_le_trans(a: Seq<char>, b: Seq<char>, c: Seq<char>)
    requires
        lex_le(a, b),
        lex_le(b, c),
    ensures
        lex_le(a, c),
    decreases a.len(),
{
    if a.len() > 0 {
        assert(b.len() > 0);
        assert(c.len() > 0);
        if (a[0] as u32) == (b[0] as u32) && (b[0] as u32) == (c[0] as u32) {
            lemma_lex_le_trans(a.drop_first(), b.drop_first(), c.drop_first());
        }
    }
}

/// Whether every pair of lines in `s` stands in lexicographic order.
pub open spec fn strings_sorted(s: Seq<Seq<char>>) -> bool {
    forall|i: int, j: int| 0 <= i < j < s.len() ==> #[trigger] lex_le(s[i], s[j])
}

/// `lex_le` as a binary relation value, in the form the sortedness
/// lemmas of the standard library take.
pub open spec fn lex_le_fn() -> spec_fn(Seq<char>, Seq<char>) -> bool {
    |x: Seq<char>, y: Seq<char>| lex_le(x, y)
}

/// `lex_le` is a total ordering.
pub proof fn lemma_lex_le_total_ordering()
    ensures
        vstd::relations::total_ordering(lex_le_fn()),
{
    let r = lex_le_fn();
    assert forall|x: Seq<char>| #[trigger] r(x, x) by {
        lemma_lex_le_refl(x);
    }
    assert forall|x: Seq<char>, y: Seq<char>| #[trigger] r(x, y) && #[trigger] r(y, x)
        implies x == y by {
        lemma_lex_le_antisym(x, y);
    }
    assert forall|x: Seq<char>, y: Seq<char>, z: Seq<char>|
        #[trigger] r(x, y) && #[trigger] r(y, z) implies r(x, z) by {
        lemma_lex_le_trans(x, y, z);
    }
    assert forall|x: Seq<char>, y: Seq<char>| !(#[trigger] r(x, y)) implies #[trigger] r(y, x) by {
        lemma_lex_le_total(x, y);
    }
}

/// Compares two strings for equality of their character sequences.
pub fn str_eq(a: &str, b: &str) -> (r: bool)
    ensures
        r == (a@ == b@),
{
    let na = a.unicode_len();
    let nb = b.unicode_len();
    if na != nb {
        proof {
            assert(a@ != b@);
        }
        return false;
    }
    let mut i: usize = 0;
    while i < na
        invariant
            i <= na,
            na == a@.len(),
            na == b@.len(),
            forall|k: int| 0 <= k < i ==> a@[k] == b@[k],
        decreases na - i,
    {
        let ca = a.get_char(i);
        let cb = b.get_char(i);
        if ca != cb {
            proof {
                assert(a@[i as int] != b@[i as int]);
            }
            return false;
        }
        i += 1;
    }
    proof {
        assert(a@ =~= b@);
    }
    true
}

/// Decides `lex_le(a@, b@)` by scanning for the first differing character.
pub fn str_le(a: &str, b: &str) -> (r: bool)
    ensures
        r == lex_le(a@, b@),
{
    let na = a.unicode_len();
    let nb = b.unicode_len();
    let mut i: usize = 0;
    proof {
        assert(a@.subrange(0, na as int) =~= a@);
        assert(b@.subrange(0, nb as int) =~= b@);
    }
    while i < na && i < nb
        invariant
            i <= na,
            i <= nb,
            na == a@.len(),
            nb == b@.len(),
            lex_le(a@, b@) == lex_le(
                a@.subrange(i as int, na as int),
                b@.subrange(i as int, nb as int),
            ),
        decreases na - i,
    {
        let ca = a.get_char(i);
        let cb = b.get_char(i);
        proof {
            let sa = a@.subrange(i as int, na as int);
            let sb = b@.subrange(i as int, nb as int);
            assert(sa[0] == a@[i as int]);
            assert(sb[0] == b@[i as int]);
            assert(sa.drop_first() =~= a@.subrange(i + 1, na as int));
            assert(sb.drop_first() =~= b@.subrange(i + 1, nb as int));
        }
        if (ca as u32) < (cb as u32) {
            return true;
        }
        if (ca as u32) > (cb as u32) {
            return false;
        }
        i += 1;
    }
    proof {
        let sa = a@.subrange(i as int, na as int);
        let sb = b@.subrange(i as int, nb as int);
        if i == na {
            assert(sa.len() == 0);
            assert(lex_le(sa, sb));
        } else {
            assert(i == nb);
            assert(sa.len() > 0);
            assert(sb.len() == 0);
            assert(!lex_le(sa, sb));
        }
    }
    na <= nb
}

/// The fields of `s` split on the separator `sep`: always at least one
/// field, and a trailing separator opens a final empty field, so
/// `"a_"` splits into `"a"` and `""`.
pub open spec fn split_on_spec(s: Seq<char>, sep: char) -> Seq<Seq<char>>
    decreases s.len(),
{
    if s.len() == 0 {
        seq![Seq::<char>::empty()]
    } else if s[0] == sep {
        seq![Seq::<char>::empty()] + split_on_spec(s.drop_first(), sep)
    } else {
        let rest = split_on_spec(s.drop_first(), sep);
        seq![seq![s[0]] + rest[0]] + rest.drop_first()
    }
}

/// A text without separators is a single field.
proof fn lemma_split_on_no_sep(s: Seq<char>, sep: char)
    requires
        forall|k: int| 0 <= k < s.len() ==> s[k] != sep,
    ensures
        split_on_spec(s, sep) == seq![s],
    decreases s.len(),
{
    if s.len() == 0 {
        assert(split_on_spec(s, sep) =~~= seq![s]);
    } else {
        lemma_split_on_no_sep(s.drop_first(), sep);
        let rest = split_on_spec(s.drop_first(), sep);
        assert(rest[0] == s.drop_first());
        assert(seq![s[0]] + rest[0] =~= s);
        assert(rest.drop_first() =~= Seq::<Seq<char>>::empty());
        assert(split_on_spec(s, sep) =~~= seq![s]);
    }
}

/// Splitting a text whose first separator stands right after `pre`
/// yields `pre` as the first field, followed by the fields of the rest.
proof fn lemma_split_on_prefix(pre: Seq<char>, suf: Seq<char>, sep: char)
    requires
        forall|k: int| 0 <= k < pre.len() ==> pre[k] != sep,
    ensures
        split_on_spec(pre + seq![sep] + suf, sep) == seq![pre] + split_on_spec(suf, sep),
    decreases pre.len(),
{
    let t = pre + seq![sep] + suf;
    if pre.len() == 0 {
        assert(t[0] == sep);
        assert(t.drop_first() =~= suf);
        assert(pre =~= Seq::<char>::empty());
        assert(split_on_spec(t, sep) =~~= seq![pre] + split_on_spec(suf, sep));
    } else {
        assert(t[0] == pre[0]);
        assert(t[0] != sep);
        lemma_split_on_prefix(pre.drop_first(), suf, sep);
        assert(t.drop_first() =~= pre.drop_first() + seq![sep] + suf);
        let rest = split_on_spec(t.drop_first(), sep);
        assert(rest == seq![pre.drop_first()] + split_on_spec(suf, sep));
        assert(rest[0] == pre.drop_first());
        assert(seq![t[0]] + rest[0] =~= pre);
        assert(rest.drop_first() =~= split_on_spec(suf, sep));
        assert(split_on_spec(t, sep) =~~= seq![pre] + split_on_spec(suf, sep));
    }
}

/// Splits `s` into its fields on the separator `sep`.
pub fn split_on(s: &str, sep: char) -> (r: Vec<String>)
    ensures
        r.deep_view() == split_on_spec(s@, sep),
{
    let n = s.unicode_len();
    let mut r: Vec<String> = Vec::new();
    let mut start: usize = 0;
    let mut i: usize = 0;
    proof {
        assert(s@.subrange(0, n as int) =~= s@);
        assert(r.deep_view() =~= Seq::<Seq<char>>::empty());
    }
    while i < n
        invariant
            start <= i <= n,
            n == s@.len(),
            forall|k: int| start <= k < i ==> s@[k] != sep,
            split_on_spec(s@, sep) == r.deep_view() + split_on_spec(
                s@.subrange(start as int, n as int),
                sep,
            ),
        decreases n - i,
    {
        let c = s.get_char(i);
        if c == sep {
            let piece = s.substring_char(start, i).to_owned();
            let ghost old_r = r.deep_view();
            r.push(piece);
            proof {
                let pre = s@.subrange(start as int, i as int);
                let suf = s@.subrange(i + 1, n as int);
                lemma_split_on_prefix(pre, suf, sep);
                assert(s@.subrange(start as int, n as int) =~= pre + seq![sep] + suf);
                assert(r.deep_view() =~= old_r + seq![pre]);
                assert(r.deep_view() + split_on_spec(suf, sep) =~= old_r + (seq![pre]
                    + split_on_spec(suf, sep)));
            }
            start = i + 1;
        }
        i += 1;
    }
    let piece = s.substring_char(start, n).to_owned();
    let ghost old_r = r.deep_view();
    r.push(piece);
    proof {
        let pre = s@.subrange(start as int, n as int);
        lemma_split_on_no_sep(pre, sep);
        assert(r.deep_view() =~= old_r + seq![pre]);
        assert(r.deep_view() =~= split_on_spec(s@, sep));
    }
    r
}

/// The sequence of lines of `t`: segments between `'\n'` separators,
/// with no trailing empty segment when `t` ends in `'\n'`.
pub open spec fn split_lines_spec(t: Seq<char>) -> Seq<Seq<char>>
    decreases t.len(),
{
    if t.len() == 0 {
        Seq::empty()
    } else if t[0] == '\n' {
        seq![Seq::<char>::empty()] + split_lines_spec(t.drop_first())
    } else {
        let rest = split_lines_spec(t.drop_first());
        if rest.len() == 0 {
            seq![seq![t[0]]]
        } else {
            seq![seq![t[0]] + rest[0]] + rest.drop_first()
        }
    }
}

/// A text without newlines is a single line (or no line at all when empty).
proof fn lemma_split_lines_no_newline(t: Seq<char>)
    requires
        t.len() > 0,
        forall|k: int| 0 <= k < t.len() ==> t[k] != '\n',
    ensures
        split_lines_spec(t) == seq![t],
    decreases t.len(),
{
    if t.len() == 1 {
        assert(seq![t[0]] =~= t);
        assert(t.drop_first().len() == 0);
        assert(split_lines_spec(t.drop_first()) =~= Seq::<Seq<char>>::empty());
        assert(split_lines_spec(t) =~~= seq![t]);
    } else {
        lemma_split_lines_no_newline(t.drop_first());
        assert(seq![t[0]] + t.drop_first() =~= t);
        assert(split_lines_spec(t) =~~= seq![t]);
    }
}

/// Splitting a text whose first newline stands right after `pre` yields
/// `pre` as the first line, followed by the lines of the remainder.
proof fn lemma_split_lines_prefix(pre: Seq<char>, suf: Seq<char>)
    requires
        forall|k: int| 0 <= k < pre.len() ==> pre[k] != '\n',
    ensures
        split_lines_spec(pre + seq!['\n'] + suf) == seq![pre] + split_lines_spec(suf),
    decreases pre.len(),
{
    let t = pre + seq!['\n'] + suf;
    if pre.len() == 0 {
        assert(t[0] == '\n');
        assert(t.drop_first() =~= suf);
        assert(pre =~= Seq::<char>::empty());
        assert(split_lines_spec(t) =~~= seq![pre] + split_lines_spec(suf));
    } else {
        assert(t[0] == pre[0]);
        assert(t[0] != '\n');
        lemma_split_lines_prefix(pre.drop_first(), suf);
        assert(t.drop_first() =~= pre.drop_first() + seq!['\n'] + suf);
        let rest = split_lines_spec(t.drop_first());
        assert(rest == seq![pre.drop_first()] + split_lines_spec(suf));
        assert(rest.len() > 0);
        assert(rest[0] == pre.drop_first());
        assert(seq![t[0]] + rest[0] =~= pre);
        assert(rest.drop_first() =~= split_lines_spec(suf));
        assert(split_lines_spec(t) =~= seq![pre] + split_lines_spec(suf));
    }
}

/// Splits `t` into its lines.
pub fn split_lines(t: &str) -> (r: Vec<String>)
    ensures
        r.deep_view() == split_lines_spec(t@),
{
    let n = t.unicode_len();
    let mut r: Vec<String> = Vec::new();
    let mut start: usize = 0;
    let mut i: usize = 0;
    proof {
        assert(t@.subrange(0, n as int) =~= t@);
        assert(r.deep_view() =~= Seq::<Seq<char>>::empty());
    }
    while i < n
        invariant
            start <= i <= n,
            n == t@.len(),
            forall|k: int| start <= k < i ==> t@[k] != '\n',
            split_lines_spec(t@) == r.deep_view() + split_lines_spec(
                t@.subrange(start as int, n as int),
            ),
        decreases n - i,
    {
        let c = t.get_char(i);
        if c == '\n' {
            let piece = t.substring_char(start, i).to_owned();
            let ghost old_r = r.deep_view();
            r.push(piece);
            proof {
                let pre = t@.subrange(start as int, i as int);
                let suf = t@.subrange(i + 1, n as int);
                lemma_split_lines_prefix(pre, suf);
                assert(t@.subrange(start as int, n as int) =~= pre + seq!['\n'] + suf);
                assert(r.deep_view() =~= old_r + seq![pre]);
                assert(r.deep_view() + split_lines_spec(suf) =~= old_r + (seq![pre]
                    + split_lines_spec(suf)));
            }
            start = i + 1;
        }
        i += 1;
    }
    if start < n {
        let piece = t.substring_char(start, n).to_owned();
        let ghost old_r = r.deep_view();
        r.push(piece);
        proof {
            let pre = t@.subrange(start as int, n as int);
            lemma_split_lines_no_newline(pre);
            assert(r.deep_view() =~= old_r + seq![pre]);
            assert(r.deep_view() =~= split_lines_spec(t@));
        }
    } else {
        proof {
            assert(t@.subrange(start as int, n as int) =~= Seq::<char>::empty());
            assert(split_lines_spec(Seq::<char>::empty()) =~= Seq::<Seq<char>>::empty());
            assert(r.deep_view() =~= split_lines_spec(t@));
        }
    }
    r
}

} // verus!
