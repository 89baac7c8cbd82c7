//! Loading and normalizing one file's content: encoding detection,
//! decoding, header removal, trimming, and sorting.
//!
//! A file's comparable body is every line but the first, each trimmed of
//! surrounding whitespace.  The first line is a header and is always
//! excluded, whatever it holds.

use vstd::prelude::*;

use crate::error::CompareError;
use crate::text::{
    lemma_lex_le_total, lemma_lex_le_total_ordering, lemma_lex_le_trans, lex_le, lex_le_fn,
    split_lines, split_lines_spec, str_le, strings_sorted, trim, trim_spec,
};
use vstd::utf8::{encode_utf8, valid_utf8};

verus! {

/// Size in bytes above which a file must not be decoded whole in memory.
pub const MAX_MEMORY_FILE_SIZE: u64 = 104857600;

/// Line count above which sorting is delegated to the external sort
/// facility rather than done in process.
pub const EXTERNAL_SORT_LINE_THRESHOLD: usize = 100000;

/// Decides whether a file of the given byte size is too large to load
/// into memory whole, by the fixed 100 MiB policy threshold.
pub fn is_file_too_large(size: u64) -> (r: bool)
    ensures
        r == (size > MAX_MEMORY_FILE_SIZE),
{
    size > MAX_MEMORY_FILE_SIZE
}

/// Decides whether a line collection is large enough that sorting should
/// be delegated to the external sort facility.
pub fn needs_external_sort(line_count: usize) -> (r: bool)
    ensures
        r == (line_count > EXTERNAL_SORT_LINE_THRESHOLD),
{
    line_count > EXTERNAL_SORT_LINE_THRESHOLD
}

/// The comparable body of a file given as its raw lines: every line but
/// the first, each trimmed of surrounding whitespace.
pub open spec fn body_of_lines(lines: Seq<Seq<char>>) -> Seq<Seq<char>> {
    if lines.len() == 0 {
        Seq::empty()
    } else {
        lines.drop_first().map_values(|l: Seq<char>| trim_spec(l))
    }
}

/// The comparable body of a file given as its decoded text.
pub open spec fn content_body(t: Seq<char>) -> Seq<Seq<char>> {
    body_of_lines(split_lines_spec(t))
}

/// The set of comparable lines of a file given as its decoded text:
/// the membership-only view of `content_body`.
pub open spec fn line_set(t: Seq<char>) -> Set<Seq<char>> {
    content_body(t).to_set()
}

/// Drops the header line and trims each remaining line.
pub fn normalize_lines(lines: &Vec<String>) -> (r: Vec<String>)
    ensures
        r.deep_view() == body_of_lines(lines.deep_view()),
{
    let ghost dv = lines.deep_view();
    let mut r: Vec<String> = Vec::new();
    if lines.len() == 0 {
        proof {
            assert(r.deep_view() =~= body_of_lines(dv));
        }
        return r;
    }
    let mut i: usize = 1;
    proof {
        assert(r.deep_view() =~= dv.subrange(1, 1).map_values(|l: Seq<char>| trim_spec(l)));
    }
    while i < lines.len()
        invariant
            1 <= i <= lines.len(),
            dv == lines.deep_view(),
            dv.len() == lines@.len(),
            r.deep_view() == dv.subrange(1, i as int).map_values(|l: Seq<char>| trim_spec(l)),
        decreases lines.len() - i,
    {
        let t = trim(lines[i].as_str());
        let ghost old_r = r.deep_view();
        r.push(t);
        proof {
            assert(dv[i as int] == lines@[i as int]@);
            assert(dv.subrange(1, i + 1) =~= dv.subrange(1, i as int).push(dv[i as int]));
            assert(r.deep_view() =~= old_r.push(trim_spec(dv[i as int])));
            assert(dv.subrange(1, i + 1).map_values(|l: Seq<char>| trim_spec(l)) =~= dv.subrange(
                1,
                i as int,
            ).map_values(|l: Seq<char>| trim_spec(l)).push(trim_spec(dv[i as int])));
        }
        i += 1;
    }
    proof {
        assert(dv.subrange(1, dv.len() as int) =~= dv.drop_first());
    }
    r
}

/// Builds a sorted copy of `v`: same lines as a multiset, in
/// lexicographic order.
fn sorted_copy(v: &Vec<String>) -> (r: Vec<String>)
    ensures
        strings_sorted(r.deep_view()),
        r.deep_view().to_multiset() == v.deep_view().to_multiset(),
{
    let ghost dv = v.deep_view();
    let mut out: Vec<String> = Vec::new();
    let mut i: usize = 0;
    proof {
        broadcast use vstd::seq_lib::group_to_multiset_ensures;

        assert(dv.subrange(0, 0) =~= Seq::<Seq<char>>::empty());
        assert(out.deep_view() =~= Seq::<Seq<char>>::empty());
    }
    while i < v.len()
        invariant
            i <= v.len(),
            dv == v.deep_view(),
            dv.len() == v@.len(),
            strings_sorted(out.deep_view()),
            out.deep_view().to_multiset() == dv.subrange(0, i as int).to_multiset(),
        decreases v.len() - i,
    {
        let x = v[i].clone();
        let ghost xv = x@;
        proof {
            assert(xv == dv[i as int]);
        }
        let mut k: usize = 0;
        while k < out.len() && str_le(out[k].as_str(), x.as_str())
            invariant
                k <= out.len(),
                forall|j: int| 0 <= j < k ==> lex_le(#[trigger] out.deep_view()[j], xv),
                xv == x@,
            decreases out.len() - k,
        {
            proof {
                assert(out.deep_view()[k as int] == out@[k as int]@);
            }
            k += 1;
        }
        let ghost old_out = out.deep_view();
        let ghost old_sv = out@;
        proof {
            assert(k == out.len() || !lex_le(old_out[k as int], xv)) by {
                if k < out.len() {
                    assert(out.deep_view()[k as int] == out@[k as int]@);
                }
            }
        }
        out.insert(k, x);
        proof {
            broadcast use vstd::seq_lib::group_to_multiset_ensures;

            let nv = out.deep_view();
            assert(out@ == old_sv.insert(k as int, x));
            assert(nv =~= old_out.insert(k as int, xv)) by {
                assert(nv.len() == old_out.len() + 1);
                assert forall|j: int| 0 <= j < nv.len() implies nv[j] == old_out.insert(
                    k as int,
                    xv,
                )[j] by {
                    assert(nv[j] == out@[j]@);
                    assert(old_out[j] == old_sv[j]@ || j >= old_out.len());
                }
            }
            assert forall|j: int| k <= j < old_out.len() implies lex_le(xv, old_out[j]) by {
                lemma_lex_le_total(old_out[k as int], xv);
                if j > k {
                    lemma_lex_le_trans(xv, old_out[k as int], old_out[j]);
                }
            }
            assert forall|p: int, q: int| 0 <= p < q < nv.len() implies #[trigger] lex_le(
                nv[p],
                nv[q],
            ) by {
                if q < k {
                    assert(lex_le(old_out[p], old_out[q]));
                } else if p < k && q == k {
                    assert(lex_le(old_out[p], xv));
                } else if p < k && q > k {
                    assert(lex_le(old_out[p], old_out[q - 1]));
                } else if p == k && q > k {
                    assert(lex_le(xv, old_out[q - 1]));
                } else {
                    assert(lex_le(old_out[p - 1], old_out[q - 1]));
                }
            }
            assert(old_out.insert(k as int, xv).to_multiset() == old_out.to_multiset().insert(xv));
            assert(dv.subrange(0, i + 1) =~= dv.subrange(0, i as int).push(dv[i as int]));
        }
        i += 1;
    }
    proof {
        assert(dv.subrange(0, dv.len() as int) =~= dv);
    }
    out
}

/// Sorts a line collection in process, lexicographically by Unicode
/// scalar value.  This is the universal fallback sort and the sole sort
/// on platforms without a reliable external sort facility.
pub fn internal_sort(lines: &mut Vec<String>)
    ensures
        strings_sorted(final(lines).deep_view()),
        final(lines).deep_view().to_multiset() == old(lines).deep_view().to_multiset(),
{
    let s = sorted_copy(lines);
    *lines = s;
}

/// Drops the header line, trims each remaining line, and sorts the
/// result: the whole normalization pipeline on a file already split
/// into raw lines, as the streamed large-file path produces them.
pub fn process_lines(lines: &Vec<String>) -> (r: Vec<String>)
    ensures
        strings_sorted(r.deep_view()),
        r.deep_view().to_multiset() == body_of_lines(lines.deep_view()).to_multiset(),
{
    let mut body = normalize_lines(lines);
    internal_sort(&mut body);
    body
}

/// The whole normalization pipeline on a file's decoded text: split
/// into lines, drop the header, trim, and sort.
pub fn process_content(t: &str) -> (r: Vec<String>)
    ensures
        strings_sorted(r.deep_view()),
        r.deep_view().to_multiset() == content_body(t@).to_multiset(),
{
    let raw = split_lines(t);
    process_lines(&raw)
}

/// Relies on chardetng's `EncodingDetector`: feeds it the leading byte
/// sample, telling it whether the sample reaches the end of the file,
/// and returns its top guess with UTF-8 and ISO-2022-JP allowed as
/// results.
#[verifier::external_body]
pub fn detect_encoding(sample: &[u8], reached_eof: bool) -> &'static encoding_rs::Encoding {
    let mut detector = chardetng::EncodingDetector::new(chardetng::Iso2022JpDetection::Allow);
    detector.feed(sample, reached_eof);
    detector.guess(None, chardetng::Utf8Detection::Allow)
}

/// The character encoding type of encoding_rs, carried opaquely from
/// detection to decoding.
#[verifier::external_type_specification]
#[verifier::external_body]
pub struct ExEncoding(encoding_rs::Encoding);

/// The text that detecting an encoding from `sample` (with `reached_eof`
/// telling whether the sample reaches the end of the file) and decoding
/// `bytes` with the detected encoding produces.  Both the guess and the
/// decode are deterministic in these arguments, so the composite result
/// bears a name; the intermediate encoding value is an opaque outside
/// type and cannot be named on its own.
pub uninterp spec fn decoded_of(sample: Seq<u8>, reached_eof: bool, bytes: Seq<u8>) -> Seq<char>;

/// The leading byte sample of a file that encoding detection inspects:
/// the first 1024 bytes, or the whole file when it is shorter.
pub open spec fn sample_of(bytes: Seq<u8>) -> Seq<u8> {
    if bytes.len() < 1024 {
        bytes
    } else {
        bytes.subrange(0, 1024)
    }
}

/// The text that loading a file's bytes decodes them to: detection on
/// the leading sample, then a whole-buffer decode.
pub open spec fn decoded_file_text(bytes: Seq<u8>) -> Seq<char> {
    decoded_of(sample_of(bytes), bytes.len() < 1024, bytes)
}

/// Relies on chardetng's `EncodingDetector` and encoding_rs's
/// `Encoding::decode`: guesses the encoding from the leading byte
/// sample (UTF-8 and ISO-2022-JP allowed as results) and decodes the
/// whole buffer with the guess, BOM sniffing included and malformed
/// sequences replaced.  Guess and decode both depend on the arguments
/// alone, so the decoded text is `decoded_of` applied to them; empty
/// input decodes to the empty string.
#[verifier::external_body]
fn detect_and_decode(sample: &[u8], reached_eof: bool, bytes: &[u8]) -> (r: String)
    ensures
        r@ == decoded_of(sample@, reached_eof, bytes@),
        bytes@.len() == 0 ==> r@.len() == 0,
{
    let mut detector = chardetng::EncodingDetector::new(chardetng::Iso2022JpDetection::Allow);
    detector.feed(sample, reached_eof);
    let encoding = detector.guess(None, chardetng::Utf8Detection::Allow);
    let (text, _, _) = encoding.decode(bytes);
    text.into_owned()
}

/// Relies on `String::from_utf8`: succeeds exactly on valid UTF-8 input
/// and returns the string whose UTF-8 encoding is that input.
#[verifier::external_body]
fn utf8_to_string(bytes: Vec<u8>) -> (r: Option<String>)
    ensures
        r is Some <==> valid_utf8(bytes@),
        r matches Some(s) ==> encode_utf8(s@) == bytes@,
{
    String::from_utf8(bytes).ok()
}

/// Detects the encoding of a file's bytes, decodes them, and
/// normalizes the text: the result is exactly the comparable body of
/// the decoded text, in file order and not yet sorted.
pub fn read_and_normalize_file(bytes: &Vec<u8>) -> (r: Vec<String>)
    ensures
        r.deep_view() == content_body(decoded_file_text(bytes@)),
        bytes@.len() == 0 ==> r@.len() == 0,
{
    let n = bytes.len();
    let sample_len = if n < 1024 {
        n
    } else {
        1024
    };
    let sample = vstd::slice::slice_subrange(bytes.as_slice(), 0, sample_len);
    let text = detect_and_decode(sample, n < 1024, bytes.as_slice());
    proof {
        assert(sample@ =~= sample_of(bytes@));
        assert(text@ == decoded_file_text(bytes@));
    }
    let raw = split_lines(text.as_str());
    let r = normalize_lines(&raw);
    proof {
        assert(r.deep_view() == content_body(text@));
        if bytes@.len() == 0 {
            assert(text@.len() == 0);
            assert(split_lines_spec(text@) =~= Seq::<Seq<char>>::empty());
            assert(content_body(text@) =~= Seq::<Seq<char>>::empty());
            assert(r.deep_view().len() == r@.len());
        }
    }
    r
}

/// Detects the encoding of a file's bytes, decodes them, and runs the
/// whole normalization pipeline: the result is the comparable body of
/// the decoded text, sorted in process.
pub fn read_and_process_file(bytes: &Vec<u8>) -> (r: Vec<String>)
    ensures
        strings_sorted(r.deep_view()),
        r.deep_view().to_multiset() == content_body(decoded_file_text(bytes@)).to_multiset(),
        bytes@.len() == 0 ==> r@.len() == 0,
{
    let mut lines = read_and_normalize_file(bytes);
    let ghost before = lines.deep_view();
    internal_sort(&mut lines);
    proof {
        broadcast use vstd::seq_lib::group_to_multiset_ensures;

        assert(lines.deep_view().to_multiset() == content_body(
            decoded_file_text(bytes@),
        ).to_multiset());
        if bytes@.len() == 0 {
            assert(before.len() == 0);
            assert(lines.deep_view().to_multiset().len() == 0);
            assert(lines.deep_view().len() == lines@.len());
        }
    }
    lines
}

/// Interprets the outcome of the external whole-line sort facility: a
/// failure status or undecodable output is a sort error; otherwise the
/// output text's lines are the sorted line collection.
pub fn finish_external_sort(success: bool, output: Vec<u8>) -> (r: Result<
    Vec<String>,
    CompareError,
>)
    ensures
        !success ==> (r matches Err(e) && e matches CompareError::Sort(_)),
        success && !valid_utf8(output@) ==> (r matches Err(e) && e matches CompareError::Sort(_)),
        success && valid_utf8(output@) ==> (r matches Ok(v) && exists|t: Seq<char>|
            encode_utf8(t) == output@ && v.deep_view() == split_lines_spec(t)),
{
    if !success {
        return Err(CompareError::Sort(String::from_str("external sort command failed")));
    }
    match utf8_to_string(output) {
        None => Err(
            CompareError::Sort(String::from_str("external sort output was not valid text")),
        ),
        Some(text) => {
            let v = split_lines(text.as_str());
            proof {
                assert(encode_utf8(text@) == output@ && v.deep_view() == split_lines_spec(text@));
            }
            Ok(v)
        },
    }
}

/// Two texts whose line splits agree below line 0 have the same
/// comparable body and the same line set: the header line never
/// contributes to a file's comparable content, whatever it holds.
pub proof fn lemma_header_excluded(t1: Seq<char>, t2: Seq<char>)
    requires
        split_lines_spec(t1).len() >= 1,
        split_lines_spec(t2).len() >= 1,
        split_lines_spec(t1).drop_first() == split_lines_spec(t2).drop_first(),
    ensures
        content_body(t1) == content_body(t2),
        line_set(t1) == line_set(t2),
{
}

/// Any two sorted permutations of a text's comparable body are the same
/// sequence, and their lines form the text's line set: the streamed
/// large-file path and the in-memory path normalize a file to the same
/// result whenever both meet their sortedness and permutation
/// contracts.
pub proof fn lemma_sorted_body_unique(t: Seq<char>, r1: Seq<Seq<char>>, r2: Seq<Seq<char>>)
    requires
        strings_sorted(r1),
        strings_sorted(r2),
        r1.to_multiset() == content_body(t).to_multiset(),
        r2.to_multiset() == content_body(t).to_multiset(),
    ensures
        r1 == r2,
        r1.to_set() == line_set(t),
{
    broadcast use vstd::seq_lib::group_to_multiset_ensures;

    lemma_lex_le_total_ordering();
    assert(vstd::relations::sorted_by(r1, lex_le_fn())) by {
        assert forall|i: int, j: int| 0 <= i < j < r1.len() implies lex_le_fn()(r1[i], r1[j]) by {
            assert(lex_le(r1[i], r1[j]));
        }
    }
    assert(vstd::relations::sorted_by(r2, lex_le_fn())) by {
        assert forall|i: int, j: int| 0 <= i < j < r2.len() implies lex_le_fn()(r2[i], r2[j]) by {
            assert(lex_le(r2[i], r2[j]));
        }
    }
    vstd::seq_lib::lemma_sorted_unique(r1, r2, lex_le_fn());
    assert(r1 =~= r2);
    assert forall|x: Seq<char>| #[trigger] r1.contains(x) implies content_body(t).contains(x) by {
        vstd::seq_lib::to_multiset_contains(r1, x);
        vstd::seq_lib::to_multiset_contains(content_body(t), x);
    }
    assert forall|x: Seq<char>| #[trigger] content_body(t).contains(x) implies r1.contains(x) by {
        vstd::seq_lib::to_multiset_contains(r1, x);
        vstd::seq_lib::to_multiset_contains(content_body(t), x);
    }
    assert(r1.to_set() =~= line_set(t));
}

} // verus!
