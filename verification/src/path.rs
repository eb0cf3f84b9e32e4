//! Request paths: from the raw path of a request to its segments, and from
//! segments back to the text of a link.

use crate::error::IndexError;
use crate::percent::{
    escape_segment, escaped, escaped_text, is_well_escaped, lemma_escaped_is_plain,
    lemma_escaped_is_well_escaped, lemma_escaped_text_bytes, lemma_unescaped_escaped,
    unescape_segment, unescaped, well_escaped,
};
use vstd::prelude::*;
use vstd::slice::slice_subrange;
use vstd::string::*;
use vstd::utf8::*;

verus! {

/// The byte that separates the segments of a path.
pub const SLASH: u8 = 0x2F;

/// The byte of which `.` and `..` are made.
pub const DOT: u8 = 0x2E;

/// The separator of paths on some file systems.
pub const BACKSLASH: u8 = 0x5C;

/// The encoded segments with a `/` between each two of them.
pub open spec fn joined(segments: Seq<Seq<char>>) -> Seq<char>
    decreases segments.len(),
{
    if segments.len() == 0 {
        Seq::empty()
    } else if segments.len() == 1 {
        escaped_text(segments[0])
    } else {
        joined(segments.drop_last()) + seq!['/'] + escaped_text(segments.last())
    }
}

/// The text of the link to `segments`. The trailing slash closes the last
/// segment, so a path without segments gets none: its link is `/` with a
/// leading slash and empty without.
pub open spec fn link_text(segments: Seq<Seq<char>>, trailing_slash: bool, leading_slash: bool) -> Seq<
    char,
> {
    (if leading_slash {
        seq!['/']
    } else {
        Seq::empty()
    }) + joined(segments) + (if trailing_slash && segments.len() > 0 {
        seq!['/']
    } else {
        Seq::empty()
    })
}

/// Encodes each segment for use in a URL path and joins them with `/`.
pub fn encode(segments: &Vec<String>, trailing_slash: bool, leading_slash: bool) -> (link: String)
    ensures
        link@ == link_text(segments.deep_view(), trailing_slash, leading_slash),
{
    proof {
        reveal_strlit("/");
    }
    let mut link = String::new();
    if leading_slash {
        link.append("/");
    }
    let ghost lead = link@;
    let ghost all = segments.deep_view();
    let mut i: usize = 0;
    while i < segments.len()
        invariant
            i <= segments.len(),
            all == segments.deep_view(),
            "/"@ == seq!['/'],
            link@ == lead + joined(all.take(i as int)),
        decreases segments.len() - i,
    {
        if i > 0 {
            link.append("/");
        }
        let piece = escape_segment(segments[i].as_str());
        link.append(piece.as_str());
        proof {
            let before = all.take(i as int);
            let now = all.take(i + 1);
            assert(now.drop_last() == before);
            assert(now.last() == segments[i as int]@);
            encode_utf8_decode_utf8(piece@);
        }
        i += 1;
    }
    assert(all.take(i as int) == all);
    if trailing_slash && segments.len() > 0 {
        link.append("/");
    }
    link
}

/// The link to `path` without a trailing slash, from the root of the site
/// where `with_root` is set.
pub fn encode_link_path(path: &Vec<String>, with_root: bool) -> (link: String)
    ensures
        link@ == link_text(path.deep_view(), false, with_root),
{
    encode(path, false, with_root)
}

/// A copy of the segments.
pub fn copy_segments(segments: &Vec<String>) -> (copy: Vec<String>)
    ensures
        copy.deep_view() == segments.deep_view(),
{
    let mut copy: Vec<String> = Vec::new();
    let mut i: usize = 0;
    while i < segments.len()
        invariant
            i <= segments.len(),
            copy.len() == i,
            forall|j: int| 0 <= j < i ==> (#[trigger] copy[j])@ == segments[j]@,
        decreases segments.len() - i,
    {
        copy.push(segments[i].clone());
        i += 1;
    }
    assert(copy.deep_view() =~= segments.deep_view());
    copy
}

/// The index of the first `/` in `bytes`, or their number where there is
/// none.
pub open spec fn first_slash(bytes: Seq<u8>) -> int
    decreases bytes.len(),
{
    if bytes.len() == 0 || bytes[0] == SLASH {
        0
    } else {
        1 + first_slash(bytes.drop_first())
    }
}

/// The non-empty runs of bytes that the slashes of a raw path separate, in
/// order. Leading, trailing and repeated slashes separate nothing.
pub open spec fn path_runs(bytes: Seq<u8>) -> Seq<Seq<u8>>
    decreases bytes.len(),
{
    let k = first_slash(bytes);
    if bytes.len() == 0 {
        Seq::empty()
    } else if k == 0 {
        path_runs(bytes.drop_first())
    } else if 0 < k < bytes.len() {
        seq![bytes.take(k)] + path_runs(bytes.skip(k + 1))
    } else {
        seq![bytes]
    }
}

/// Whether a run of a raw path is a percent-encoded segment: two
/// hexadecimal digits follow every `%`, and what it stands for is
/// well-formed UTF-8.
pub open spec fn is_encoded_segment(run: Seq<u8>) -> bool {
    well_escaped(run) && valid_utf8(unescaped(run))
}

/// Whether every run of the raw path is a percent-encoded segment.
pub open spec fn well_encoded(raw: Seq<u8>) -> bool {
    forall|i: int| 0 <= i < path_runs(raw).len() ==> is_encoded_segment(#[trigger] path_runs(raw)[i])
}

/// The segments that the raw path stands for.
pub open spec fn decoded_segments(raw: Seq<u8>) -> Seq<Seq<char>> {
    Seq::new(path_runs(raw).len(), |i: int| decode_utf8(unescaped(path_runs(raw)[i])))
}

/// `first_slash` is the first index that holds a slash.
pub proof fn lemma_first_slash(bytes: Seq<u8>, k: int)
    requires
        0 <= k <= bytes.len(),
        forall|j: int| 0 <= j < k ==> bytes[j] != SLASH,
        k < bytes.len() ==> bytes[k] == SLASH,
    ensures
        first_slash(bytes) == k,
    decreases bytes.len(),
{
    if k > 0 {
        let rest = bytes.drop_first();
        assert forall|j: int| 0 <= j < k - 1 implies rest[j] != SLASH by {
            assert(rest[j] == bytes[j + 1]);
        }
        lemma_first_slash(rest, k - 1);
    }
}

/// The runs of a path whose first slash stands at `k`.
proof fn lemma_runs_at_slash(bytes: Seq<u8>, k: int)
    requires
        0 <= k < bytes.len(),
        forall|j: int| 0 <= j < k ==> bytes[j] != SLASH,
        bytes[k] == SLASH,
    ensures
        path_runs(bytes) == if k == 0 {
            path_runs(bytes.skip(1))
        } else {
            seq![bytes.take(k)] + path_runs(bytes.skip(k + 1))
        },
{
    lemma_first_slash(bytes, k);
    assert(bytes.drop_first() == bytes.skip(1));
}

/// The runs of a path without a slash.
proof fn lemma_runs_without_slash(bytes: Seq<u8>)
    requires
        forall|j: int| 0 <= j < bytes.len() ==> bytes[j] != SLASH,
    ensures
        path_runs(bytes) == if bytes.len() == 0 {
            Seq::<Seq<u8>>::empty()
        } else {
            seq![bytes]
        },
{
    lemma_first_slash(bytes, bytes.len() as int);
}

/// Where `first_slash` points: no slash stands before it, and a slash
/// stands at it unless it is the end.
proof fn lemma_first_slash_is_first(bytes: Seq<u8>)
    ensures
        0 <= first_slash(bytes) <= bytes.len(),
        forall|j: int| 0 <= j < first_slash(bytes) ==> bytes[j] != SLASH,
        first_slash(bytes) < bytes.len() ==> bytes[first_slash(bytes)] == SLASH,
    decreases bytes.len(),
{
    if bytes.len() > 0 && bytes[0] != SLASH {
        let rest = bytes.drop_first();
        lemma_first_slash_is_first(rest);
        assert forall|j: int| 0 <= j < first_slash(bytes) implies bytes[j] != SLASH by {
            if j > 0 {
                assert(bytes[j] == rest[j - 1]);
            }
        }
    }
}

/// A slash and a run behind a path add that run to its runs.
proof fn lemma_runs_push(path: Seq<u8>, run: Seq<u8>)
    requires
        run.len() > 0,
        forall|j: int| 0 <= j < run.len() ==> run[j] != SLASH,
    ensures
        path_runs(path + seq![SLASH] + run) == path_runs(path).push(run),
    decreases path.len(),
{
    let whole = path + seq![SLASH] + run;
    let k = first_slash(path);
    lemma_first_slash_is_first(path);
    lemma_runs_without_slash(run);
    if path.len() == 0 {
        lemma_first_slash(whole, 0);
        assert(whole.drop_first() == run);
        assert(path_runs(path).push(run) == seq![run]);
    } else if k == 0 {
        lemma_first_slash(whole, 0);
        assert(whole.drop_first() == path.drop_first() + seq![SLASH] + run);
        lemma_runs_push(path.drop_first(), run);
    } else if k < path.len() {
        assert forall|j: int| 0 <= j < k implies whole[j] != SLASH by {
            assert(whole[j] == path[j]);
        }
        assert(whole[k] == path[k]);
        lemma_first_slash(whole, k);
        assert(whole.take(k) == path.take(k));
        assert(whole.skip(k + 1) == path.skip(k + 1) + seq![SLASH] + run);
        lemma_runs_push(path.skip(k + 1), run);
        assert(path_runs(whole) == seq![path.take(k)] + path_runs(path.skip(k + 1)).push(run));
        assert(path_runs(whole) == path_runs(path).push(run));
    } else {
        assert forall|j: int| 0 <= j < k implies whole[j] != SLASH by {
            assert(whole[j] == path[j]);
        }
        assert(whole[k] == SLASH);
        lemma_first_slash(whole, k);
        assert(whole.take(k) == path);
        assert(whole.skip(k + 1) == run);
        assert(path_runs(whole) == seq![path] + seq![run]);
        assert(path_runs(path) == seq![path]);
        assert(path_runs(whole) == path_runs(path).push(run));
    }
}

/// A slash behind a path adds no run.
proof fn lemma_runs_trailing_slash(path: Seq<u8>)
    ensures
        path_runs(path + seq![SLASH]) == path_runs(path),
    decreases path.len(),
{
    let whole = path + seq![SLASH];
    let k = first_slash(path);
    lemma_first_slash_is_first(path);
    assert(path_runs(Seq::<u8>::empty()) == Seq::<Seq<u8>>::empty());
    if path.len() == 0 {
        lemma_first_slash(whole, 0);
        assert(whole.drop_first() == Seq::<u8>::empty());
    } else if k == 0 {
        lemma_first_slash(whole, 0);
        assert(whole.drop_first() == path.drop_first() + seq![SLASH]);
        lemma_runs_trailing_slash(path.drop_first());
    } else if k < path.len() {
        assert forall|j: int| 0 <= j < k implies whole[j] != SLASH by {
            assert(whole[j] == path[j]);
        }
        assert(whole[k] == path[k]);
        lemma_first_slash(whole, k);
        assert(whole.take(k) == path.take(k));
        assert(whole.skip(k + 1) == path.skip(k + 1) + seq![SLASH]);
        lemma_runs_trailing_slash(path.skip(k + 1));
    } else {
        assert forall|j: int| 0 <= j < k implies whole[j] != SLASH by {
            assert(whole[j] == path[j]);
        }
        assert(whole[k] == SLASH);
        lemma_first_slash(whole, k);
        assert(whole.take(k) == path);
        assert(whole.skip(k + 1) == Seq::<u8>::empty());
        assert(path_runs(whole) == seq![path] + Seq::<Seq<u8>>::empty());
        assert(path_runs(path) == seq![path]);
    }
}

/// The bytes of a text made of two parts are the bytes of the first and
/// then those of the second.
pub proof fn lemma_encode_utf8_add(a: Seq<char>, b: Seq<char>)
    ensures
        encode_utf8(a + b) == encode_utf8(a) + encode_utf8(b),
    decreases a.len(),
{
    if a.len() == 0 {
        assert(a + b == b);
    } else {
        assert((a + b).drop_first() == a.drop_first() + b);
        lemma_encode_utf8_add(a.drop_first(), b);
    }
}

/// The text `/` is the one byte `SLASH`.
proof fn lemma_slash_bytes()
    ensures
        encode_utf8(seq!['/']) == seq![SLASH],
{
    let text = seq!['/'];
    assert(is_ascii_chars(text));
    is_ascii_chars_encode_utf8(text);
    assert(text[0] as u8 == SLASH);
    assert(encode_utf8(text)[0] == SLASH);
    assert(encode_utf8(text) == seq![SLASH]);
}

/// The encoded bytes of each segment, in order.
pub open spec fn escaped_runs(segments: Seq<Seq<char>>) -> Seq<Seq<u8>> {
    Seq::new(segments.len(), |i: int| escaped(encode_utf8(segments[i])))
}

/// The runs of joined segments are the encoded segments.
proof fn lemma_runs_of_joined(segments: Seq<Seq<char>>)
    requires
        forall|i: int| 0 <= i < segments.len() ==> (#[trigger] segments[i]).len() > 0,
    ensures
        path_runs(encode_utf8(joined(segments))) == escaped_runs(segments),
    decreases segments.len(),
{
    if segments.len() == 0 {
        assert(escaped_runs(segments) == Seq::<Seq<u8>>::empty());
    } else {
        let last = segments.last();
        let run = escaped(encode_utf8(last));
        lemma_escaped_text_bytes(last);
        lemma_escaped_is_plain(encode_utf8(last));
        lemma_bytes_of_text(last);
        if segments.len() == 1 {
            lemma_runs_without_slash(run);
            assert(escaped_runs(segments) == seq![run]);
        } else {
            let front = segments.drop_last();
            lemma_runs_of_joined(front);
            lemma_slash_bytes();
            lemma_encode_utf8_add(joined(front), seq!['/']);
            lemma_encode_utf8_add(joined(front) + seq!['/'], escaped_text(last));
            lemma_runs_push(encode_utf8(joined(front)), run);
            assert(escaped_runs(segments) == escaped_runs(front).push(run));
        }
    }
}

/// A text that is not empty has bytes.
proof fn lemma_bytes_of_text(text: Seq<char>)
    requires
        text.len() > 0,
    ensures
        encode_utf8(text).len() > 0,
{
    encode_utf8_decode_utf8(text);
    if encode_utf8(text).len() == 0 {
        assert(decode_utf8(encode_utf8(text)).len() == 0);
    }
}

/// Decoding a link gives back the segments it was made of, with or without
/// a slash at either end, as long as no segment is empty.
pub proof fn lemma_decode_encode(
    segments: Seq<Seq<char>>,
    trailing_slash: bool,
    leading_slash: bool,
)
    requires
        forall|i: int| 0 <= i < segments.len() ==> (#[trigger] segments[i]).len() > 0,
    ensures
        well_encoded(encode_utf8(link_text(segments, trailing_slash, leading_slash))),
        decoded_segments(encode_utf8(link_text(segments, trailing_slash, leading_slash)))
            == segments,
{
    let lead = if leading_slash {
        seq!['/']
    } else {
        Seq::<char>::empty()
    };
    let trail = if trailing_slash && segments.len() > 0 {
        seq!['/']
    } else {
        Seq::<char>::empty()
    };
    let middle = encode_utf8(joined(segments));
    let raw = encode_utf8(link_text(segments, trailing_slash, leading_slash));
    lemma_slash_bytes();
    lemma_encode_utf8_add(lead, joined(segments));
    lemma_encode_utf8_add(lead + joined(segments), trail);
    lemma_runs_of_joined(segments);
    let headed = encode_utf8(lead) + middle;
    assert(path_runs(headed) == path_runs(middle)) by {
        if leading_slash {
            lemma_first_slash(headed, 0);
            assert(headed.drop_first() == middle);
        } else {
            assert(headed == middle);
        }
    }
    assert(path_runs(raw) == path_runs(headed)) by {
        if trailing_slash && segments.len() > 0 {
            lemma_runs_trailing_slash(headed);
        } else {
            assert(raw == headed);
        }
    }
    assert forall|i: int| 0 <= i < segments.len() implies is_encoded_segment(
        #[trigger] path_runs(raw)[i],
    ) && decode_utf8(unescaped(path_runs(raw)[i])) == segments[i] by {
        lemma_unescaped_escaped(encode_utf8(segments[i]));
        lemma_escaped_is_well_escaped(encode_utf8(segments[i]));
        encode_utf8_valid_utf8(segments[i]);
        encode_utf8_decode_utf8(segments[i]);
    }
    assert(decoded_segments(raw) =~= segments);
}

/// Decodes one run of a raw path.
fn decode_segment(run: &[u8]) -> (r: Option<String>)
    ensures
        r is Some <==> is_encoded_segment(run@),
        r is Some ==> r->0@ == decode_utf8(unescaped(run@)),
{
    if is_well_escaped(run) {
        unescape_segment(run)
    } else {
        None
    }
}

/// Splits the raw path of a request at its slashes, drops the empty pieces
/// and percent-decodes each of the others as UTF-8. A piece in which a `%`
/// lacks its two hexadecimal digits, or which does not stand for UTF-8, is
/// an error.
pub fn decode(raw_path: &str) -> (r: Result<Vec<String>, IndexError>)
    ensures
        r is Ok <==> well_encoded(encode_utf8(raw_path@)),
        r is Ok ==> r->Ok_0.deep_view() == decoded_segments(encode_utf8(raw_path@)),
        r is Err ==> r->Err_0 == IndexError::DecodingError,
{
    let bytes = raw_path.as_bytes();
    let n = bytes.len();
    let ghost raw = bytes@;
    let mut segments: Vec<String> = Vec::new();
    let ghost mut done: Seq<Seq<u8>> = Seq::empty();
    let mut start: usize = 0;
    let mut i: usize = 0;
    assert(raw.skip(0) == raw);
    while i < n
        invariant
            n == bytes.len(),
            raw == bytes@,
            raw == encode_utf8(raw_path@),
            start <= i <= n,
            forall|j: int| start <= j < i ==> raw[j] != SLASH,
            path_runs(raw) == done + path_runs(raw.skip(start as int)),
            segments.len() == done.len(),
            forall|j: int|
                0 <= j < done.len() ==> is_encoded_segment(#[trigger] done[j]) && segments[j]@
                    == decode_utf8(unescaped(done[j])),
        decreases n - i,
    {
        if bytes[i] == SLASH {
            proof {
                let tail = raw.skip(start as int);
                assert forall|j: int| 0 <= j < i - start implies tail[j] != SLASH by {
                    assert(tail[j] == raw[start + j]);
                }
                lemma_runs_at_slash(tail, i - start);
                assert(tail.skip(i - start + 1) == raw.skip(i + 1));
                assert(tail.skip(1) == raw.skip(start + 1));
                assert(tail.take(i - start) == raw.subrange(start as int, i as int));
            }
            if start < i {
                let run = slice_subrange(bytes, start, i);
                match decode_segment(run) {
                    Some(segment) => {
                        segments.push(segment);
                        proof {
                            done = done.push(run@);
                        }
                    },
                    None => {
                        proof {
                            assert(path_runs(raw)[done.len() as int] == run@);
                        }
                        return Err(IndexError::DecodingError);
                    },
                }
            }
            start = i + 1;
        }
        i += 1;
    }
    proof {
        let tail = raw.skip(start as int);
        assert forall|j: int| 0 <= j < tail.len() implies tail[j] != SLASH by {
            assert(tail[j] == raw[start + j]);
        }
        lemma_runs_without_slash(tail);
    }
    if start < n {
        let run = slice_subrange(bytes, start, n);
        assert(run@ == raw.skip(start as int));
        match decode_segment(run) {
            Some(segment) => {
                segments.push(segment);
                proof {
                    done = done.push(run@);
                }
            },
            None => {
                proof {
                    assert(path_runs(raw)[done.len() as int] == run@);
                }
                return Err(IndexError::DecodingError);
            },
        }
    }
    assert(path_runs(raw) == done);
    assert(segments.deep_view() =~= decoded_segments(raw));
    Ok(segments)
}

/// Whether a segment with these bytes can only name a child of the
/// directory it is resolved in: it is not empty, it is neither `.` nor
/// `..`, and it holds no separator of either kind.
pub open spec fn is_child_name(bytes: Seq<u8>) -> bool {
    &&& bytes.len() > 0
    &&& bytes != seq![DOT]
    &&& bytes != seq![DOT, DOT]
    &&& forall|j: int| 0 <= j < bytes.len() ==> bytes[j] != SLASH && bytes[j] != BACKSLASH
}

/// Whether a path with these segments, resolved below a root directory,
/// stays below it.
pub open spec fn stays_inside(segments: Seq<Seq<char>>) -> bool {
    forall|i: int| 0 <= i < segments.len() ==> is_child_name(encode_utf8(#[trigger] segments[i]))
}

/// Whether the segment can only name a child of a directory.
pub fn names_child(segment: &str) -> (r: bool)
    ensures
        r == is_child_name(encode_utf8(segment@)),
{
    let bytes = segment.as_bytes();
    let n = bytes.len();
    if n == 0 {
        return false;
    }
    if n == 1 && bytes[0] == DOT {
        assert(bytes@ == seq![DOT]);
        return false;
    }
    if n == 2 && bytes[0] == DOT && bytes[1] == DOT {
        assert(bytes@ == seq![DOT, DOT]);
        return false;
    }
    assert(bytes@ != seq![DOT]) by {
        if bytes@ == seq![DOT] {
            assert(bytes@.len() == 1 && bytes@[0] == DOT);
        }
    }
    assert(bytes@ != seq![DOT, DOT]) by {
        if bytes@ == seq![DOT, DOT] {
            assert(bytes@.len() == 2 && bytes@[0] == DOT && bytes@[1] == DOT);
        }
    }
    let mut i: usize = 0;
    while i < n
        invariant
            i <= n,
            n == bytes.len(),
            bytes@ == encode_utf8(segment@),
            forall|j: int| 0 <= j < i ==> bytes@[j] != SLASH && bytes@[j] != BACKSLASH,
        decreases n - i,
    {
        if bytes[i] == SLASH || bytes[i] == BACKSLASH {
            return false;
        }
        i += 1;
    }
    true
}

/// Refuses a path that could leave the root directory it is resolved in.
/// To be called before the segments are put behind the root.
pub fn check_traversal(segments: &Vec<String>) -> (r: Result<(), IndexError>)
    ensures
        r is Ok <==> stays_inside(segments.deep_view()),
        r is Err ==> r->Err_0 == IndexError::PathEscape,
{
    let mut i: usize = 0;
    while i < segments.len()
        invariant
            i <= segments.len(),
            forall|j: int|
                0 <= j < i ==> is_child_name(encode_utf8(#[trigger] segments.deep_view()[j])),
        decreases segments.len() - i,
    {
        if !names_child(segments[i].as_str()) {
            assert(segments.deep_view()[i as int] == segments[i as int]@);
            return Err(IndexError::PathEscape);
        }
        assert(segments.deep_view()[i as int] == segments[i as int]@);
        i += 1;
    }
    Ok(())
}

/// A path with a segment `.` or `..` does not stay inside its root.
pub proof fn lemma_dots_are_refused(segments: Seq<Seq<char>>, i: int)
    requires
        0 <= i < segments.len(),
        segments[i] == seq!['.'] || segments[i] == seq!['.', '.'],
    ensures
        !stays_inside(segments),
{
    let text = segments[i];
    assert(is_ascii_chars(text));
    is_ascii_chars_encode_utf8(text);
    let bytes = encode_utf8(text);
    assert(text[0] as u8 == DOT);
    if text.len() == 1 {
        assert(bytes == seq![DOT]);
    } else {
        assert(text[1] as u8 == DOT);
        assert(bytes == seq![DOT, DOT]);
    }
    assert(!is_child_name(encode_utf8(segments[i])));
}

/// The segments of the raw path of a request, for a path that stays below
/// the root: `decode`, then `check_traversal`.
pub fn request_segments(raw_path: &str) -> (r: Result<Vec<String>, IndexError>)
    ensures
        r is Ok <==> well_encoded(encode_utf8(raw_path@)) && stays_inside(
            decoded_segments(encode_utf8(raw_path@)),
        ),
        r is Ok ==> r->Ok_0.deep_view() == decoded_segments(encode_utf8(raw_path@)),
        r is Err ==> r->Err_0 == if well_encoded(encode_utf8(raw_path@)) {
            IndexError::PathEscape
        } else {
            IndexError::DecodingError
        },
{
    match decode(raw_path) {
        Ok(segments) => match check_traversal(&segments) {
            Ok(()) => Ok(segments),
            Err(e) => Err(e),
        },
        Err(e) => Err(e),
    }
}

} // verus!
