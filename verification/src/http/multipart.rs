//! A `multipart/form-data` body reader: boundaries are located with a
//! fast byte search, and every part's header block and payload are cut
//! out of the buffered body.

use vstd::prelude::*;
use vstd::slice::slice_subrange;
use vstd::slice::slice_to_vec;

use crate::text::find_char_from;
use crate::text::find_sub;
use crate::text::first_sub;
use crate::text::split_seq;
use crate::text::split_str;
use crate::text::trim_seq;
use crate::text::trim_str;

verus! {

/// Why a body could not be opened as multipart.
#[derive(Debug)]
pub enum Error {
    /// No boundary occurs in the body.
    Boundary,
    /// The content type is not `multipart/form-data`.
    NotMultipart,
}

/// Whether `pat` occurs in `text` at position `i`.
pub open spec fn is_match(text: Seq<u8>, pat: Seq<u8>, i: int) -> bool {
    0 <= i && i + pat.len() <= text.len() && text.subrange(i, i + pat.len() as int) == pat
}

/// The first position at or after `from` where `pat` occurs in `text`;
/// `text.len() + 1` when it occurs nowhere there.
pub open spec fn first_match(text: Seq<u8>, pat: Seq<u8>, from: int) -> int
    decreases text.len() - from + 1,
{
    if from > text.len() {
        text.len() as int + 1
    } else if is_match(text, pat, from) {
        from
    } else if from >= text.len() {
        text.len() as int + 1
    } else {
        first_match(text, pat, from + 1)
    }
}

/// The last position where `pat` occurs in `text`; `text.len() + 1` when
/// it occurs nowhere. The empty pattern occurs at the very end.
pub open spec fn last_match(text: Seq<u8>, pat: Seq<u8>, upto: int) -> int
    decreases upto + 1,
{
    if upto < 0 {
        text.len() as int + 1
    } else if is_match(text, pat, upto) {
        upto
    } else {
        last_match(text, pat, upto - 1)
    }
}

/// Relies on `twoway::find_bytes`: the index of the first occurrence of
/// `pattern` in `text`, if any; the empty pattern matches at zero.
#[verifier::external_body]
fn find_bytes(text: &[u8], pattern: &[u8]) -> (r: Option<usize>)
    ensures
        match r {
            Some(i) => first_match(text@, pattern@, 0) == i && i + pattern@.len()
                <= text@.len(),
            None => first_match(text@, pattern@, 0) == text@.len() + 1,
        },
{
    twoway::find_bytes(text, pattern)
}

/// Relies on `twoway::rfind_bytes`: the index of the last occurrence of
/// `pattern` in `text`, if any; the empty pattern matches at the end.
#[verifier::external_body]
fn rfind_bytes(text: &[u8], pattern: &[u8]) -> (r: Option<usize>)
    ensures
        match r {
            Some(i) => last_match(text@, pattern@, text@.len() as int) == i && i
                + pattern@.len() <= text@.len(),
            None => last_match(text@, pattern@, text@.len() as int) == text@.len() + 1,
        },
{
    twoway::rfind_bytes(text, pattern)
}

/// Relies on `String::from_utf8`: succeeds exactly on valid UTF-8, and
/// the decoded string re-encodes to the given bytes.
#[verifier::external_body]
fn bytes_to_string(v: Vec<u8>) -> (r: Option<String>)
    ensures
        match r {
            Some(s) => vstd::utf8::encode_utf8(s@) == v@,
            None => !vstd::utf8::valid_utf8(v@),
        },
{
    String::from_utf8(v).ok()
}

/// A line of a part's header block, split at its first colon: the name
/// before it, the rest of the line — trimmed — as the value. A line
/// without a colon carries no header; a trailing carriage return is
/// dropped first.
pub open spec fn header_of_line(line: Seq<char>) -> Option<(Seq<char>, Seq<char>)> {
    let fixed = if line.len() > 0 && line.last() == '\r' {
        line.drop_last()
    } else {
        line
    };
    let parts = split_seq(fixed, ':');
    if parts.len() >= 2 {
        Some((parts[0], trim_seq(fixed.skip(parts[0].len() as int + 1))))
    } else {
        None
    }
}

/// The headers carried by the first `i` lines, in order.
pub open spec fn headers_upto(lines: Seq<Seq<char>>, i: int) -> Seq<(Seq<char>, Seq<char>)>
    decreases i,
{
    if i <= 0 {
        Seq::empty()
    } else {
        match header_of_line(lines[i - 1]) {
            Some(h) => headers_upto(lines, i - 1).push(h),
            None => headers_upto(lines, i - 1),
        }
    }
}

/// The headers of a decoded header block: the block is trimmed, split
/// into lines, and each line's `name: value` pair is collected.
pub open spec fn headers_of_block(block: Seq<char>) -> Seq<(Seq<char>, Seq<char>)> {
    headers_upto(
        split_seq(trim_seq(block), '\n'),
        split_seq(trim_seq(block), '\n').len() as int,
    )
}

/// Parses a decoded header block, line by line.
#[verifier::loop_isolation(false)]
pub fn parse_header_text(text: &str) -> (r: Vec<(String, String)>)
    ensures
        r@.map_values(|p: (String, String)| (p.0@, p.1@)) =~= headers_of_block(text@),
{
    let trimmed = trim_str(text);
    let lines = split_str(trimmed.as_str(), '\n');
    let ghost line_views = lines@.map_values(|t: String| t@);
    let mut out: Vec<(String, String)> = Vec::new();
    let mut i: usize = 0;
    let n = lines.len();
    while i < n
        invariant
            n == lines@.len(),
            line_views == lines@.map_values(|t: String| t@),
            0 <= i <= n,
            out@.map_values(|p: (String, String)| (p.0@, p.1@)) =~= headers_upto(
                line_views,
                i as int,
            ),
        decreases n - i,
    {
        let ghost line = line_views[i as int];
        let raw = lines[i].as_str();
        let rn = raw.unicode_len();
        let line_str = if rn > 0 && raw.get_char(rn - 1) == '\r' {
            raw.substring_char(0, rn - 1)
        } else {
            raw
        };
        proof {
            if line.len() > 0 && line.last() == '\r' {
                assert(line_str@ =~= line.drop_last());
            }
        }
        let found = find_char_from(line_str, 0, ':');
        match found {
            Some(c) => {
                let name = String::from_str(line_str.substring_char(0, c));
                let ln = line_str.unicode_len();
                let value = trim_str(line_str.substring_char(c + 1, ln));
                proof {
                    let fixed = line_str@;
                    crate::text::lemma_split_first(fixed, ':', c as int);
                    assert(name@ == fixed.take(c as int));
                    assert(fixed.subrange(c + 1, ln as int) =~= fixed.skip(c + 1));
                    assert(split_seq(fixed, ':')[0].len() == c);
                }
                out.push((name, value));
            },
            None => {
                proof {
                    let fixed = line_str@;
                    crate::text::lemma_split_seq_whole(fixed, ':');
                    assert(header_of_line(line) is None);
                }
            },
        }
        i = i + 1;
    }
    out
}

/// Parses a part's raw header block: decodes it as UTF-8 and reads it as
/// [`parse_header_text`] does; a block that is not UTF-8 carries no
/// headers, as an unreadable block would.
pub fn parse_header_block(block: Vec<u8>) -> (r: Vec<(String, String)>)
    ensures
        vstd::utf8::valid_utf8(block@) ==> r@.map_values(|p: (String, String)| (p.0@, p.1@))
            =~= headers_of_block(vstd::utf8::decode_utf8(block@)),
        !vstd::utf8::valid_utf8(block@) ==> r@.len() == 0,
{
    let decoded = bytes_to_string(block);
    match decoded {
        Some(text) => {
            let r = parse_header_text(text.as_str());
            proof {
                vstd::utf8::encode_utf8_decode_utf8(text@);
                vstd::utf8::encode_utf8_valid_utf8(text@);
                assert(vstd::utf8::decode_utf8(block@) == text@);
                assert(r@.map_values(|p: (String, String)| (p.0@, p.1@)) =~= headers_of_block(
                    text@,
                ));
            }
            r
        },
        None => {
            Vec::new()
        },
    }
}


/// The boundary bytes a content type declares, with the two leading
/// dashes: everything after the first `boundary=`, or — when the
/// parameter is missing — the whole content type, which a later search
/// of the body will simply fail to find. A content type that is not
/// `multipart/form-data` declares none.
pub open spec fn spec_boundary_of(ct: Seq<char>) -> Option<Seq<char>> {
    if first_sub(ct, "multipart/form-data"@, 0) > ct.len() {
        None
    } else {
        let i = first_sub(ct, "boundary="@, 0);
        if i <= ct.len() {
            Some("--"@ + ct.skip(i + 9))
        } else {
            Some("--"@ + ct)
        }
    }
}

/// Reads the boundary out of a `Content-Type` value.
pub fn boundary_from_content_type(ct: &str) -> (r: Result<String, Error>)
    ensures
        match r {
            Ok(b) => spec_boundary_of(ct@) == Some(b@),
            Err(e) => e is NotMultipart && spec_boundary_of(ct@) is None,
        },
{
    if find_sub(ct, "multipart/form-data", 0).is_none() {
        return Err(Error::NotMultipart);
    }
    let n = ct.unicode_len();
    let mut out = String::from_str("--");
    match find_sub(ct, "boundary=", 0) {
        Some(i) => {
            proof {
                reveal_strlit("boundary=");
            }
            let rest = ct.substring_char(i + 9, n);
            out.append(rest);
            proof {
                assert(out@ =~= "--"@ + ct@.skip(i + 9));
            }
        },
        None => {
            out.append(ct);
            proof {
                assert(out@ =~= "--"@ + ct@);
            }
        },
    }
    Ok(out)
}

/// The blank line separating a part's headers from its payload.
pub open spec fn crlf2() -> Seq<u8> {
    seq![13u8, 10u8, 13u8, 10u8]
}

/// A buffered multipart body, positioned between its parts. The reader
/// sits just past a boundary; the end mark is the final boundary.
pub struct Multipart {
    boundary: Vec<u8>,
    buf: Vec<u8>,
    pos: usize,
    end: usize,
}

impl Multipart {
    pub closed spec fn boundary_seq(&self) -> Seq<u8> {
        self.boundary@
    }

    pub closed spec fn buf_seq(&self) -> Seq<u8> {
        self.buf@
    }

    /// The read position: everything before it has been consumed.
    pub closed spec fn position(&self) -> int {
        self.pos as int
    }

    /// Where the final boundary sits.
    pub closed spec fn end_mark(&self) -> int {
        self.end as int
    }

    pub open spec fn wf(&self) -> bool {
        &&& 0 <= self.position() <= self.buf_seq().len()
        &&& self.end_mark() <= self.buf_seq().len()
    }

    /// Opens a buffered body with the given boundary bytes: the reader
    /// starts just past the first boundary and stops at the last one. A
    /// body without any boundary is rejected.
    pub fn new(boundary: Vec<u8>, buf: Vec<u8>) -> (r: Result<Multipart, Error>)
        ensures
            match r {
                Ok(m) => {
                    &&& m.wf()
                    &&& m.boundary_seq() == boundary@
                    &&& m.buf_seq() == buf@
                    &&& first_match(buf@, boundary@, 0) <= buf@.len()
                    &&& m.position() == first_match(buf@, boundary@, 0) + boundary@.len()
                    &&& m.end_mark() == last_match(buf@, boundary@, buf@.len() as int)
                },
                Err(e) => {
                    &&& e is Boundary
                    &&& first_match(buf@, boundary@, 0) == buf@.len() + 1
                },
            },
    {
        let total = buf.len();
        let first = find_bytes(buf.as_slice(), boundary.as_slice());
        let last = rfind_bytes(buf.as_slice(), boundary.as_slice());
        match (first, last) {
            (Some(f), Some(l)) => {
                proof {
                    lemma_first_match_bounds(buf@, boundary@, 0);
                    lemma_last_match_bounds(buf@, boundary@, buf@.len() as int);
                    assert(f + boundary@.len() <= buf@.len());
                    assert(buf@.len() == total);
                }
                let pos = f + boundary.len();
                Ok(Multipart { boundary, buf, pos, end: l })
            },
            _ => {
                proof {
                    lemma_matches_agree(buf@, boundary@);
                }
                Err(Error::Boundary)
            },
        }
    }

    /// Cuts out the next part: the bytes from the read position to the
    /// next boundary, split at the first blank line into the raw header
    /// block and the payload. The sequence ends when no boundary
    /// follows, when the part is empty, when the position has passed the
    /// final boundary — and when a part carries no blank line, which an
    /// intact body never does.
    pub fn next(&mut self) -> (r: Option<(Vec<u8>, Vec<u8>)>)
        requires
            old(self).wf(),
        ensures
            final(self).wf(),
            final(self).boundary_seq() == old(self).boundary_seq(),
            final(self).buf_seq() == old(self).buf_seq(),
            final(self).end_mark() == old(self).end_mark(),
            ({
                let buf = old(self).buf_seq();
                let pat = old(self).boundary_seq();
                let start = old(self).position();
                let stop = first_match(buf, pat, start);
                match r {
                    Some(part) => {
                        &&& stop <= buf.len()
                        &&& stop > start
                        &&& start < old(self).end_mark()
                        &&& ({
                            let piece = buf.subrange(start, stop);
                            let blank = first_match(piece, crlf2(), 0);
                            &&& blank + 4 <= piece.len()
                            &&& part.0@ == piece.subrange(0, blank)
                            &&& part.1@ == piece.subrange(blank + 4, piece.len() as int)
                            &&& final(self).position() == stop + pat.len()
                        })
                    },
                    None => true,
                }
            }),
    {
        let tail = slice_subrange(self.buf.as_slice(), self.pos, self.buf.len());
        let found = find_bytes(tail, self.boundary.as_slice());
        let rel = match found {
            Some(rel) => rel,
            None => {
                return None;
            },
        };
        proof {
            lemma_first_match_bounds(self.buf@.skip(self.pos as int), self.boundary@, 0);
            lemma_first_match_shift(self.buf@, self.boundary@, self.pos as int, 0);
            assert(self.buf@.skip(self.pos as int) =~= self.buf@.subrange(
                self.pos as int,
                self.buf@.len() as int,
            ));
        }
        let end0 = self.pos + rel;
        if end0 == self.pos || self.pos >= self.end {
            return None;
        }
        let piece = slice_subrange(self.buf.as_slice(), self.pos, end0);
        let sep = [13u8, 10u8, 13u8, 10u8];
        proof {
            assert(sep@ =~= crlf2());
        }
        let blank = match find_bytes(piece, sep.as_slice()) {
            Some(b) => b,
            None => {
                return None;
            },
        };
        proof {
            lemma_first_match_bounds(piece@, crlf2(), 0);
        }
        let headers = slice_to_vec(slice_subrange(piece, 0, blank));
        let body = slice_to_vec(slice_subrange(piece, blank + 4, piece.len()));
        self.pos = end0 + self.boundary.len();
        Some((headers, body))
    }
}

/// A found first match lies within the text, at or after the start.
proof fn lemma_first_match_bounds(text: Seq<u8>, pat: Seq<u8>, from: int)
    requires
        0 <= from,
    ensures
        first_match(text, pat, from) <= text.len() ==> {
            &&& is_match(text, pat, first_match(text, pat, from))
            &&& from <= first_match(text, pat, from)
        },
    decreases text.len() - from + 1,
{
    if from <= text.len() && !is_match(text, pat, from) && from < text.len() {
        lemma_first_match_bounds(text, pat, from + 1);
    }
}

/// A found last match lies within the text.
proof fn lemma_last_match_bounds(text: Seq<u8>, pat: Seq<u8>, upto: int)
    ensures
        last_match(text, pat, upto) <= text.len() ==> is_match(
            text,
            pat,
            last_match(text, pat, upto),
        ),
    decreases upto + 1,
{
    if upto >= 0 && !is_match(text, pat, upto) {
        lemma_last_match_bounds(text, pat, upto - 1);
    }
}

/// The first and the last search agree on whether any match exists.
proof fn lemma_matches_agree(text: Seq<u8>, pat: Seq<u8>)
    ensures
        (first_match(text, pat, 0) == text.len() + 1) == (last_match(text, pat, text.len() as int)
            == text.len() + 1),
{
    lemma_first_match_bounds(text, pat, 0);
    lemma_last_match_bounds(text, pat, text.len() as int);
    lemma_first_match_range(text, pat, 0);
    lemma_last_match_range(text, pat, text.len() as int);
    if first_match(text, pat, 0) == text.len() + 1 {
        lemma_no_first_no_match(text, pat, 0);
        assert(!is_match(text, pat, last_match(text, pat, text.len() as int)) || last_match(
            text,
            pat,
            text.len() as int,
        ) > text.len());
    }
    if last_match(text, pat, text.len() as int) == text.len() + 1 {
        lemma_no_last_no_match(text, pat, text.len() as int);
        assert(!is_match(text, pat, first_match(text, pat, 0)) || first_match(text, pat, 0)
            > text.len());
    }
}

/// The first search lands inside the text or at the sentinel.
proof fn lemma_first_match_range(text: Seq<u8>, pat: Seq<u8>, from: int)
    requires
        0 <= from,
    ensures
        first_match(text, pat, from) <= text.len() || first_match(text, pat, from) == text.len()
            + 1,
    decreases text.len() - from + 1,
{
    if from <= text.len() && !is_match(text, pat, from) && from < text.len() {
        lemma_first_match_range(text, pat, from + 1);
    }
}

/// The last search lands inside the text or at the sentinel.
proof fn lemma_last_match_range(text: Seq<u8>, pat: Seq<u8>, upto: int)
    requires
        upto <= text.len(),
    ensures
        last_match(text, pat, upto) <= text.len() || last_match(text, pat, upto) == text.len()
            + 1,
    decreases upto + 1,
{
    if upto >= 0 && !is_match(text, pat, upto) {
        lemma_last_match_range(text, pat, upto - 1);
    }
}

proof fn lemma_no_first_no_match(text: Seq<u8>, pat: Seq<u8>, from: int)
    requires
        0 <= from,
        first_match(text, pat, from) == text.len() + 1,
    ensures
        forall|i: int| from <= i ==> !is_match(text, pat, i),
    decreases text.len() - from + 1,
{
    if from < text.len() {
        lemma_no_first_no_match(text, pat, from + 1);
    }
    assert forall|i: int| from <= i implies !is_match(text, pat, i) by {
        if i > text.len() {
            assert(i + pat.len() > text.len());
        }
    }
}

proof fn lemma_no_last_no_match(text: Seq<u8>, pat: Seq<u8>, upto: int)
    requires
        last_match(text, pat, upto) == text.len() + 1,
    ensures
        forall|i: int| i <= upto ==> !is_match(text, pat, i),
    decreases upto + 1,
{
    if upto >= 0 {
        lemma_no_last_no_match(text, pat, upto - 1);
    }
}

/// Searching a tail finds the same matches as searching the whole text
/// from that position, shifted by the cut.
proof fn lemma_first_match_shift(text: Seq<u8>, pat: Seq<u8>, at: int, from: int)
    requires
        0 <= at <= text.len(),
        0 <= from,
    ensures
        ({
            let rel = first_match(text.skip(at), pat, from);
            if rel <= text.skip(at).len() {
                first_match(text, pat, at + from) == at + rel
            } else {
                first_match(text, pat, at + from) == text.len() + 1
            }
        }),
    decreases text.len() - at - from + 1,
{
    let tail = text.skip(at);
    assert(is_match(text, pat, at + from) == is_match(tail, pat, from)) by {
        if from + pat.len() <= tail.len() {
            assert(text.subrange(at + from, at + from + pat.len() as int) =~= tail.subrange(
                from,
                from + pat.len() as int,
            ));
        } else {
            assert(at + from + pat.len() > text.len());
        }
    }
    if from <= tail.len() && !is_match(tail, pat, from) && from < tail.len() {
        lemma_first_match_shift(text, pat, at, from + 1);
    }
}

} // verus!
