//! Whole record files: a delimiter-framed header block followed by a
//! free-text body, decoded and encoded with a proven round trip.
use vstd::prelude::*;
use vstd::string::StrSliceExecFns;
use vstd::string::StringExecFns;

use crate::DecodeError;
use crate::header::{
    TodoFrontmatter, HeaderV, parse_header_spec, serialize_header_spec, parse_header,
    serialize_header, header_wf, lemma_serialize_nl_block, lemma_parse_serialized,
};
use crate::text::{
    find_delim_from, find_delim, is_delim_at, trim_spec, trim_str, chars_of,
    lemma_find_delim_exact, lemma_trim_spec_ends, is_ws,
};

verus! {

/// The delimiter on its own line, as it frames the header block.
pub open spec fn delim_line() -> Seq<char> {
    seq!['-', '-', '-', '\n']
}

/// What decoding a record yields: the text before the first delimiter is
/// discarded, the text between the first two delimiters is parsed as the
/// header block, and the remainder is the body with surrounding whitespace
/// trimmed. Fewer than two delimiters is a malformed record; a bad header
/// block is a header error.
pub open spec fn decode_spec(raw: Seq<char>) -> Result<(HeaderV, Seq<char>), DecodeError> {
    match find_delim_from(raw, 0) {
        None => Err(DecodeError::MalformedRecord),
        Some(d1) => match find_delim_from(raw, d1 + 3) {
            None => Err(DecodeError::MalformedRecord),
            Some(d2) => {
                let header_text = raw.subrange(d1 + 3, d2);
                let body_raw = raw.subrange(d2 + 3, raw.len() as int);
                match parse_header_spec(header_text) {
                    None => Err(DecodeError::HeaderParse),
                    Some(h) => Ok((h, trim_spec(body_raw))),
                }
            },
        },
    }
}

/// What encoding a record produces: a delimiter line, the header block, a
/// delimiter line, a blank line, the trimmed body, and a final line feed.
pub open spec fn encode_spec(h: HeaderV, b: Seq<char>) -> Seq<char> {
    delim_line() + serialize_header_spec(h) + delim_line() + seq!['\n'] + trim_spec(b) + seq!['\n']
}

/// Splits a raw record into its header and trimmed body.
pub fn decode(raw: &str) -> (r: Result<(TodoFrontmatter, String), DecodeError>)
    ensures
        match decode_spec(raw@) {
            Ok(p) => r matches Ok(q) && q.0@ == p.0 && q.1@ == p.1,
            Err(e) => r matches Err(e2) && e2 == e,
        },
{
    let v = chars_of(raw);
    let n = v.len();
    let d1 = match find_delim(&v, 0) {
        None => {
            return Err(DecodeError::MalformedRecord);
        },
        Some(i) => i,
    };
    let d2 = match find_delim(&v, d1 + 3) {
        None => {
            return Err(DecodeError::MalformedRecord);
        },
        Some(i) => i,
    };
    let header_text = raw.substring_char(d1 + 3, d2);
    let body_raw = raw.substring_char(d2 + 3, n);
    match parse_header(header_text) {
        None => Err(DecodeError::HeaderParse),
        Some(h) => {
            let body = trim_str(body_raw);
            Ok((h, body.to_owned()))
        },
    }
}

/// Writes a record out in its on-disk text form.
pub fn encode(h: &TodoFrontmatter, body: &str) -> (r: String)
    ensures
        r@ == encode_spec(h@, body@),
{
    let mut s = String::new();
    s.append("---\n");
    let hdr = serialize_header(h);
    s.append(hdr.as_str());
    s.append("---\n\n");
    s.append(trim_str(body));
    s.append("\n");
    proof {
        reveal_strlit("---\n");
        reveal_strlit("---\n\n");
        reveal_strlit("\n");
        assert("---\n"@ =~= delim_line());
        assert("---\n\n"@ =~= delim_line() + seq!['\n']);
        assert("\n"@ =~= seq!['\n']);
        assert(s@ =~= encode_spec(h@, body@));
    }
    s
}

/// Round trip: decoding an encoded record recovers the header exactly and
/// the body up to trimming, for any line-safe header and any body text.
pub proof fn lemma_round_trip(h: HeaderV, b: Seq<char>)
    requires
        header_wf(h),
    ensures
        decode_spec(encode_spec(h, b)) == Ok::<(HeaderV, Seq<char>), DecodeError>(
            (h, trim_spec(b)),
        ),
{
    let hh = serialize_header_spec(h);
    let hn = hh.len() as int;
    let t = trim_spec(b);
    let raw = encode_spec(h, b);
    lemma_serialize_nl_block(h);
    assert(raw.len() == hn + t.len() + 10);
    // the opening delimiter stands at the start
    assert(raw[0] == '-' && raw[1] == '-' && raw[2] == '-' && raw[3] == '\n');
    assert(is_delim_at(raw, 0));
    lemma_find_delim_exact(raw, 0, 0);
    // the characters of the header region
    assert forall|p: int| 4 <= p < 4 + hn implies raw[p] == hh[p - 4] by {}
    assert(raw[4 + hn - 1] == hh[hn - 1]);
    assert(hh[hn - 1] == hh.last());
    // the closing delimiter stands right after the header block
    assert(raw[4 + hn] == '-' && raw[4 + hn + 1] == '-' && raw[4 + hn + 2] == '-');
    assert(is_delim_at(raw, 4 + hn));
    assert forall|j: int| 3 <= j < 4 + hn implies !is_delim_at(raw, j) by {
        if j == 3 {
            assert(raw[3] == '\n');
        } else if is_delim_at(raw, j) {
            if j + 2 < 4 + hn {
                assert(raw[j] == hh[j - 4] && raw[j + 1] == hh[j - 3] && raw[j + 2] == hh[j - 2]);
                assert(is_delim_at(hh, j - 4));
                assert(false);
            } else {
                assert(j <= 4 + hn - 1 <= j + 2);
                assert(raw[4 + hn - 1] == '\n');
                assert(false);
            }
        }
    }
    lemma_find_delim_exact(raw, 3, 4 + hn);
    // the regions on either side of the closing delimiter
    assert(raw.subrange(3, 4 + hn) =~= seq!['\n'] + hh);
    lemma_parse_serialized(h);
    assert(raw.subrange(4 + hn + 3, raw.len() as int) =~= seq!['\n', '\n'] + t + seq!['\n']);
    // trimming the body region recovers the trimmed body
    lemma_trim_spec_ends(b);
    assert(is_ws('\n'));
    crate::text::lemma_trim_wrap(seq!['\n', '\n'], t, seq!['\n']);
    assert(trim_spec(seq!['\n', '\n'] + t + seq!['\n']) == t);
}

} // verus!
