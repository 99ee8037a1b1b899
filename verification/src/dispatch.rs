//! The source dispatcher: sniff a source's leading bytes, unwrap one level
//! of gzip when the magic bytes announce it, and decide whether the bytes
//! are a direct record stream or a manifest naming further sources.

use vstd::prelude::*;

use crate::model::{
    is_space, trim, manifest_paths, manifest_paths_from, LF, TAG_SHORT, TAG_LONG, TAG_COMMENT,
    GZ_MAGIC_1, GZ_MAGIC_2, lemma_find_from_is, lemma_trim_start_is, lemma_trim_end_is,
};
use crate::record::{ParseError, Reader};
use crate::scan::{is_space_byte, find_byte};

verus! {

/// The decompressed image of a byte sequence under the gzip encoding, when
/// it has one.
pub uninterp spec fn gunzip_of(s: Seq<u8>) -> Option<Seq<u8>>;

/// Relies on flate2::read::MultiGzDecoder, read to the end through
/// std::io::Read::read_to_end: decoding every member of a gzip stream held
/// in memory. The result is a function of the input bytes alone.
#[verifier::external_body]
fn gunzip(bytes: &Vec<u8>) -> (r: Result<Vec<u8>, String>)
    ensures
        r matches Ok(d) ==> gunzip_of(bytes@) == Some(d@),
        r matches Err(m) ==> gunzip_of(bytes@) is None,
{
    let mut out = Vec::new();
    let mut dec = flate2::read::MultiGzDecoder::new(bytes.as_slice());
    match std::io::Read::read_to_end(&mut dec, &mut out) {
        Ok(_) => Ok(out),
        Err(e) => Err(format!("{}", e)),
    }
}

/// A gzip stream starts with the two magic bytes.
pub open spec fn is_gz(b: Seq<u8>) -> bool {
    b.len() >= 2 && b[0] == GZ_MAGIC_1 && b[1] == GZ_MAGIC_2
}

/// One resolved source: a direct record stream, or the list of paths its
/// manifest names (to be opened by the caller and resolved in turn).
pub enum Resolved {
    Records(Reader),
    Manifest(Vec<Vec<u8>>),
}

/// What dispatching sniffed bytes yields: fewer than four bytes are a
/// truncated source, a record tag starts a reader over all the bytes, and
/// anything else is read as a manifest.
pub open spec fn dispatch_matches(r: Result<Resolved, ParseError>, d: Seq<u8>) -> bool {
    if d.len() < 4 {
        r matches Err(ParseError::TruncateFile(t)) && t@ == d
    } else if d[0] == TAG_SHORT || d[0] == TAG_LONG {
        r matches Ok(Resolved::Records(rd)) && rd@.bytes == d && rd@.pos == 0
    } else {
        r matches Ok(Resolved::Manifest(ps)) && ps.deep_view() == manifest_paths(d)
    }
}

/// What resolving a source's raw bytes yields: the dispatch above, applied
/// to the decompressed image when the gzip magic opens the source (one
/// unwrapping only), and to the bytes themselves otherwise.
pub open spec fn resolve_matches(r: Result<Resolved, ParseError>, b: Seq<u8>) -> bool {
    if b.len() < 4 {
        r matches Err(ParseError::TruncateFile(t)) && t@ == b
    } else if is_gz(b) {
        match gunzip_of(b) {
            Some(d) => dispatch_matches(r, d),
            None => r matches Err(ParseError::Io(m)),
        }
    } else {
        dispatch_matches(r, b)
    }
}

/// The paths a manifest holds, in order: one per line, trimmed of
/// surrounding whitespace, with blank lines and `#`-comment lines skipped.
pub fn parse_manifest(bytes: &Vec<u8>) -> (r: Vec<Vec<u8>>)
    ensures
        r.deep_view() == manifest_paths(bytes@),
{
    let ghost s = bytes@;
    let len = bytes.len();
    let mut out: Vec<Vec<u8>> = Vec::new();
    let mut pos: usize = 0;
    proof {
        assert(out.deep_view() =~= Seq::<Seq<u8>>::empty());
    }
    while pos < len
        invariant
            bytes@ == s,
            len == s.len(),
            pos <= len,
            manifest_paths(s) == out.deep_view() + manifest_paths_from(s, pos as int),
        decreases len - pos,
    {
        let start = pos;
        let tail = vstd::slice::slice_subrange(bytes.as_slice(), start, len);
        let e = match find_byte(LF, tail) {
            Some(i) => start + i,
            None => len,
        };
        proof {
            assert forall|k: int| start as int <= k < e as int implies s[k] != LF by {
                assert(tail@[k - start as int] != LF);
            }
            lemma_find_from_is(s, start as int, LF, e as int);
        }
        let ghost line = s.subrange(start as int, e as int);
        // Trim the line from both ends.
        let mut i = start;
        while i < e && is_space_byte(bytes[i])
            invariant
                bytes@ == s,
                start <= i <= e <= len == s.len(),
                forall|k: int| start <= k < i ==> is_space(#[trigger] s[k]),
            decreases e - i,
        {
            i = i + 1;
        }
        let mut j = e;
        while j > i && is_space_byte(bytes[j - 1])
            invariant
                bytes@ == s,
                start <= i <= j <= e <= len == s.len(),
                forall|k: int| j <= k < e ==> is_space(#[trigger] s[k]),
            decreases j,
        {
            j = j - 1;
        }
        proof {
            assert(trim(line) =~= s.subrange(i as int, j as int)) by {
                assert forall|k: int| 0 <= k < i - start implies is_space(#[trigger] line[k]) by {
                    assert(is_space(s[start + k]));
                }
                assert(i - start == line.len() || !is_space(line[i - start]));
                lemma_trim_start_is(line, i - start);
                let mid = line.subrange(i - start, line.len() as int);
                assert(mid =~= s.subrange(i as int, e as int));
                assert forall|k: int| j - i <= k < mid.len() implies is_space(
                    #[trigger] mid[k],
                ) by {
                    assert(is_space(s[i + k]));
                }
                assert(j - i == 0 || !is_space(mid[j - i - 1]));
                lemma_trim_end_is(mid, j - i);
                assert(mid.subrange(0, j - i) =~= s.subrange(i as int, j as int));
            }
        }
        let ghost dv0 = out.deep_view();
        if j > i && bytes[i] != TAG_COMMENT {
            let path = vstd::slice::slice_to_vec(
                vstd::slice::slice_subrange(bytes.as_slice(), i, j),
            );
            proof {
                assert(path.deep_view() =~= s.subrange(i as int, j as int));
            }
            out.push(path);
            proof {
                assert(out.deep_view() =~= dv0.push(s.subrange(i as int, j as int)));
            }
        }
        pos = if e < len {
            e + 1
        } else {
            len
        };
        proof {
            assert(manifest_paths_from(s, start as int) == (if trim(line).len() == 0
                || trim(line)[0] == TAG_COMMENT {
                manifest_paths_from(s, pos as int)
            } else {
                seq![trim(line)] + manifest_paths_from(s, pos as int)
            }));
            if j > i && s[i as int] != TAG_COMMENT {
                assert(out.deep_view() =~= dv0.push(trim(line)));
                assert(dv0 + (seq![trim(line)] + manifest_paths_from(s, pos as int))
                    =~= out.deep_view() + manifest_paths_from(s, pos as int));
            } else {
                assert(trim(line).len() == 0 || trim(line)[0] == TAG_COMMENT);
            }
            assert(manifest_paths(s) =~= out.deep_view() + manifest_paths_from(s, pos as int));
        }
    }
    proof {
        assert(out.deep_view() + manifest_paths_from(s, len as int) =~= out.deep_view());
    }
    out
}

/// Dispatch on sniffed (already decompressed) bytes: build the reader for
/// a record stream, or collect the manifest's paths.
pub fn dispatch_bytes(d: Vec<u8>) -> (r: Result<Resolved, ParseError>)
    ensures
        dispatch_matches(r, d@),
{
    if d.len() < 4 {
        return Err(ParseError::TruncateFile(d));
    }
    let b0 = d[0];
    if b0 == TAG_SHORT || b0 == TAG_LONG {
        Ok(Resolved::Records(Reader::new(d)))
    } else {
        let ps = parse_manifest(&d);
        Ok(Resolved::Manifest(ps))
    }
}

/// Resolve one source held in memory: sniff the leading bytes, unwrap one
/// level of gzip when the magic announces it, and dispatch on the first
/// byte of the (possibly decompressed) stream.
pub fn resolve_source(bytes: Vec<u8>) -> (r: Result<Resolved, ParseError>)
    ensures
        resolve_matches(r, bytes@),
{
    if bytes.len() < 4 {
        return Err(ParseError::TruncateFile(bytes));
    }
    if bytes[0] == GZ_MAGIC_1 && bytes[1] == GZ_MAGIC_2 {
        match gunzip(&bytes) {
            Ok(d) => dispatch_bytes(d),
            Err(m) => Err(ParseError::Io(m)),
        }
    } else {
        dispatch_bytes(bytes)
    }
}

} // verus!
