//! The laws of the scanner: what parsing guarantees for every well-formed
//! record on the wire — round trips, length invariants, stream
//! composability, and gzip transparency.

use vstd::prelude::*;

use crate::dispatch::{resolve_matches, dispatch_matches, gunzip_of, is_gz, Resolved};
use crate::record::{first_live, ParseError, SourceModel};
use crate::model::{
    is_space, find_from, first_space_from, strip_lf, has_payload, line_is_blank, line_next,
    skip_blank_lines, exact_end, parse_step, parse_short_tail, parse_long_tail, RecModel, Outcome,
    ParseStep, LF, TAG_SHORT, TAG_LONG, TAG_SEP, lemma_find_from_spec, lemma_find_from_is,
    lemma_first_space_spec, lemma_first_space_is, lemma_exact_end_bounds, lemma_exact_end_block,
    lemma_skip_blank_spec,
};

verus! {

/// The bytes of a short-form record on the wire: the tag, the header tail,
/// the line terminator, then the sequence body (which may span lines).
pub open spec fn short_bytes(htail: Seq<u8>, body: Seq<u8>) -> Seq<u8> {
    seq![TAG_SHORT] + htail + seq![LF] + body
}

/// A well-formed short-form record on the wire: a one-line header whose
/// identifier starts right after the tag, and a sequence body that holds
/// no record tag and at least one payload byte.
pub open spec fn short_wire(htail: Seq<u8>, body: Seq<u8>) -> bool {
    &&& htail.len() > 0
    &&& !is_space(htail[0])
    &&& forall|i: int| 0 <= i < htail.len() ==> #[trigger] htail[i] != LF
    &&& forall|i: int| 0 <= i < body.len() ==> #[trigger] body[i] != TAG_SHORT
    &&& strip_lf(body).len() > 0
}

/// The record that a well-formed short-form wire denotes.
pub open spec fn short_rec(htail: Seq<u8>, body: Seq<u8>) -> RecModel {
    let hline = seq![TAG_SHORT] + htail;
    let sq = strip_lf(body);
    RecModel {
        head: first_space_from(hline, 0),
        des: hline.len() as int,
        seq: hline.len() + sq.len() as int,
        sep: hline.len() + sq.len() as int,
        qual: hline.len() + sq.len() as int,
        data: hline + sq,
    }
}

/// A position holding a byte other than whitespace starts its own line, so
/// blank-line skipping stays put there.
proof fn lemma_skip_stays(s: Seq<u8>, p: int)
    requires
        0 <= p < s.len(),
        !is_space(s[p]),
    ensures
        skip_blank_lines(s, p) == p,
{
    lemma_find_from_spec(s, p, LF);
    if s[p] == LF {
        assert(is_space(s[p]));
    }
    assert(p < find_from(s, p, LF));
    assert(!line_is_blank(s, p));
}

/// Re-parsing a well-formed short-form record recovers exactly its
/// identifier and its sequence, with the body's internal line breaks
/// removed. The record may be followed by nothing, or directly by the
/// next short-form record (`rest` starting with the tag): either way the
/// same record is read and the scanner stops right where `rest` starts.
pub proof fn lemma_parse_short(s: Seq<u8>, p: int, htail: Seq<u8>, body: Seq<u8>, rest: Seq<u8>)
    requires
        0 <= p <= s.len(),
        s.subrange(p, s.len() as int) == short_bytes(htail, body) + rest,
        short_wire(htail, body),
        rest.len() == 0 || rest[0] == TAG_SHORT,
    ensures
        parse_step(s, p) == (ParseStep {
            outcome: Outcome::Record { rec: short_rec(htail, body) },
            end: p + 2 + htail.len() + body.len(),
        }),
        short_rec(htail, body).ident() == htail.subrange(0, first_space_from(htail, 0)),
        short_rec(htail, body).sequence() == strip_lf(body),
{
    let t = s.subrange(p, s.len() as int);
    let ht = htail.len() as int;
    let bl = body.len() as int;
    let hline = seq![TAG_SHORT] + htail;
    let e0 = p + 1 + ht;
    let p1 = e0 + 1;
    let big = p + 2 + ht + bl;
    assert(t.len() == s.len() - p);
    assert(short_bytes(htail, body).len() == 2 + ht + bl);
    assert(s.len() == p + 2 + ht + bl + rest.len());
    assert(s[p] == TAG_SHORT) by {
        assert(t[0] == TAG_SHORT);
    }
    assert(!is_space(TAG_SHORT));
    lemma_skip_stays(s, p);
    // The header line runs to the terminator after the header tail.
    assert forall|i: int| p <= i < e0 implies s[i] != LF by {
        if i > p {
            assert(t[i - p] == htail[i - p - 1]);
        }
    }
    assert(s[e0] == LF) by {
        assert(t[1 + ht] == LF);
    }
    lemma_find_from_is(s, p, LF, e0);
    assert(s.subrange(p, e0) =~= hline);
    // The sequence body runs to the next tag, or to the end of the input.
    assert forall|i: int| p1 <= i < big implies s[i] != TAG_SHORT by {
        assert(t[i - p] == body[i - p1]);
    }
    if rest.len() == 0 {
        assert(big == s.len());
    } else {
        assert(s[big] == rest[0]) by {
            assert(t[big - p] == rest[0]);
        }
    }
    lemma_find_from_is(s, p1, TAG_SHORT, big);
    assert forall|i: int| 0 <= i < bl implies s.subrange(p1, big)[i] == body[i] by {
        assert(t[2 + ht + i] == body[i]);
        assert(s[p1 + i] == t[p1 + i - p]);
    }
    assert(s.subrange(p1, big) =~= body);
    let sq = strip_lf(body);
    // The identifier is never empty: tag and first header byte are not
    // whitespace.
    let head = first_space_from(hline, 0);
    lemma_first_space_spec(hline, 0);
    assert(head >= 2) by {
        assert(!is_space(hline[0]));
        assert(!is_space(hline[1]));
    }
    // Whether anything follows decides nothing here: the record is
    // complete and valid either way.
    if rest.len() == 0 {
        assert(!has_payload(s, big));
    } else {
        assert(has_payload(s, big)) by {
            assert(!is_space(s[big]));
        }
    }
    assert(parse_step(s, p) == parse_short_tail(s, p1, s.subrange(p, e0), head));
    assert(parse_step(s, p).outcome == (Outcome::Record { rec: short_rec(htail, body) })) by {
        assert(hline + sq =~= hline + sq);
    }
    assert(parse_step(s, p).end == big);
    // The recovered fields are the written ones.
    let k = first_space_from(htail, 0);
    lemma_first_space_spec(htail, 0);
    assert forall|j: int| 0 <= j < 1 + k implies !is_space(#[trigger] hline[j]) by {
        if j > 0 {
            assert(hline[j] == htail[j - 1]);
        }
    }
    lemma_first_space_is(hline, 0, 1 + k);
    assert(short_rec(htail, body).ident() =~= htail.subrange(0, k));
    assert(short_rec(htail, body).sequence() =~= sq);
}

/// The bytes of a long-form record on the wire: tag, header tail,
/// terminator, sequence body, separator line, terminator, quality block.
pub open spec fn long_bytes(
    htail: Seq<u8>,
    body: Seq<u8>,
    sline: Seq<u8>,
    qbytes: Seq<u8>,
) -> Seq<u8> {
    seq![TAG_LONG] + htail + seq![LF] + body + seq![TAG_SEP] + sline + seq![LF] + qbytes
}

/// A well-formed long-form record on the wire: one header line, a
/// sequence body free of the separator tag, a one-line separator, and a
/// quality block whose payload count equals the sequence's and which ends
/// on a payload byte.
pub open spec fn long_wire(
    htail: Seq<u8>,
    body: Seq<u8>,
    sline: Seq<u8>,
    qbytes: Seq<u8>,
) -> bool {
    &&& htail.len() > 0
    &&& !is_space(htail[0])
    &&& forall|i: int| 0 <= i < htail.len() ==> #[trigger] htail[i] != LF
    &&& forall|i: int| 0 <= i < body.len() ==> #[trigger] body[i] != TAG_SEP
    &&& strip_lf(body).len() > 0
    &&& forall|i: int| 0 <= i < sline.len() ==> #[trigger] sline[i] != LF
    &&& strip_lf(qbytes).len() == strip_lf(body).len()
    &&& qbytes.len() > 0
    &&& qbytes.last() != LF
}

/// The record that a well-formed long-form wire denotes.
pub open spec fn long_rec(
    htail: Seq<u8>,
    body: Seq<u8>,
    sline: Seq<u8>,
    qbytes: Seq<u8>,
) -> RecModel {
    let hline = seq![TAG_LONG] + htail;
    let sq = strip_lf(body);
    let sepl = seq![TAG_SEP] + sline;
    let ql = strip_lf(qbytes);
    RecModel {
        head: first_space_from(hline, 0),
        des: hline.len() as int,
        seq: hline.len() as int + sq.len() as int,
        sep: hline.len() as int + sq.len() as int + sepl.len() as int,
        qual: hline.len() as int + sq.len() as int + sepl.len() as int + ql.len() as int,
        data: hline + sq + sepl + ql,
    }
}

/// Re-parsing a well-formed long-form record recovers exactly its
/// identifier, sequence and quality, with the quality read to the
/// sequence's own payload length by construction — so the two lengths are
/// equal for every such record. Whatever bytes follow (`rest` is
/// unconstrained), the same record is read and the scanner stops right
/// where `rest` starts.
pub proof fn lemma_parse_long(
    s: Seq<u8>,
    p: int,
    htail: Seq<u8>,
    body: Seq<u8>,
    sline: Seq<u8>,
    qbytes: Seq<u8>,
    rest: Seq<u8>,
)
    requires
        0 <= p <= s.len(),
        s.subrange(p, s.len() as int) == long_bytes(htail, body, sline, qbytes) + rest,
        long_wire(htail, body, sline, qbytes),
    ensures
        parse_step(s, p) == (ParseStep {
            outcome: Outcome::Record { rec: long_rec(htail, body, sline, qbytes) },
            end: p + 4 + htail.len() + body.len() + sline.len() + qbytes.len(),
        }),
        long_rec(htail, body, sline, qbytes).ident() == htail.subrange(
            0,
            first_space_from(htail, 0),
        ),
        long_rec(htail, body, sline, qbytes).sequence() == strip_lf(body),
        long_rec(htail, body, sline, qbytes).quality() == strip_lf(qbytes),
        long_rec(htail, body, sline, qbytes).quality().len() == long_rec(
            htail,
            body,
            sline,
            qbytes,
        ).sequence().len(),
{
    let t = s.subrange(p, s.len() as int);
    let ht = htail.len() as int;
    let bl = body.len() as int;
    let sl = sline.len() as int;
    let qb = qbytes.len() as int;
    let hline = seq![TAG_LONG] + htail;
    let sq = strip_lf(body);
    let sepl = seq![TAG_SEP] + sline;
    let ql = strip_lf(qbytes);
    let e0 = p + 1 + ht;
    let p1 = e0 + 1;
    let sep_pos = p1 + bl;
    let e2 = sep_pos + 1 + sl;
    let p3 = e2 + 1;
    let e3 = p3 + qb;
    assert(t.len() == s.len() - p);
    assert(long_bytes(htail, body, sline, qbytes).len() == 4 + ht + bl + sl + qb);
    assert(s.len() == p + 4 + ht + bl + sl + qb + rest.len());
    assert(s[p] == TAG_LONG) by {
        assert(t[0] == TAG_LONG);
    }
    assert(!is_space(TAG_LONG));
    lemma_skip_stays(s, p);
    // The header line runs to the terminator after the header tail.
    assert forall|i: int| p <= i < e0 implies s[i] != LF by {
        if i > p {
            assert(t[i - p] == htail[i - p - 1]);
        }
    }
    assert(s[e0] == LF) by {
        assert(t[1 + ht] == LF);
    }
    lemma_find_from_is(s, p, LF, e0);
    assert(s.subrange(p, e0) =~= hline);
    // The sequence body runs to the separator tag.
    assert forall|i: int| p1 <= i < sep_pos implies s[i] != TAG_SEP by {
        assert(t[i - p] == body[i - p1]);
    }
    assert(s[sep_pos] == TAG_SEP) by {
        assert(t[2 + ht + bl] == TAG_SEP);
    }
    lemma_find_from_is(s, p1, TAG_SEP, sep_pos);
    assert forall|i: int| 0 <= i < bl implies s.subrange(p1, sep_pos)[i] == body[i] by {
        assert(t[2 + ht + i] == body[i]);
        assert(s[p1 + i] == t[p1 + i - p]);
    }
    assert(s.subrange(p1, sep_pos) =~= body);
    // The separator line starts at its tag and runs to its terminator.
    assert(!is_space(TAG_SEP));
    lemma_skip_stays(s, sep_pos);
    assert forall|i: int| sep_pos <= i < e2 implies s[i] != LF by {
        if i > sep_pos {
            assert(t[i - p] == sline[i - sep_pos - 1]);
        }
    }
    assert(s[e2] == LF) by {
        assert(t[3 + ht + bl + sl] == LF);
    }
    lemma_find_from_is(s, sep_pos, LF, e2);
    assert forall|i: int| 0 <= i < 1 + sl implies s.subrange(sep_pos, e2)[i] == sepl[i] by {
        assert(s[sep_pos + i] == t[sep_pos + i - p]);
        if i > 0 {
            assert(t[3 + ht + bl + (i - 1)] == sline[i - 1]);
        }
    }
    assert(s.subrange(sep_pos, e2) =~= sepl);
    // The quality block is read to the sequence's payload count exactly.
    assert forall|i: int| 0 <= i < qb implies s.subrange(p3, p3 + qb)[i] == qbytes[i] by {
        assert(t[4 + ht + bl + sl + i] == qbytes[i]);
        assert(s[p3 + i] == t[p3 + i - p]);
    }
    assert(s.subrange(p3, p3 + qb) =~= qbytes);
    lemma_exact_end_block(s, p3, s.subrange(p3, p3 + qb), sq.len() as int);
    assert(strip_lf(s.subrange(p3, e3)) == ql);
    // The identifier is never empty: tag and first header byte are not
    // whitespace.
    let head = first_space_from(hline, 0);
    lemma_first_space_spec(hline, 0);
    assert(head >= 2) by {
        assert(!is_space(hline[0]));
        assert(!is_space(hline[1]));
    }
    // All sections are present and the quality length matches, so the
    // record is complete and valid whatever follows it.
    assert(parse_step(s, p) == parse_long_tail(s, p1, s.subrange(p, e0), head));
    assert(parse_step(s, p).outcome == (Outcome::Record {
        rec: long_rec(htail, body, sline, qbytes),
    })) by {
        assert(hline + sq + sepl + ql =~= hline + sq + sepl + ql);
    }
    assert(parse_step(s, p).end == e3);
    // The recovered fields are the written ones.
    let k = first_space_from(htail, 0);
    lemma_first_space_spec(htail, 0);
    assert forall|j: int| 0 <= j < 1 + k implies !is_space(#[trigger] hline[j]) by {
        if j > 0 {
            assert(hline[j] == htail[j - 1]);
        }
    }
    lemma_first_space_is(hline, 0, 1 + k);
    assert(long_rec(htail, body, sline, qbytes).ident() =~= htail.subrange(0, k));
    assert(long_rec(htail, body, sline, qbytes).sequence() =~= sq);
    assert(long_rec(htail, body, sline, qbytes).quality() =~= ql);
}

/// Every record the scanner returns is well formed; a long-form record's
/// quality is exactly as long as its sequence, for every input, because
/// the quality section is read to the sequence's length by construction;
/// and a short-form record carries no quality at all.
pub proof fn lemma_record_lengths(s: Seq<u8>, p: int)
    requires
        0 <= p <= s.len(),
    ensures
        parse_step(s, p).outcome matches Outcome::Record { rec } ==> rec.wf() && (rec.is_long()
            ==> rec.quality().len() == rec.sequence().len()) && (rec.is_short()
            ==> rec.quality().len() == 0),
{
    lemma_skip_blank_spec(s, p);
    let p0 = skip_blank_lines(s, p);
    if p0 < s.len() {
        lemma_find_from_spec(s, p0, LF);
        let e0 = find_from(s, p0, LF);
        let hline = s.subrange(p0, e0);
        if e0 == p0 {
            assert(line_is_blank(s, p0));
        }
        assert(hline.len() > 0);
        let head = first_space_from(hline, 0);
        lemma_first_space_spec(hline, 0);
        let p1 = line_next(s, e0);
        if hline[0] == TAG_SHORT {
            lemma_find_from_spec(s, p1, TAG_SHORT);
        } else if hline[0] == TAG_LONG {
            lemma_find_from_spec(s, p1, TAG_SEP);
            let end1 = find_from(s, p1, TAG_SEP);
            lemma_skip_blank_spec(s, end1);
            let p2 = skip_blank_lines(s, end1);
            lemma_find_from_spec(s, p2, LF);
            let e2 = find_from(s, p2, LF);
            let p3 = line_next(s, e2);
            lemma_exact_end_bounds(s, p3, strip_lf(s.subrange(p1, end1)).len() as int);
        }
    }
}

/// Two well-formed short-form records laid end to end parse as exactly
/// those two records, in order, each equal to what parsing it alone
/// yields (stream composability of the short form).
pub proof fn lemma_short_concat(h1: Seq<u8>, b1: Seq<u8>, h2: Seq<u8>, b2: Seq<u8>)
    requires
        short_wire(h1, b1),
        short_wire(h2, b2),
    ensures
        ({
            let w1 = short_bytes(h1, b1);
            let w2 = short_bytes(h2, b2);
            let both = w1 + w2;
            &&& parse_step(both, 0) == parse_step(w1, 0)
            &&& parse_step(both, 0).end == w1.len()
            &&& parse_step(both, 0).outcome == (Outcome::Record { rec: short_rec(h1, b1) })
            &&& parse_step(both, w1.len() as int).outcome == parse_step(w2, 0).outcome
            &&& parse_step(both, w1.len() as int).end == both.len()
            &&& parse_step(w2, 0).outcome == (Outcome::Record { rec: short_rec(h2, b2) })
        }),
{
    let w1 = short_bytes(h1, b1);
    let w2 = short_bytes(h2, b2);
    let both = w1 + w2;
    assert(w2[0] == TAG_SHORT);
    assert(both.subrange(0, both.len() as int) =~= short_bytes(h1, b1) + w2);
    lemma_parse_short(both, 0, h1, b1, w2);
    assert(both.subrange(w1.len() as int, both.len() as int) =~= short_bytes(h2, b2)
        + Seq::<u8>::empty());
    lemma_parse_short(both, w1.len() as int, h2, b2, Seq::empty());
    assert(w1.subrange(0, w1.len() as int) =~= short_bytes(h1, b1) + Seq::<u8>::empty());
    lemma_parse_short(w1, 0, h1, b1, Seq::empty());
    assert(w2.subrange(0, w2.len() as int) =~= short_bytes(h2, b2) + Seq::<u8>::empty());
    lemma_parse_short(w2, 0, h2, b2, Seq::empty());
}

/// Two well-formed long-form records laid end to end parse as exactly
/// those two records, in order, each equal to what parsing it alone
/// yields (stream composability of the long form).
pub proof fn lemma_long_concat(
    h1: Seq<u8>,
    b1: Seq<u8>,
    s1: Seq<u8>,
    q1: Seq<u8>,
    h2: Seq<u8>,
    b2: Seq<u8>,
    s2: Seq<u8>,
    q2: Seq<u8>,
)
    requires
        long_wire(h1, b1, s1, q1),
        long_wire(h2, b2, s2, q2),
    ensures
        ({
            let w1 = long_bytes(h1, b1, s1, q1);
            let w2 = long_bytes(h2, b2, s2, q2);
            let both = w1 + w2;
            &&& parse_step(both, 0) == parse_step(w1, 0)
            &&& parse_step(both, 0).end == w1.len()
            &&& parse_step(both, 0).outcome == (Outcome::Record { rec: long_rec(h1, b1, s1, q1) })
            &&& parse_step(both, w1.len() as int).outcome == parse_step(w2, 0).outcome
            &&& parse_step(both, w1.len() as int).end == both.len()
            &&& parse_step(w2, 0).outcome == (Outcome::Record { rec: long_rec(h2, b2, s2, q2) })
        }),
{
    let w1 = long_bytes(h1, b1, s1, q1);
    let w2 = long_bytes(h2, b2, s2, q2);
    let both = w1 + w2;
    assert(both.subrange(0, both.len() as int) =~= long_bytes(h1, b1, s1, q1) + w2);
    lemma_parse_long(both, 0, h1, b1, s1, q1, w2);
    assert(both.subrange(w1.len() as int, both.len() as int) =~= long_bytes(h2, b2, s2, q2)
        + Seq::<u8>::empty());
    lemma_parse_long(both, w1.len() as int, h2, b2, s2, q2, Seq::empty());
    assert(w1.subrange(0, w1.len() as int) =~= long_bytes(h1, b1, s1, q1) + Seq::<u8>::empty());
    lemma_parse_long(w1, 0, h1, b1, s1, q1, Seq::empty());
    assert(w2.subrange(0, w2.len() as int) =~= long_bytes(h2, b2, s2, q2) + Seq::<u8>::empty());
    lemma_parse_long(w2, 0, h2, b2, s2, q2, Seq::empty());
}

/// Gzip transparency: a source whose bytes are a gzip stream resolves
/// exactly as its decompressed bytes resolve directly, so the records
/// that come out are the same. One level of unwrapping only: the
/// decompressed bytes are taken as they are.
pub proof fn lemma_gzip_transparent(g: Seq<u8>, x: Seq<u8>)
    requires
        g.len() >= 4,
        is_gz(g),
        gunzip_of(g) == Some(x),
        !is_gz(x),
    ensures
        forall|r: Result<Resolved, ParseError>|
            #[trigger] resolve_matches(r, g) == resolve_matches(r, x),
{
    assert forall|r: Result<Resolved, ParseError>|
        #[trigger] resolve_matches(r, g) == resolve_matches(r, x) by {
        assert(resolve_matches(r, g) == dispatch_matches(r, x));
    }
}

/// The aggregator's cursor only moves forward and skips exactly the
/// exhausted readers: every source before the one it settles on holds no
/// more payload, and the one it settles on does.
pub proof fn lemma_first_live_spec(srcs: Seq<SourceModel>, i: int)
    requires
        0 <= i <= srcs.len(),
    ensures
        i <= first_live(srcs, i) <= srcs.len(),
        forall|k: int|
            i <= k < first_live(srcs, i) ==> !has_payload(
                (#[trigger] srcs[k]).bytes,
                srcs[k].pos,
            ),
        first_live(srcs, i) < srcs.len() ==> has_payload(
            srcs[first_live(srcs, i)].bytes,
            srcs[first_live(srcs, i)].pos,
        ),
    decreases srcs.len() - i,
{
    if i < srcs.len() && !has_payload(srcs[i].bytes, srcs[i].pos) {
        lemma_first_live_spec(srcs, i + 1);
    }
}

} // verus!
