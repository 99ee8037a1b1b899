//! The mathematical model of the record scanner: spec functions over
//! `Seq<u8>` that say, byte for byte, what each reading phase consumes and
//! produces, and the record model that a parsed record is compared against.
//!
//! `parse_step` is the heart of the model: given the source bytes and a
//! starting position it yields the outcome of reading one record (end of
//! input, an error, or a record with its five section offsets) together with
//! the position at which the next record would start.

use vstd::prelude::*;

verus! {

/// Line terminator.
pub const LF: u8 = 0x0a;

/// Tag byte of a short-form (header + sequence) record: `b'>'`.
pub const TAG_SHORT: u8 = 0x3e;

/// Tag byte of a long-form (header + sequence + separator + quality)
/// record: `b'@'`.
pub const TAG_LONG: u8 = 0x40;

/// First byte of the separator line of a long-form record: `b'+'`.
pub const TAG_SEP: u8 = 0x2b;

/// First byte of a comment line in a manifest: `b'#'`.
pub const TAG_COMMENT: u8 = 0x23;

/// First magic byte of a gzip stream.
pub const GZ_MAGIC_1: u8 = 0x1f;

/// Second magic byte of a gzip stream.
pub const GZ_MAGIC_2: u8 = 0x8b;

/// Whitespace as the scanner sees it: the byte, read as a one-byte
/// character, satisfies the usual whitespace predicate.
pub open spec fn is_space(b: u8) -> bool {
    b == 0x09 || b == 0x0a || b == 0x0b || b == 0x0c || b == 0x0d || b == 0x20 || b == 0x85
        || b == 0xa0
}

/// Index of the first occurrence of `b` in `s` at or after `pos`, or
/// `s.len()` when there is none.
pub open spec fn find_from(s: Seq<u8>, pos: int, b: u8) -> int
    decreases s.len() - pos,
{
    if pos < 0 || pos >= s.len() {
        s.len() as int
    } else if s[pos] == b {
        pos
    } else {
        find_from(s, pos + 1, b)
    }
}

/// Index of the first whitespace byte of `h` at or after `i`, or `h.len()`
/// when there is none.
pub open spec fn first_space_from(h: Seq<u8>, i: int) -> int
    decreases h.len() - i,
{
    if i < 0 || i >= h.len() {
        h.len() as int
    } else if is_space(h[i]) {
        i
    } else {
        first_space_from(h, i + 1)
    }
}

/// `s` with every line terminator removed.
pub open spec fn strip_lf(s: Seq<u8>) -> Seq<u8>
    decreases s.len(),
{
    if s.len() == 0 {
        Seq::empty()
    } else if s[0] == LF {
        strip_lf(s.drop_first())
    } else {
        seq![s[0]] + strip_lf(s.drop_first())
    }
}

/// Some byte at or after `pos` is not whitespace: the source still holds
/// something a record could start with.
pub open spec fn has_payload(s: Seq<u8>, pos: int) -> bool {
    exists|i: int| pos <= i < s.len() && !is_space(#[trigger] s[i])
}

/// The line that starts at `pos` holds only whitespace (it may be empty).
pub open spec fn line_is_blank(s: Seq<u8>, pos: int) -> bool {
    forall|i: int| pos <= i < find_from(s, pos, LF) ==> is_space(#[trigger] s[i])
}

/// Position just after the line that ends at terminator position `e`.
pub open spec fn line_next(s: Seq<u8>, e: int) -> int {
    if e < s.len() {
        e + 1
    } else {
        s.len() as int
    }
}

/// Start of the first line at or after `pos` that holds a byte other than
/// whitespace, or `s.len()` when only blank lines remain.
pub open spec fn skip_blank_lines(s: Seq<u8>, pos: int) -> int
    decreases s.len() - pos,
    via skip_blank_lines_decreases
{
    if pos < 0 || pos >= s.len() {
        s.len() as int
    } else if line_is_blank(s, pos) {
        skip_blank_lines(s, line_next(s, find_from(s, pos, LF)))
    } else {
        pos
    }
}

#[via_fn]
proof fn skip_blank_lines_decreases(s: Seq<u8>, pos: int) {
    if 0 <= pos < s.len() {
        lemma_find_from_spec(s, pos, LF);
    }
}

/// End position of reading exactly `n` non-terminator bytes starting at
/// `pos`: the scanner steps over line terminators, consumes payload bytes
/// until `n` of them have been taken, and stops early at end of input.
pub open spec fn exact_end(s: Seq<u8>, pos: int, n: int) -> int
    decreases s.len() - pos,
{
    if n <= 0 {
        pos
    } else if pos < 0 || pos >= s.len() {
        s.len() as int
    } else if s[pos] == LF {
        exact_end(s, pos + 1, n)
    } else {
        exact_end(s, pos + 1, n - 1)
    }
}

/// One record of the source, described by its five section offsets into the
/// record's own buffer: `[1, head)` is the identifier, `[head, des)` the
/// rest of the header line, `[des, seq)` the sequence, `[seq, sep)` the
/// separator line and `[sep, qual)` the quality section.
#[verifier::ext_equal]
pub struct RecModel {
    pub head: int,
    pub des: int,
    pub seq: int,
    pub sep: int,
    pub qual: int,
    pub data: Seq<u8>,
}

impl RecModel {
    /// The offsets are ordered and end exactly at the buffer's end, and the
    /// buffer starts with one of the two record tags.
    pub open spec fn wf(self) -> bool {
        &&& 1 <= self.head <= self.des <= self.seq <= self.sep <= self.qual == self.data.len()
        &&& (self.data[0] == TAG_SHORT || self.data[0] == TAG_LONG)
    }

    pub open spec fn is_short(self) -> bool {
        self.data.len() > 0 && self.data[0] == TAG_SHORT
    }

    pub open spec fn is_long(self) -> bool {
        self.data.len() > 0 && self.data[0] == TAG_LONG
    }

    /// Identifier: the header line after the tag byte, up to the first
    /// whitespace.
    pub open spec fn ident(self) -> Seq<u8> {
        self.data.subrange(1, self.head)
    }

    /// Description: the header line after the identifier and the one
    /// whitespace byte that ends it; empty when the header is only an
    /// identifier.
    pub open spec fn desc(self) -> Seq<u8> {
        if self.head < self.des {
            self.data.subrange(self.head + 1, self.des)
        } else {
            Seq::empty()
        }
    }

    /// The sequence, with the line breaks of a multi-line body removed.
    pub open spec fn sequence(self) -> Seq<u8> {
        self.data.subrange(self.des, self.seq)
    }

    /// The separator line of a long-form record; empty for the short form.
    pub open spec fn separator(self) -> Seq<u8> {
        if self.seq < self.sep {
            self.data.subrange(self.seq, self.sep)
        } else {
            Seq::empty()
        }
    }

    /// The quality section of a long-form record; empty for the short form.
    pub open spec fn quality(self) -> Seq<u8> {
        if self.sep < self.qual {
            self.data.subrange(self.sep, self.qual)
        } else {
            Seq::empty()
        }
    }
}

/// What reading one record can yield.
#[verifier::ext_equal]
pub enum Outcome {
    /// Nothing but blank lines remained: true end of the source.
    End,
    /// The first line read does not start with a record tag; carries that
    /// line.
    BadTag { data: Seq<u8> },
    /// End of input cut the record short; carries all bytes read for it.
    Truncated { data: Seq<u8> },
    /// A complete short-form record broke the format rules; carries the
    /// identifier.
    BadShort { ident: Seq<u8> },
    /// A complete long-form record broke the format rules; carries the
    /// identifier.
    BadLong { ident: Seq<u8> },
    /// A well-formed record.
    Record { rec: RecModel },
}

/// Outcome of one read, together with the position where the next read
/// would start.
#[verifier::ext_equal]
pub struct ParseStep {
    pub outcome: Outcome,
    pub end: int,
}

/// Reading the tail of a short-form record: the multi-line sequence body
/// runs until the next short-form tag byte or end of input.
pub open spec fn parse_short_tail(s: Seq<u8>, p1: int, hline: Seq<u8>, head: int) -> ParseStep {
    let des = hline.len() as int;
    let end1 = find_from(s, p1, TAG_SHORT);
    let sq = strip_lf(s.subrange(p1, end1));
    let data = hline + sq;
    if !has_payload(s, end1) && (head == 1 || sq.len() == 0) {
        ParseStep { outcome: Outcome::Truncated { data }, end: end1 }
    } else if sq.len() == 0 || head <= 1 {
        ParseStep { outcome: Outcome::BadShort { ident: hline.subrange(1, head) }, end: end1 }
    } else {
        ParseStep {
            outcome: Outcome::Record {
                rec: RecModel {
                    head,
                    des,
                    seq: des + sq.len(),
                    sep: des + sq.len(),
                    qual: des + sq.len(),
                    data,
                },
            },
            end: end1,
        }
    }
}

/// Reading the tail of a long-form record: the sequence body runs until the
/// separator tag, then the separator line is read, then exactly as many
/// payload bytes as the sequence holds are read for the quality section.
pub open spec fn parse_long_tail(s: Seq<u8>, p1: int, hline: Seq<u8>, head: int) -> ParseStep {
    let des = hline.len() as int;
    let end1 = find_from(s, p1, TAG_SEP);
    let sq = strip_lf(s.subrange(p1, end1));
    let p2 = skip_blank_lines(s, end1);
    let e2 = find_from(s, p2, LF);
    let sline = s.subrange(p2, e2);
    let p3 = line_next(s, e2);
    let e3 = exact_end(s, p3, sq.len() as int);
    let ql = strip_lf(s.subrange(p3, e3));
    let data = hline + sq + sline + ql;
    let seq_end = des + sq.len();
    let sep_end = seq_end + sline.len();
    let qual_end = sep_end + ql.len();
    if !has_payload(s, e3) && (head == 1 || sq.len() == 0 || sline.len() == 0 || ql.len() == 0) {
        ParseStep { outcome: Outcome::Truncated { data }, end: e3 }
    } else if sq.len() == 0 || ql.len() != sq.len() || head <= 1 {
        ParseStep { outcome: Outcome::BadLong { ident: hline.subrange(1, head) }, end: e3 }
    } else {
        ParseStep {
            outcome: Outcome::Record {
                rec: RecModel {
                    head,
                    des,
                    seq: seq_end,
                    sep: sep_end,
                    qual: qual_end,
                    data,
                },
            },
            end: e3,
        }
    }
}

/// Reading one record from `s` starting at `pos`: skip blank lines, read
/// the header line, dispatch on its tag byte, and read the matching tail.
pub open spec fn parse_step(s: Seq<u8>, pos: int) -> ParseStep {
    let p0 = skip_blank_lines(s, pos);
    if p0 >= s.len() {
        ParseStep { outcome: Outcome::End, end: s.len() as int }
    } else {
        let e0 = find_from(s, p0, LF);
        let hline = s.subrange(p0, e0);
        let p1 = line_next(s, e0);
        if hline[0] != TAG_SHORT && hline[0] != TAG_LONG {
            ParseStep { outcome: Outcome::BadTag { data: hline }, end: p1 }
        } else {
            let head = first_space_from(hline, 0);
            if hline[0] == TAG_SHORT {
                parse_short_tail(s, p1, hline, head)
            } else {
                parse_long_tail(s, p1, hline, head)
            }
        }
    }
}

/// `s` with its leading whitespace removed.
pub open spec fn trim_start(s: Seq<u8>) -> Seq<u8>
    decreases s.len(),
{
    if s.len() > 0 && is_space(s[0]) {
        trim_start(s.drop_first())
    } else {
        s
    }
}

/// `s` with its trailing whitespace removed.
pub open spec fn trim_end(s: Seq<u8>) -> Seq<u8>
    decreases s.len(),
{
    if s.len() > 0 && is_space(s.last()) {
        trim_end(s.drop_last())
    } else {
        s
    }
}

/// `s` with whitespace removed at both ends.
pub open spec fn trim(s: Seq<u8>) -> Seq<u8> {
    trim_end(trim_start(s))
}

/// The paths a manifest's bytes name from `pos` on: one per line, trimmed,
/// with blank lines and comment lines skipped.
pub open spec fn manifest_paths_from(s: Seq<u8>, pos: int) -> Seq<Seq<u8>>
    decreases s.len() - pos,
    via manifest_paths_from_decreases
{
    if pos < 0 || pos >= s.len() {
        Seq::empty()
    } else {
        let e = find_from(s, pos, LF);
        let line = trim(s.subrange(pos, e));
        let rest = manifest_paths_from(s, line_next(s, e));
        if line.len() == 0 || line[0] == TAG_COMMENT {
            rest
        } else {
            seq![line] + rest
        }
    }
}

#[via_fn]
proof fn manifest_paths_from_decreases(s: Seq<u8>, pos: int) {
    if 0 <= pos < s.len() {
        lemma_find_from_spec(s, pos, LF);
    }
}

/// The paths a manifest's bytes name, in order.
pub open spec fn manifest_paths(s: Seq<u8>) -> Seq<Seq<u8>> {
    manifest_paths_from(s, 0)
}

/// `trim_start` is pinned by exhibiting the first byte that is not
/// whitespace.
pub proof fn lemma_trim_start_is(s: Seq<u8>, i: int)
    requires
        0 <= i <= s.len(),
        forall|k: int| 0 <= k < i ==> is_space(#[trigger] s[k]),
        i == s.len() || !is_space(s[i]),
    ensures
        trim_start(s) == s.subrange(i, s.len() as int),
    decreases i,
{
    if i == 0 {
        assert(s.subrange(0, s.len() as int) =~= s);
    } else {
        let d = s.drop_first();
        assert(forall|k: int| 0 <= k < i - 1 ==> is_space(#[trigger] d[k]));
        lemma_trim_start_is(d, i - 1);
        assert(d.subrange(i - 1, d.len() as int) =~= s.subrange(i, s.len() as int));
    }
}

/// `trim_end` is pinned by exhibiting the last byte that is not
/// whitespace.
pub proof fn lemma_trim_end_is(s: Seq<u8>, j: int)
    requires
        0 <= j <= s.len(),
        forall|k: int| j <= k < s.len() ==> is_space(#[trigger] s[k]),
        j == 0 || !is_space(s[j - 1]),
    ensures
        trim_end(s) == s.subrange(0, j),
    decreases s.len() - j,
{
    if j == s.len() {
        assert(s.subrange(0, j) =~= s);
    } else {
        let d = s.drop_last();
        assert(forall|k: int| j <= k < d.len() ==> is_space(#[trigger] d[k]));
        lemma_trim_end_is(d, j);
        assert(d.subrange(0, j) =~= s.subrange(0, j));
    }
}

/// What `find_from` finds: the first occurrence, within bounds.
pub proof fn lemma_find_from_spec(s: Seq<u8>, pos: int, b: u8)
    requires
        0 <= pos <= s.len(),
    ensures
        pos <= find_from(s, pos, b) <= s.len(),
        find_from(s, pos, b) < s.len() ==> s[find_from(s, pos, b)] == b,
        forall|i: int| pos <= i < find_from(s, pos, b) ==> s[i] != b,
    decreases s.len() - pos,
{
    if pos < s.len() && s[pos] != b {
        lemma_find_from_spec(s, pos + 1, b);
    }
}

/// A stretch without occurrences can be skipped without changing what
/// `find_from` finds.
pub proof fn lemma_find_from_skip(s: Seq<u8>, a: int, b: int, x: u8)
    requires
        0 <= a <= b <= s.len(),
        forall|i: int| a <= i < b ==> s[i] != x,
    ensures
        find_from(s, a, x) == find_from(s, b, x),
    decreases b - a,
{
    if a < b {
        lemma_find_from_skip(s, a + 1, b, x);
    }
}

/// `find_from` is pinned by exhibiting the first occurrence.
pub proof fn lemma_find_from_is(s: Seq<u8>, pos: int, b: u8, k: int)
    requires
        0 <= pos <= k <= s.len(),
        forall|i: int| pos <= i < k ==> s[i] != b,
        k == s.len() || s[k] == b,
    ensures
        find_from(s, pos, b) == k,
    decreases k - pos,
{
    if pos < k {
        lemma_find_from_is(s, pos + 1, b, k);
    }
}

/// What `first_space_from` finds: the first whitespace byte, within bounds.
pub proof fn lemma_first_space_spec(h: Seq<u8>, i: int)
    requires
        0 <= i <= h.len(),
    ensures
        i <= first_space_from(h, i) <= h.len(),
        first_space_from(h, i) < h.len() ==> is_space(h[first_space_from(h, i)]),
        forall|j: int| i <= j < first_space_from(h, i) ==> !is_space(#[trigger] h[j]),
    decreases h.len() - i,
{
    if i < h.len() && !is_space(h[i]) {
        lemma_first_space_spec(h, i + 1);
    }
}

/// `first_space_from` is pinned by exhibiting the first whitespace byte.
pub proof fn lemma_first_space_is(h: Seq<u8>, i: int, k: int)
    requires
        0 <= i <= k <= h.len(),
        forall|j: int| i <= j < k ==> !is_space(#[trigger] h[j]),
        k == h.len() || is_space(h[k]),
    ensures
        first_space_from(h, i) == k,
    decreases k - i,
{
    if i < k {
        lemma_first_space_is(h, i + 1, k);
    }
}

/// Removing terminators distributes over concatenation.
pub proof fn lemma_strip_lf_concat(a: Seq<u8>, b: Seq<u8>)
    ensures
        strip_lf(a + b) == strip_lf(a) + strip_lf(b),
    decreases a.len(),
{
    if a.len() == 0 {
        assert(a + b =~= b);
        assert(strip_lf(a) + strip_lf(b) =~= strip_lf(b));
    } else {
        assert((a + b).drop_first() =~= a.drop_first() + b);
        lemma_strip_lf_concat(a.drop_first(), b);
        if a[0] != LF {
            assert(seq![a[0]] + (strip_lf(a.drop_first()) + strip_lf(b)) =~= (seq![a[0]]
                + strip_lf(a.drop_first())) + strip_lf(b));
        }
    }
}

/// A stretch without terminators is untouched by `strip_lf`.
pub proof fn lemma_strip_lf_clean(a: Seq<u8>)
    requires
        forall|i: int| 0 <= i < a.len() ==> a[i] != LF,
    ensures
        strip_lf(a) == a,
    decreases a.len(),
{
    if a.len() > 0 {
        lemma_strip_lf_clean(a.drop_first());
        assert(seq![a[0]] + a.drop_first() =~= a);
    }
}

/// A single terminator vanishes; any other single byte stays.
pub proof fn lemma_strip_lf_single(b: u8)
    ensures
        b == LF ==> strip_lf(seq![b]) == Seq::<u8>::empty(),
        b != LF ==> strip_lf(seq![b]) == seq![b],
{
    assert(seq![b].drop_first() =~= Seq::<u8>::empty());
    assert(strip_lf(Seq::<u8>::empty()) =~= Seq::<u8>::empty());
    if b != LF {
        assert(seq![b] + Seq::<u8>::empty() =~= seq![b]);
    }
}

/// A sequence that ends on a payload byte keeps at least that byte.
pub proof fn lemma_strip_lf_last(a: Seq<u8>)
    requires
        a.len() > 0,
        a.last() != LF,
    ensures
        strip_lf(a).len() > 0,
    decreases a.len(),
{
    if a.len() == 1 {
        lemma_strip_lf_single(a[0]);
        assert(a =~= seq![a[0]]);
    } else {
        assert(a.drop_first().last() == a.last());
        lemma_strip_lf_last(a.drop_first());
    }
}

/// Reading exactly the payload count of a block that ends on a payload
/// byte consumes the block, no more and no less.
pub proof fn lemma_exact_end_block(s: Seq<u8>, pos: int, q: Seq<u8>, n: int)
    requires
        0 <= pos,
        pos + q.len() <= s.len(),
        q == s.subrange(pos, pos + q.len()),
        n == strip_lf(q).len(),
        n > 0,
        q.len() > 0,
        q.last() != LF,
    ensures
        exact_end(s, pos, n) == pos + q.len(),
    decreases q.len(),
{
    let d = q.drop_first();
    assert(s[pos] == q[0]);
    if q[0] == LF {
        assert(q.len() > 1) by {
            if q.len() == 1 {
                assert(q.last() == q[0]);
            }
        }
        assert(d.last() == q.last());
        assert(d =~= s.subrange(pos + 1, pos + 1 + d.len()));
        lemma_exact_end_block(s, pos + 1, d, n);
    } else {
        if n == 1 {
            if d.len() > 0 {
                assert(d.last() == q.last());
                lemma_strip_lf_last(d);
                assert(false);
            }
            assert(q.len() == 1);
            assert(exact_end(s, pos + 1, 0) == pos + 1);
        } else {
            if d.len() == 0 {
                assert(q =~= seq![q[0]]);
                lemma_strip_lf_single(q[0]);
                assert(false);
            }
            assert(d.last() == q.last());
            assert(d =~= s.subrange(pos + 1, pos + 1 + d.len()));
            lemma_exact_end_block(s, pos + 1, d, n - 1);
        }
    }
}

/// Where `exact_end` can land: between `pos` and the end of the source.
pub proof fn lemma_exact_end_bounds(s: Seq<u8>, pos: int, n: int)
    requires
        0 <= pos <= s.len(),
    ensures
        pos <= exact_end(s, pos, n) <= s.len(),
    decreases s.len() - pos,
{
    if n > 0 && pos < s.len() {
        lemma_exact_end_bounds(s, pos + 1, if s[pos] == LF { n } else { n - 1 });
    }
}

/// Consuming a terminator-free run of `k` payload bytes advances
/// `exact_end` by `k` and costs `k` of the requested count.
pub proof fn lemma_exact_end_run(s: Seq<u8>, pos: int, n: int, k: int)
    requires
        0 <= pos,
        pos + k <= s.len(),
        0 <= k <= n,
        forall|i: int| pos <= i < pos + k ==> s[i] != LF,
    ensures
        exact_end(s, pos, n) == exact_end(s, pos + k, n - k),
    decreases k,
{
    if k > 0 {
        lemma_exact_end_run(s, pos + 1, n - 1, k - 1);
    }
}

/// Blank-line skipping lands within bounds, on a line that holds payload,
/// and reaches the end exactly when no payload is left.
pub proof fn lemma_skip_blank_spec(s: Seq<u8>, pos: int)
    requires
        0 <= pos <= s.len(),
    ensures
        pos <= skip_blank_lines(s, pos) <= s.len(),
        skip_blank_lines(s, pos) < s.len() ==> !line_is_blank(s, skip_blank_lines(s, pos)),
        skip_blank_lines(s, pos) < s.len() <==> has_payload(s, pos),
    decreases s.len() - pos,
{
    if pos < s.len() {
        lemma_find_from_spec(s, pos, LF);
        let e = find_from(s, pos, LF);
        if line_is_blank(s, pos) {
            lemma_skip_blank_spec(s, line_next(s, e));
            assert(forall|i: int| pos <= i < line_next(s, e) ==> is_space(#[trigger] s[i]));
            if has_payload(s, pos) {
                let w = choose|i: int| pos <= i < s.len() && !is_space(#[trigger] s[i]);
                assert(line_next(s, e) <= w < s.len() && !is_space(s[w]));
                assert(has_payload(s, line_next(s, e)));
            }
            if has_payload(s, line_next(s, e)) {
                let w = choose|i: int|
                    line_next(s, e) <= i < s.len() && !is_space(#[trigger] s[i]);
                assert(pos <= w < s.len() && !is_space(s[w]));
            }
        } else {
            let w = choose|i: int| pos <= i < e && !is_space(#[trigger] s[i]);
            assert(pos <= w < s.len() && !is_space(s[w]));
        }
    }
}

} // verus!
