//! Records, the single-source reader, and the multi-source aggregator.
//!
//! A [`Reader`] owns the bytes of one source and a reusable record buffer;
//! each call to [`Reader::iter_record`] scans one record out of the source
//! and hands back an owned [`Fastx`] view of it, or the error that the
//! model assigns to that stretch of input. [`Readers`] chains several
//! readers into one logical stream.

use vstd::prelude::*;

use crate::model::{
    is_space, find_from, first_space_from, strip_lf, has_payload, line_is_blank, line_next,
    skip_blank_lines,
    exact_end, parse_step, parse_short_tail, parse_long_tail, RecModel, Outcome, ParseStep, LF, TAG_SHORT, TAG_LONG, TAG_SEP,
    lemma_find_from_spec, lemma_find_from_is, lemma_find_from_skip, lemma_first_space_spec, lemma_first_space_is,
    lemma_strip_lf_concat, lemma_strip_lf_clean, lemma_strip_lf_single, lemma_exact_end_bounds,
    lemma_exact_end_run, lemma_skip_blank_spec,
};
use crate::scan::{is_space_byte, find_byte, find_byte2, append_bytes};

verus! {

/// The errors a parse can return.
#[derive(Debug)]
pub enum ParseError {
    /// Failure reported by the underlying byte source (for instance a bad
    /// compressed stream); carries a description of the failure.
    Io(String),
    /// A record cut short by the end of the source; carries the raw bytes
    /// read for it.
    TruncateFile(Vec<u8>),
    /// The record starts with neither tag byte; carries the offending line.
    InvalidFastx(Vec<u8>),
    /// A short-form record that breaks the format rules; carries its
    /// identifier.
    InvalidFasta(Vec<u8>),
    /// A long-form record that breaks the format rules; carries its
    /// identifier.
    InvalidFastq(Vec<u8>),
}

impl ParseError {
    /// A short description of the error's kind.
    pub fn message(&self) -> (r: &'static str)
        ensures
            r@ == match self {
                ParseError::Io(_) => "IO error"@,
                ParseError::TruncateFile(_) => "truncated record"@,
                ParseError::InvalidFastx(_) => "not a fastx record"@,
                ParseError::InvalidFasta(_) => "not a valid fasta record"@,
                ParseError::InvalidFastq(_) => "not a valid fastq record"@,
            },
    {
        match self {
            ParseError::Io(_) => "IO error",
            ParseError::TruncateFile(_) => "truncated record",
            ParseError::InvalidFastx(_) => "not a fastx record",
            ParseError::InvalidFasta(_) => "not a valid fasta record",
            ParseError::InvalidFastq(_) => "not a valid fastq record",
        }
    }
}

/// One parsed record: the five section offsets of the model plus an owned
/// copy of the record's bytes.
pub struct Fastx {
    _head: usize,
    _des: usize,
    _seq: usize,
    _sep: usize,
    _qual: usize,
    _data: Vec<u8>,
}

impl View for Fastx {
    type V = RecModel;

    closed spec fn view(&self) -> RecModel {
        RecModel {
            head: self._head as int,
            des: self._des as int,
            seq: self._seq as int,
            sep: self._sep as int,
            qual: self._qual as int,
            data: self._data@,
        }
    }
}

impl Fastx {
    #[verifier::type_invariant]
    closed spec fn type_inv(self) -> bool {
        self@.wf()
    }

    /// Identifier: the header line between the tag byte and the first
    /// whitespace.
    pub fn head(&self) -> (r: Vec<u8>)
        ensures
            r@ == self@.ident(),
    {
        proof {
            use_type_invariant(self);
        }
        vstd::slice::slice_to_vec(vstd::slice::slice_subrange(self._data.as_slice(), 1, self._head))
    }

    /// The sequence, with the line breaks of a multi-line body removed.
    pub fn seq(&self) -> (r: Vec<u8>)
        ensures
            r@ == self@.sequence(),
    {
        proof {
            use_type_invariant(self);
        }
        vstd::slice::slice_to_vec(
            vstd::slice::slice_subrange(self._data.as_slice(), self._des, self._seq),
        )
    }

    /// Description: the header line after the identifier and the
    /// whitespace byte that ends it; empty when there is none.
    pub fn des(&self) -> (r: Vec<u8>)
        ensures
            r@ == self@.desc(),
    {
        proof {
            use_type_invariant(self);
        }
        if self._head < self._des {
            vstd::slice::slice_to_vec(
                vstd::slice::slice_subrange(self._data.as_slice(), self._head + 1, self._des),
            )
        } else {
            Vec::new()
        }
    }

    /// The separator line of a long-form record; empty for the short form.
    pub fn sep(&self) -> (r: Vec<u8>)
        ensures
            r@ == self@.separator(),
    {
        proof {
            use_type_invariant(self);
        }
        if self._seq < self._sep {
            vstd::slice::slice_to_vec(
                vstd::slice::slice_subrange(self._data.as_slice(), self._seq, self._sep),
            )
        } else {
            Vec::new()
        }
    }

    /// The quality section of a long-form record; empty for the short
    /// form.
    pub fn qual(&self) -> (r: Vec<u8>)
        ensures
            r@ == self@.quality(),
    {
        proof {
            use_type_invariant(self);
        }
        if self._sep < self._qual {
            vstd::slice::slice_to_vec(
                vstd::slice::slice_subrange(self._data.as_slice(), self._sep, self._qual),
            )
        } else {
            Vec::new()
        }
    }

    /// Sequence length.
    pub fn len(&self) -> (r: usize)
        ensures
            r == self@.sequence().len(),
    {
        proof {
            use_type_invariant(self);
        }
        self._seq - self._des
    }

    /// Whether the record's sequence is empty (never true for a record the
    /// reader returns).
    pub fn is_empty(&self) -> (r: bool)
        ensures
            r == (self@.sequence().len() == 0),
    {
        self.len() == 0
    }

    /// Whether this is a short-form record.
    pub fn is_fasta(&self) -> (r: bool)
        ensures
            r == self@.is_short(),
    {
        proof {
            use_type_invariant(self);
        }
        !self._data.is_empty() && self._data[0] == TAG_SHORT
    }

    /// Whether this is a long-form record.
    pub fn is_fastq(&self) -> (r: bool)
        ensures
            r == self@.is_long(),
    {
        proof {
            use_type_invariant(self);
        }
        !self._data.is_empty() && self._data[0] == TAG_LONG
    }
}

/// The model of a single source: its bytes and the read position.
#[verifier::ext_equal]
pub struct SourceModel {
    pub bytes: Seq<u8>,
    pub pos: int,
}

/// A reader over one source, with the reusable record buffer.
pub struct Reader {
    input: Vec<u8>,
    pos: usize,
    data: Vec<u8>,
}

impl View for Reader {
    type V = SourceModel;

    closed spec fn view(&self) -> SourceModel {
        SourceModel { bytes: self.input@, pos: self.pos as int }
    }
}

impl Reader {
    /// The read position stays inside the source.
    pub open spec fn wf(self) -> bool {
        self@.pos <= self@.bytes.len()
    }

    /// A fresh reader over the given bytes.
    pub fn new(input: Vec<u8>) -> (r: Reader)
        ensures
            r@.bytes == input@,
            r@.pos == 0,
            r.wf(),
    {
        Reader { input, pos: 0, data: Vec::new() }
    }

    /// Whether any byte other than whitespace remains to be read.
    pub fn has_data_left(&self) -> (r: bool)
        requires
            self.wf(),
        ensures
            r == has_payload(self@.bytes, self@.pos),
    {
        let len = self.input.len();
        let mut i = self.pos;
        while i < len
            invariant
                self.pos <= i <= len == self.input@.len(),
                forall|j: int| self.pos <= j < i ==> is_space(#[trigger] self.input@[j]),
            decreases len - i,
        {
            if !is_space_byte(self.input[i]) {
                return true;
            }
            i = i + 1;
        }
        false
    }

    /// Skip blank lines, then append one line (without its terminator) to
    /// the record buffer and step past it; the returned length is zero
    /// exactly when only blank lines remained.
    fn read_line(&mut self) -> (n: usize)
        requires
            old(self).wf(),
        ensures
            final(self).wf(),
            final(self)@.bytes == old(self)@.bytes,
            ({
                let s = old(self)@.bytes;
                let p0 = skip_blank_lines(s, old(self)@.pos);
                let e0 = find_from(s, p0, LF);
                &&& final(self).data@ == old(self).data@ + s.subrange(p0, e0)
                &&& final(self)@.pos == line_next(s, e0)
                &&& n == e0 - p0
            }),
    {
        let ghost s = self.input@;
        let ghost p_orig = self.pos as int;
        let len = self.input.len();
        loop
            invariant
                self.input@ == s,
                self.data@ == old(self).data@,
                len == s.len(),
                p_orig <= self.pos as int <= len,
                old(self)@.pos == p_orig,
                old(self)@.bytes == s,
                skip_blank_lines(s, p_orig) == skip_blank_lines(s, self.pos as int),
            decreases len - self.pos,
        {
            let start = self.pos;
            proof {
                lemma_skip_blank_spec(s, start as int);
            }
            if start >= len {
                proof {
                    assert(skip_blank_lines(s, p_orig) == s.len());
                    assert(find_from(s, s.len() as int, LF) == s.len());
                    assert(old(self).data@ + s.subrange(s.len() as int, s.len() as int) =~= old(
                        self,
                    ).data@);
                }
                return 0;
            }
            // Scan the current line, tracking whether it is all whitespace.
            let mut e = start;
            let mut blank: bool = true;
            while e < len && self.input[e] != LF
                invariant
                    self.input@ == s,
                    len == s.len(),
                    start <= e <= len,
                    forall|k: int| start <= k < e ==> s[k] != LF,
                    blank == (forall|k: int| start <= k < e ==> is_space(#[trigger] s[k])),
                decreases len - e,
            {
                if !is_space_byte(self.input[e]) {
                    blank = false;
                }
                e = e + 1;
            }
            proof {
                lemma_find_from_is(s, start as int, LF, e as int);
            }
            if blank {
                proof {
                    assert(line_is_blank(s, start as int));
                }
                self.pos = if e < len {
                    e + 1
                } else {
                    len
                };
            } else {
                proof {
                    assert(!line_is_blank(s, start as int)) by {
                        let w = choose|k: int|
                            start <= k < e && !is_space(#[trigger] s[k]);
                        assert(!is_space(s[w]));
                    }
                    assert(skip_blank_lines(s, start as int) == start);
                }
                append_bytes(
                    &mut self.data,
                    vstd::slice::slice_subrange(self.input.as_slice(), start, e),
                );
                self.pos = if e < len {
                    e + 1
                } else {
                    len
                };
                return e - start;
            }
        }
    }

    /// Append payload bytes to the record buffer, stepping over line
    /// terminators, until the delimiter byte (left unconsumed) or the end
    /// of the source; the returned length counts the appended bytes.
    fn read_until(&mut self, delim: u8) -> (n: usize)
        requires
            old(self).wf(),
            delim != LF,
        ensures
            final(self).wf(),
            final(self)@.bytes == old(self)@.bytes,
            ({
                let s = old(self)@.bytes;
                let end = find_from(s, old(self)@.pos, delim);
                &&& final(self)@.pos == end
                &&& final(self).data@ == old(self).data@ + strip_lf(
                    s.subrange(old(self)@.pos, end),
                )
                &&& n == strip_lf(s.subrange(old(self)@.pos, end)).len()
            }),
    {
        let ghost s = self.input@;
        let ghost p_orig = self.pos as int;
        let len = self.input.len();
        let mut n: usize = 0;
        proof {
            assert(s.subrange(p_orig, p_orig) =~= Seq::<u8>::empty());
            assert(strip_lf(Seq::<u8>::empty()) =~= Seq::<u8>::empty());
            assert(self.data@ =~= old(self).data@ + strip_lf(s.subrange(p_orig, p_orig)));
        }
        loop
            invariant
                self.input@ == s,
                len == s.len(),
                p_orig <= self.pos as int <= len,
                old(self)@.pos == p_orig,
                old(self)@.bytes == s,
                delim != LF,
                find_from(s, p_orig, delim) == find_from(s, self.pos as int, delim),
                self.data@ == old(self).data@ + strip_lf(s.subrange(p_orig, self.pos as int)),
                n == strip_lf(s.subrange(p_orig, self.pos as int)).len(),
                n <= self.pos,
            decreases len - self.pos,
        {
            let start = self.pos;
            if start >= len {
                return n;
            }
            let tail = vstd::slice::slice_subrange(self.input.as_slice(), start, len);
            match find_byte2(delim, LF, tail) {
                None => {
                    append_bytes(&mut self.data, tail);
                    proof {
                        assert forall|k: int|
                            start as int <= k < len implies s[k] != delim && s[k] != LF by {
                            assert(tail@[k - start as int] != delim);
                            assert(tail@[k - start as int] != LF);
                        }
                        lemma_find_from_is(s, start as int, delim, len as int);
                        lemma_strip_lf_clean(s.subrange(start as int, len as int));
                        lemma_strip_lf_concat(
                            s.subrange(p_orig, start as int),
                            s.subrange(start as int, len as int),
                        );
                        assert(s.subrange(p_orig, len as int) =~= s.subrange(p_orig, start as int)
                            + s.subrange(start as int, len as int));
                    }
                    let r = n + (len - start);
                    self.pos = len;
                    return r;
                },
                Some(i) => {
                    let hit = start + i;
                    proof {
                        assert forall|k: int|
                            start as int <= k < hit as int implies s[k] != delim && s[k] != LF by {
                            assert(tail@[k - start as int] != delim);
                            assert(tail@[k - start as int] != LF);
                        }
                        lemma_strip_lf_clean(s.subrange(start as int, hit as int));
                        lemma_strip_lf_concat(
                            s.subrange(p_orig, start as int),
                            s.subrange(start as int, hit as int),
                        );
                        assert(s.subrange(p_orig, hit as int) =~= s.subrange(p_orig, start as int)
                            + s.subrange(start as int, hit as int));
                    }
                    append_bytes(
                        &mut self.data,
                        vstd::slice::slice_subrange(self.input.as_slice(), start, hit),
                    );
                    n = n + i;
                    if self.input[hit] == delim {
                        proof {
                            lemma_find_from_is(s, start as int, delim, hit as int);
                        }
                        self.pos = hit;
                        return n;
                    } else {
                        proof {
                            assert(s[hit as int] == LF);
                            lemma_find_from_skip(s, start as int, hit + 1, delim);
                            lemma_strip_lf_single(s[hit as int]);
                            lemma_strip_lf_concat(
                                s.subrange(p_orig, hit as int),
                                s.subrange(hit as int, hit + 1),
                            );
                            assert(s.subrange(hit as int, hit + 1) =~= seq![s[hit as int]]);
                            assert(s.subrange(p_orig, hit + 1) =~= s.subrange(p_orig, hit as int)
                                + s.subrange(hit as int, hit + 1));
                        }
                        self.pos = hit + 1;
                    }
                },
            }
        }
    }

    /// Append exactly `want` payload bytes to the record buffer, stepping
    /// over line terminators, stopping early only at the end of the
    /// source; the returned length counts the appended bytes.
    fn read_exact(&mut self, want: usize) -> (n: usize)
        requires
            old(self).wf(),
        ensures
            final(self).wf(),
            final(self)@.bytes == old(self)@.bytes,
            ({
                let s = old(self)@.bytes;
                let e = exact_end(s, old(self)@.pos, want as int);
                &&& final(self)@.pos == e
                &&& final(self).data@ == old(self).data@ + strip_lf(
                    s.subrange(old(self)@.pos, e),
                )
                &&& n == strip_lf(s.subrange(old(self)@.pos, e)).len()
            }),
    {
        let ghost s = self.input@;
        let ghost p_orig = self.pos as int;
        let len = self.input.len();
        let mut got: usize = 0;
        proof {
            assert(s.subrange(p_orig, p_orig) =~= Seq::<u8>::empty());
            assert(strip_lf(Seq::<u8>::empty()) =~= Seq::<u8>::empty());
            assert(self.data@ =~= old(self).data@ + strip_lf(s.subrange(p_orig, p_orig)));
        }
        loop
            invariant
                self.input@ == s,
                len == s.len(),
                p_orig <= self.pos as int <= len,
                old(self)@.pos == p_orig,
                old(self)@.bytes == s,
                got <= want,
                exact_end(s, p_orig, want as int) == exact_end(
                    s,
                    self.pos as int,
                    want - got,
                ),
                self.data@ == old(self).data@ + strip_lf(s.subrange(p_orig, self.pos as int)),
                got == strip_lf(s.subrange(p_orig, self.pos as int)).len(),
            decreases len - self.pos + (want - got),
        {
            let start = self.pos;
            if got >= want {
                return got;
            }
            if start >= len {
                return got;
            }
            let tail = vstd::slice::slice_subrange(self.input.as_slice(), start, len);
            let need = want - got;
            let take = match find_byte(LF, tail) {
                None => {
                    let avail = len - start;
                    if avail < need {
                        avail
                    } else {
                        need
                    }
                },
                Some(i) => {
                    if i < need {
                        i
                    } else {
                        need
                    }
                },
            };
            // The next `take` bytes are payload: no terminator among them.
            proof {
                assert forall|k: int| start as int <= k < start + take implies s[k] != LF by {
                    assert(tail@[k - start as int] != LF);
                }
                lemma_strip_lf_clean(s.subrange(start as int, start + take));
                lemma_strip_lf_concat(
                    s.subrange(p_orig, start as int),
                    s.subrange(start as int, start + take),
                );
                assert(s.subrange(p_orig, start + take) =~= s.subrange(p_orig, start as int)
                    + s.subrange(start as int, start + take));
                lemma_exact_end_run(s, start as int, need as int, take as int);
            }
            append_bytes(
                &mut self.data,
                vstd::slice::slice_subrange(self.input.as_slice(), start, start + take),
            );
            got = got + take;
            self.pos = start + take;
            if take == need {
                return got;
            }
            if self.pos >= len {
                return got;
            }
            // Stopped at a terminator with payload still owed: step over it.
            proof {
                assert(s[self.pos as int] == LF);
                lemma_strip_lf_single(s[self.pos as int]);
                lemma_strip_lf_concat(
                    s.subrange(p_orig, self.pos as int),
                    s.subrange(self.pos as int, self.pos + 1),
                );
                assert(s.subrange(self.pos as int, self.pos + 1) =~= seq![s[self.pos as int]]);
                assert(s.subrange(p_orig, self.pos + 1) =~= s.subrange(p_orig, self.pos as int)
                    + s.subrange(self.pos as int, self.pos + 1));
            }
            self.pos = self.pos + 1;
        }
    }

    /// Scan one record out of the source: the result and the new read
    /// position are exactly what the model's `parse_step` assigns to the
    /// old position.
    pub fn iter_record(&mut self) -> (r: Result<Option<Fastx>, ParseError>)
        requires
            old(self).wf(),
        ensures
            final(self).wf(),
            final(self)@.bytes == old(self)@.bytes,
            final(self)@.pos == parse_step(old(self)@.bytes, old(self)@.pos).end,
            outcome_matches(r, parse_step(old(self)@.bytes, old(self)@.pos).outcome),
            r matches Ok(Some(f)) ==> f@.wf() && (f@.is_long() ==> f@.quality().len()
                == f@.sequence().len()),
    {
        let ghost s = self.input@;
        let ghost p = self.pos as int;
        proof {
            lemma_skip_blank_spec(s, p);
        }
        self.data.clear();
        let des = self.read_line();
        let ghost p0 = skip_blank_lines(s, p);
        let ghost e0 = find_from(s, p0, LF);
        let ghost hline = s.subrange(p0, e0);
        proof {
            lemma_find_from_spec(s, p0, LF);
            assert(self.data@ =~= hline);
        }
        if des == 0 {
            proof {
                if p0 < s.len() {
                    assert(e0 == p0);
                    assert(line_is_blank(s, p0));
                    assert(false);
                }
            }
            return Ok(None);
        }
        let first = self.data[0];
        let ghost step = parse_step(s, p);
        if first != TAG_SHORT && first != TAG_LONG {
            let d = vstd::slice::slice_to_vec(self.data.as_slice());
            proof {
                assert(step.outcome == (Outcome::BadTag { data: hline }));
                assert(step.end == line_next(s, e0));
            }
            return Err(ParseError::InvalidFastx(d));
        }
        let head = find_first_space(&self.data);
        let ghost headg = first_space_from(hline, 0);
        proof {
            lemma_first_space_spec(hline, 0);
            assert(headg >= 1) by {
                assert(!is_space(hline[0]));
            }
        }
        if first == TAG_SHORT {
            let n1 = self.read_until(TAG_SHORT);
            let ghost p1 = line_next(s, e0);
            let ghost end1 = find_from(s, p1, TAG_SHORT);
            let ghost sq = strip_lf(s.subrange(p1, end1));
            proof {
                lemma_find_from_spec(s, p1, TAG_SHORT);
                assert(self.data@ =~= hline + sq);
                assert(step == parse_short_tail(s, p1, hline, headg));
            }
            let seq_e = self.data.len();
            let more = self.has_data_left();
            if !more && (head == 1 || n1 == 0) {
                let d = vstd::slice::slice_to_vec(self.data.as_slice());
                return Err(ParseError::TruncateFile(d));
            }
            if n1 == 0 || head <= 1 {
                let ident = vstd::slice::slice_to_vec(
                    vstd::slice::slice_subrange(self.data.as_slice(), 1, head),
                );
                proof {
                    assert(ident@ =~= hline.subrange(1, headg));
                }
                return Err(ParseError::InvalidFasta(ident));
            }
            let rec_data = vstd::slice::slice_to_vec(self.data.as_slice());
            let f = Fastx {
                _head: head,
                _des: des,
                _seq: seq_e,
                _sep: seq_e,
                _qual: seq_e,
                _data: rec_data,
            };
            proof {
                assert(step.outcome matches Outcome::Record { rec } && f@ =~= rec);
            }
            Ok(Some(f))
        } else {
            let n1 = self.read_until(TAG_SEP);
            let ghost p1 = line_next(s, e0);
            let ghost end1 = find_from(s, p1, TAG_SEP);
            let ghost sq = strip_lf(s.subrange(p1, end1));
            proof {
                lemma_find_from_spec(s, p1, TAG_SEP);
                assert(self.data@ =~= hline + sq);
            }
            let n2 = self.read_line();
            let ghost p2 = skip_blank_lines(s, end1);
            let ghost e2 = find_from(s, p2, LF);
            let ghost sline = s.subrange(p2, e2);
            proof {
                lemma_skip_blank_spec(s, end1);
                lemma_find_from_spec(s, p2, LF);
                assert(self.data@ =~= hline + sq + sline);
            }
            let sep_e = self.data.len();
            let n3 = self.read_exact(n1);
            let ghost p3 = line_next(s, e2);
            let ghost e3 = exact_end(s, p3, n1 as int);
            let ghost ql = strip_lf(s.subrange(p3, e3));
            proof {
                lemma_exact_end_bounds(s, p3, n1 as int);
                assert(self.data@ =~= hline + sq + sline + ql);
                assert(step == parse_long_tail(s, p1, hline, headg));
            }
            let seq_e = des + n1;
            let qual_e = self.data.len();
            let more = self.has_data_left();
            if !more && (head == 1 || n1 == 0 || n2 == 0 || n3 == 0) {
                let d = vstd::slice::slice_to_vec(self.data.as_slice());
                return Err(ParseError::TruncateFile(d));
            }
            if n1 == 0 || n3 != n1 || head <= 1 {
                let ident = vstd::slice::slice_to_vec(
                    vstd::slice::slice_subrange(self.data.as_slice(), 1, head),
                );
                proof {
                    assert(ident@ =~= hline.subrange(1, headg));
                }
                return Err(ParseError::InvalidFastq(ident));
            }
            let rec_data = vstd::slice::slice_to_vec(self.data.as_slice());
            let f = Fastx {
                _head: head,
                _des: des,
                _seq: seq_e,
                _sep: sep_e,
                _qual: qual_e,
                _data: rec_data,
            };
            proof {
                assert(step.outcome matches Outcome::Record { rec } && f@ =~= rec);
            }
            Ok(Some(f))
        }
    }
}

/// Index of the first whitespace byte of `v`, or its length when there is
/// none.
fn find_first_space(v: &Vec<u8>) -> (r: usize)
    ensures
        r == first_space_from(v@, 0),
{
    let len = v.len();
    let mut k: usize = 0;
    while k < len
        invariant
            k <= len == v@.len(),
            forall|j: int| 0 <= j < k ==> !is_space(#[trigger] v@[j]),
        decreases len - k,
    {
        if is_space_byte(v[k]) {
            proof {
                lemma_first_space_is(v@, 0, k as int);
            }
            return k;
        }
        k = k + 1;
    }
    proof {
        lemma_first_space_is(v@, 0, len as int);
    }
    len
}

/// The model of the aggregator: the sources in order and the cursor.
#[verifier::ext_equal]
pub struct AggModel {
    pub sources: Seq<SourceModel>,
    pub index: int,
}

/// Smallest source index at or after `i` whose reader still holds payload,
/// or the number of sources when none does.
pub open spec fn first_live(srcs: Seq<SourceModel>, i: int) -> int
    decreases srcs.len() - i,
{
    if i < 0 || i >= srcs.len() {
        srcs.len() as int
    } else if has_payload(srcs[i].bytes, srcs[i].pos) {
        i
    } else {
        first_live(srcs, i + 1)
    }
}

/// An ordered chain of readers presented as one record stream: records
/// come from the first reader that still holds data, and a reader once
/// exhausted is never revisited.
pub struct Readers {
    index: usize,
    readers: Vec<Reader>,
}

impl View for Readers {
    type V = AggModel;

    closed spec fn view(&self) -> AggModel {
        AggModel {
            sources: Seq::new(self.readers@.len(), |i: int| self.readers@[i]@),
            index: self.index as int,
        }
    }
}

impl Default for Readers {
    /// An empty chain.
    fn default() -> (r: Readers)
        ensures
            r@.sources == Seq::<SourceModel>::empty(),
            r@.index == 0,
            r.wf(),
    {
        Readers::new()
    }
}

impl Readers {
    /// The cursor stays inside the chain and every reader is well formed.
    pub open spec fn wf(self) -> bool {
        &&& self@.index <= self@.sources.len()
        &&& forall|i: int|
            0 <= i < self@.sources.len() ==> (#[trigger] self@.sources[i]).pos
                <= self@.sources[i].bytes.len()
    }

    /// An empty chain.
    pub fn new() -> (r: Readers)
        ensures
            r@.sources == Seq::<SourceModel>::empty(),
            r@.index == 0,
            r.wf(),
    {
        let r = Readers { index: 0, readers: Vec::new() };
        proof {
            assert(r@.sources =~= Seq::<SourceModel>::empty());
        }
        r
    }

    /// Append one reader at the end of the chain.
    pub fn push(&mut self, rd: Reader)
        requires
            old(self).wf(),
            rd.wf(),
        ensures
            final(self).wf(),
            final(self)@.sources == old(self)@.sources.push(rd@),
            final(self)@.index == old(self)@.index,
    {
        self.readers.push(rd);
        proof {
            assert(self@.sources =~= old(self)@.sources.push(rd@));
        }
    }

    /// Append all of another chain's readers, in order, keeping this
    /// chain's cursor.
    pub fn append(&mut self, other: Readers)
        requires
            old(self).wf(),
            other.wf(),
        ensures
            final(self).wf(),
            final(self)@.sources == old(self)@.sources + other@.sources,
            final(self)@.index == old(self)@.index,
    {
        let mut o = other;
        self.readers.append(&mut o.readers);
        proof {
            assert(self@.sources =~= old(self)@.sources + other@.sources);
        }
    }

    /// Scan one record out of the chain: the first reader at or after the
    /// cursor that still holds payload yields it; readers found exhausted
    /// are skipped for good, and when none is left the stream ends.
    pub fn iter_record(&mut self) -> (r: Result<Option<Fastx>, ParseError>)
        requires
            old(self).wf(),
        ensures
            final(self).wf(),
            old(self)@.index <= final(self)@.index,
            final(self)@.index == first_live(old(self)@.sources, old(self)@.index),
            ({
                let j = first_live(old(self)@.sources, old(self)@.index);
                if j == old(self)@.sources.len() {
                    &&& r matches Ok(x) && x is None
                    &&& final(self)@.sources == old(self)@.sources
                } else {
                    let step = parse_step(
                        old(self)@.sources[j].bytes,
                        old(self)@.sources[j].pos,
                    );
                    &&& final(self)@.sources == old(self)@.sources.update(
                        j,
                        SourceModel { bytes: old(self)@.sources[j].bytes, pos: step.end },
                    )
                    &&& outcome_matches(r, step.outcome)
                }
            }),
            r matches Ok(Some(f)) ==> f@.wf() && (f@.is_long() ==> f@.quality().len()
                == f@.sequence().len()),
    {
        let n = self.readers.len();
        while self.index < n
            invariant
                n == self.readers@.len(),
                self.wf(),
                self@.sources == old(self)@.sources,
                old(self)@.index <= self@.index as int <= n,
                first_live(old(self)@.sources, old(self)@.index) == first_live(
                    self@.sources,
                    self.index as int,
                ),
            decreases n - self.index,
        {
            let idx = self.index;
            proof {
                assert(self@.sources[idx as int] == self.readers@[idx as int]@);
            }
            let more = self.readers[idx].has_data_left();
            if more {
                let ghost srcs = self@.sources;
                let res = self.readers[idx].iter_record();
                proof {
                    assert(self@.sources =~= srcs.update(
                        idx as int,
                        SourceModel {
                            bytes: srcs[idx as int].bytes,
                            pos: parse_step(srcs[idx as int].bytes, srcs[idx as int].pos).end,
                        },
                    ));
                }
                return res;
            }
            self.index = self.index + 1;
        }
        Ok(None)
    }
}

/// How an executable parse result realises a model outcome: the same
/// variant, carrying the bytes the model assigns to it.
pub open spec fn outcome_matches(r: Result<Option<Fastx>, ParseError>, o: Outcome) -> bool {
    match o {
        Outcome::End => r matches Ok(x) && x is None,
        Outcome::BadTag { data } => r matches Err(ParseError::InvalidFastx(d)) && d@ == data,
        Outcome::Truncated { data } => r matches Err(ParseError::TruncateFile(d)) && d@ == data,
        Outcome::BadShort { ident } => r matches Err(ParseError::InvalidFasta(d)) && d@ == ident,
        Outcome::BadLong { ident } => r matches Err(ParseError::InvalidFastq(d)) && d@ == ident,
        Outcome::Record { rec } => r matches Ok(x) && x matches Some(f) && f@ == rec,
    }
}

} // verus!
