//! Streaming parser for the two common sequence-record formats (FASTA and
//! FASTQ), with transparent gzip support and manifest ("file of file names")
//! indirection.
//!
//! The library works on in-memory byte sources: a caller hands a source's
//! bytes to [`dispatch::resolve_source`], receives either a single-source
//! [`record::Reader`] or the list of paths a manifest names, and then pulls
//! records one at a time with `iter_record`.

use vstd::prelude::*;

pub mod dispatch;
pub mod laws;
pub mod model;
pub mod record;
pub mod scan;

use crate::model::parse_step;
use crate::record::{Fastx, ParseError, Reader, Readers, first_live, outcome_matches, SourceModel};

verus! {

/// One resolved source tree: a single reader, or the chain of readers a
/// manifest gave rise to.
pub enum Paths {
    Reader(Reader),
    Readers(Readers),
}

impl Paths {
    /// Both shapes carry well-formed readers.
    pub open spec fn wf(self) -> bool {
        match self {
            Paths::Reader(rd) => rd.wf(),
            Paths::Readers(rs) => rs.wf(),
        }
    }

    /// Scan one record, whichever shape stands behind this value: a single
    /// reader is read directly, a chain is read through its cursor.
    pub fn iter_record(&mut self) -> (r: Result<Option<Fastx>, ParseError>)
        requires
            old(self).wf(),
        ensures
            final(self).wf(),
            (*old(self)) matches Paths::Reader(r0) ==> ((*final(self)) matches Paths::Reader(r1)
                && r1@.bytes == r0@.bytes && r1@.pos == parse_step(r0@.bytes, r0@.pos).end
                && outcome_matches(r, parse_step(r0@.bytes, r0@.pos).outcome)),
            (*old(self)) matches Paths::Readers(s0) ==> ((*final(self)) matches Paths::Readers(s1)
                && s1@.index == first_live(s0@.sources, s0@.index) && ({
                let j = first_live(s0@.sources, s0@.index);
                if j == s0@.sources.len() {
                    &&& r matches Ok(x) && x is None
                    &&& s1@.sources == s0@.sources
                } else {
                    let step = parse_step(s0@.sources[j].bytes, s0@.sources[j].pos);
                    &&& s1@.sources == s0@.sources.update(
                        j,
                        SourceModel { bytes: s0@.sources[j].bytes, pos: step.end },
                    )
                    &&& outcome_matches(r, step.outcome)
                }
            })),
            r matches Ok(Some(f)) ==> f@.wf() && (f@.is_long() ==> f@.quality().len()
                == f@.sequence().len()),
    {
        match self {
            Paths::Reader(t) => t.iter_record(),
            Paths::Readers(t) => t.iter_record(),
        }
    }
}

} // verus!
