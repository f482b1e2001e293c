//! BedGraph lines: parsing one whitespace-separated text line into a typed
//! record, and the restartable-per-process stream of records from one source.

use vstd::prelude::*;
use crate::chrom_geo::{ChromPos, ChromSeg, PosV, pos_le, lemma_pos_cmp_antisym};
use crate::text::{
    fields, u32_parses, dec_val, num_body, join_tab, dec_str, split_fields, parse_u32_str,
    join_tab_from, dec_string,
};
use core::cmp::Ordering;

verus! {

/// Mathematical value of a `BgLine`.
pub ghost struct RecV {
    pub chrom: Seq<char>,
    pub start: int,
    pub stop: int,
    pub data: Option<Seq<char>>,
}

/// The record's lower boundary as a position.
pub open spec fn rec_start(r: RecV) -> PosV {
    PosV { chrom: r.chrom, index: r.start }
}

/// The record's upper boundary as a position.
pub open spec fn rec_stop(r: RecV) -> PosV {
    PosV { chrom: r.chrom, index: r.stop }
}

/// Mathematical value of a `ParseError`.
pub ghost enum ParseErrV {
    MalformedLine { n_cols: int },
    InvalidCoordinate { text: Seq<char> },
}

/// Why one line failed to parse: too few columns, or a start or stop
/// field that is not an unsigned 32-bit number.
#[derive(Debug, PartialEq, Eq, Clone)]
pub enum ParseError {
    MalformedLine { n_cols: usize },
    InvalidCoordinate { text: String },
}

impl View for ParseError {
    type V = ParseErrV;

    open spec fn view(&self) -> ParseErrV {
        match self {
            ParseError::MalformedLine { n_cols } => ParseErrV::MalformedLine {
                n_cols: *n_cols as int,
            },
            ParseError::InvalidCoordinate { text } => ParseErrV::InvalidCoordinate { text: text@ },
        }
    }
}

/// How one text line parses: the first three fields are sequence name,
/// start and stop; any further fields are rejoined with single tabs as the
/// record's opaque value.
pub open spec fn parse_line(s: Seq<char>) -> Result<RecV, ParseErrV> {
    let cols = fields(s);
    if cols.len() < 3 {
        Err(ParseErrV::MalformedLine { n_cols: cols.len() as int })
    } else if !u32_parses(cols[1]) {
        Err(ParseErrV::InvalidCoordinate { text: cols[1] })
    } else if !u32_parses(cols[2]) {
        Err(ParseErrV::InvalidCoordinate { text: cols[2] })
    } else {
        Ok(
            RecV {
                chrom: cols[0],
                start: dec_val(num_body(cols[1])),
                stop: dec_val(num_body(cols[2])),
                data: if cols.len() > 3 {
                    Some(join_tab(cols.skip(3)))
                } else {
                    None
                },
            },
        )
    }
}

/// One parsed line: a segment plus an optional opaque value.
#[derive(Debug, PartialEq, Eq)]
pub struct BgLine {
    pub coords: ChromSeg,
    pub data: Option<String>,
}

impl View for BgLine {
    type V = RecV;

    open spec fn view(&self) -> RecV {
        RecV {
            chrom: self.coords.chrom@,
            start: self.coords.start as int,
            stop: self.coords.stop as int,
            data: match &self.data {
                Some(d) => Some(d@),
                None => None,
            },
        }
    }
}

impl DeepView for BgLine {
    type V = RecV;

    open spec fn deep_view(&self) -> RecV {
        self.view()
    }
}

impl Clone for BgLine {
    fn clone(&self) -> (r: Self)
        ensures
            r@ == self@,
    {
        BgLine {
            coords: self.coords.clone(),
            data: match &self.data {
                Some(d) => Some(d.clone()),
                None => None,
            },
        }
    }
}

impl BgLine {
    /// Parse one text line, exactly as `parse_line` describes.
    pub fn new(input_str: &str) -> (r: Result<BgLine, ParseError>)
        ensures
            parse_line(input_str@) matches Ok(v) ==> r matches Ok(l) && l@ == v,
            parse_line(input_str@) matches Err(e) ==> r matches Err(pe) && pe@ == e,
    {
        let cols = split_fields(input_str);
        let ghost dv = cols.deep_view();
        if cols.len() < 3 {
            return Err(ParseError::MalformedLine { n_cols: cols.len() });
        }
        proof {
            assert(dv[0] == cols@[0]@);
            assert(dv[1] == cols@[1]@);
            assert(dv[2] == cols@[2]@);
        }
        let start = match parse_u32_str(cols[1].as_str()) {
            Some(v) => v,
            None => {
                return Err(ParseError::InvalidCoordinate { text: cols[1].clone() });
            },
        };
        let stop = match parse_u32_str(cols[2].as_str()) {
            Some(v) => v,
            None => {
                return Err(ParseError::InvalidCoordinate { text: cols[2].clone() });
            },
        };
        let chrom = cols[0].clone();
        let data = if cols.len() > 3 {
            Some(join_tab_from(&cols, 3))
        } else {
            None
        };
        Ok(BgLine { coords: ChromSeg { chrom, start, stop }, data })
    }

    /// Does this record begin strictly after `pos`?
    pub fn starts_after(&self, pos: &ChromPos) -> (r: bool)
        ensures
            r == crate::chrom_geo::pos_lt(pos@, rec_start(self@)),
    {
        let r = self.coords.start_pos() > *pos;
        proof {
            lemma_pos_cmp_antisym(pos@, rec_start(self@));
        }
        r
    }

    /// Has this record ended at or before `pos`?
    pub fn ends_before(&self, pos: &ChromPos) -> (r: bool)
        ensures
            r == pos_le(rec_stop(self@), pos@),
    {
        self.coords.stop_pos() <= *pos
    }

    /// The text form of the record: tab-separated sequence name, start,
    /// stop, and the value when one is present.
    pub fn to_line(&self) -> (r: String)
        ensures
            r@ == line_text(self@),
    {
        let mut s = self.coords.chrom.clone();
        proof {
            reveal_strlit("\t");
            assert("\t"@ =~= seq!['\t']);
        }
        s.append("\t");
        let st = dec_string(self.coords.start);
        s.append(st.as_str());
        s.append("\t");
        let sp = dec_string(self.coords.stop);
        s.append(sp.as_str());
        match &self.data {
            Some(d) => {
                s.append("\t");
                s.append(d.as_str());
                proof {
                    assert(s@ =~= line_text(self@));
                }
            },
            None => {
                proof {
                    assert(s@ =~= line_text(self@));
                }
            },
        }
        s
    }
}

/// The text form of a record.
pub open spec fn line_text(r: RecV) -> Seq<char> {
    let base = r.chrom + seq!['\t'] + dec_str(r.start) + seq!['\t'] + dec_str(r.stop);
    match r.data {
        Some(d) => base + seq!['\t'] + d,
        None => base,
    }
}

/// Mathematical value of a `LineError`.
pub ghost struct LineErrV {
    pub lineno: int,
    pub error: ParseErrV,
}

/// A parse failure attached to its 1-based line number in the source.
#[derive(Debug, PartialEq, Eq, Clone)]
pub struct LineError {
    pub lineno: usize,
    pub error: ParseError,
}

impl View for LineError {
    type V = LineErrV;

    open spec fn view(&self) -> LineErrV {
        LineErrV { lineno: self.lineno as int, error: self.error@ }
    }
}

/// Mathematical value of a `BgIterator`: the lines not yet read, and how
/// many lines were read already.
pub ghost struct SrcV {
    pub rem: Seq<Seq<char>>,
    pub lineno: int,
}

/// What one pull from a stream yields, and the stream it leaves behind:
/// end of input once the lines run out, otherwise the parse of the next
/// line, a failure carrying its line number.
pub open spec fn src_next(s: SrcV) -> (Result<Option<RecV>, LineErrV>, SrcV) {
    if s.rem.len() == 0 {
        (Ok(None), s)
    } else {
        let s2 = SrcV { rem: s.rem.drop_first(), lineno: s.lineno + 1 };
        match parse_line(s.rem[0]) {
            Ok(r) => (Ok(Some(r)), s2),
            Err(e) => (Err(LineErrV { lineno: s.lineno + 1, error: e }), s2),
        }
    }
}

/// A lazy, finite stream of records parsed one line at a time.
#[derive(Debug)]
pub struct BgIterator {
    pub lines: Vec<String>,
    pub lineno: usize,
}

impl View for BgIterator {
    type V = SrcV;

    open spec fn view(&self) -> SrcV {
        SrcV {
            rem: if self.lineno <= self.lines@.len() {
                self.lines.deep_view().skip(self.lineno as int)
            } else {
                Seq::empty()
            },
            lineno: self.lineno as int,
        }
    }
}

impl DeepView for BgIterator {
    type V = SrcV;

    open spec fn deep_view(&self) -> SrcV {
        self.view()
    }
}

impl BgIterator {
    /// A stream over the given text lines, none read yet.
    pub fn new(lines: Vec<String>) -> (r: BgIterator)
        ensures
            r@.rem == lines.deep_view(),
            r@.lineno == 0,
    {
        let r = BgIterator { lines, lineno: 0 };
        proof {
            assert(r.lines.deep_view().skip(0) =~= r.lines.deep_view());
        }
        r
    }

    /// Pull the next record: `Ok(None)` at end of input, an error when the
    /// next line does not parse.
    pub fn next(&mut self) -> (r: Result<Option<BgLine>, LineError>)
        ensures
            final(self)@ == src_next(old(self)@).1,
            ({
                let sr = src_next(old(self)@).0;
                match sr {
                    Ok(ro) => r matches Ok(o) && (match ro {
                        Some(v) => o matches Some(l) && l@ == v,
                        None => o is None,
                    }),
                    Err(e) => r matches Err(le) && le@ == e,
                }
            }),
    {
        let ghost oldv = self@;
        if self.lineno >= self.lines.len() {
            proof {
                assert(self.lines.deep_view().len() == self.lines@.len());
                if self.lineno == self.lines@.len() {
                    assert(oldv.rem =~= Seq::<Seq<char>>::empty());
                }
            }
            return Ok(None);
        }
        proof {
            assert(oldv.rem[0] == self.lines.deep_view()[self.lineno as int]);
            assert(self.lines.deep_view()[self.lineno as int] == self.lines@[self.lineno as int]@);
        }
        let parsed = BgLine::new(self.lines[self.lineno].as_str());
        self.lineno = self.lineno + 1;
        proof {
            assert(self@.rem =~= oldv.rem.drop_first());
        }
        match parsed {
            Ok(l) => Ok(Some(l)),
            Err(e) => Err(LineError { lineno: self.lineno, error: e }),
        }
    }
}

} // verus!
