//! The sweep-line union engine: per-source state machine, breakpoint
//! computation, and merged-row emission over any number of record streams.

use vstd::prelude::*;
use crate::chrom_geo::{
    ChromPos, ChromSeg, PosV, pos_lt, pos_le, lemma_pos_cmp_eq, lemma_pos_not_lt,
    lemma_pos_le_trans, lemma_str_cmp_eq, str_three_way, lemma_pos_le_antisym,
    lemma_pos_lt_same_chrom, lemma_pos_between_chrom,
};
use crate::bedgraph::{
    BgLine, BgIterator, RecV, SrcV, LineErrV, ParseError, ParseErrV, rec_start, rec_stop, src_next,
    parse_line,
};
use crate::chrom_sizes::ChromSizes;
use crate::text::join_tab_from;
use core::cmp::Ordering;

verus! {

/// Mathematical value of a `UnionLine`.
pub ghost enum LineV {
    In { rec: RecV },
    Out { rec: RecV },
    Done,
}

/// One source's standing relative to the union cursor: its pending record
/// is already active (`In`), still ahead (`Out`), or the stream is spent.
#[derive(Debug)]
pub enum UnionLine {
    In(BgLine),
    Out(BgLine),
    Done,
}

impl View for UnionLine {
    type V = LineV;

    open spec fn view(&self) -> LineV {
        match self {
            UnionLine::In(l) => LineV::In { rec: l@ },
            UnionLine::Out(l) => LineV::Out { rec: l@ },
            UnionLine::Done => LineV::Done,
        }
    }
}

impl Clone for UnionLine {
    fn clone(&self) -> (r: Self)
        ensures
            r@ == self@,
    {
        match self {
            UnionLine::In(l) => UnionLine::In(l.clone()),
            UnionLine::Out(l) => UnionLine::Out(l.clone()),
            UnionLine::Done => UnionLine::Done,
        }
    }
}

/// Mathematical value of a `Source`.
pub ghost struct SourceV {
    pub line: LineV,
    pub src: SrcV,
}

/// One input to the union: its record stream and its current standing.
#[derive(Debug)]
pub struct Source {
    pub reader: BgIterator,
    pub line: UnionLine,
}

impl View for Source {
    type V = SourceV;

    open spec fn view(&self) -> SourceV {
        SourceV { line: self.line@, src: self.reader@ }
    }
}

impl DeepView for Source {
    type V = SourceV;

    open spec fn deep_view(&self) -> SourceV {
        self.view()
    }
}

/// Configuration of a merge: whether wholly uncovered spans are reported,
/// the filler text standing in for absent values, and the optional genome
/// size table that bounds each sequence.
#[derive(Debug)]
pub struct UnionConfig {
    pub report_empty: bool,
    pub filler: String,
    pub genome: Option<ChromSizes>,
}

/// Mathematical value of a `UnionError`.
pub ghost struct UnionErrV {
    pub source: int,
    pub lineno: int,
    pub error: ParseErrV,
}

/// A line of some input failed to parse during the merge: the 0-based
/// source index, the 1-based line number in it, and the parse failure.
#[derive(Debug, PartialEq, Eq)]
pub struct UnionError {
    pub source: usize,
    pub lineno: usize,
    pub error: ParseError,
}

impl View for UnionError {
    type V = UnionErrV;

    open spec fn view(&self) -> UnionErrV {
        UnionErrV { source: self.source as int, lineno: self.lineno as int, error: self.error@ }
    }
}

/// Mathematical value of a `BgUnion`: the per-source states, the boundary
/// records synthesized from the genome table with their standing, the
/// cursor, and the configuration the merge runs under.
pub ghost struct UnionV {
    pub srcs: Seq<SourceV>,
    pub brecs: Seq<RecV>,
    pub bline: LineV,
    pub curr: PosV,
    pub report_empty: bool,
    pub filler: Seq<char>,
}

/// The next position at which a source's standing changes: where an active
/// record ends, or where a pending record begins.
pub open spec fn contribution(l: LineV) -> Option<PosV> {
    match l {
        LineV::Done => None,
        LineV::In { rec } => Some(rec_stop(rec)),
        LineV::Out { rec } => Some(rec_start(rec)),
    }
}

/// The smaller of two optional positions; `None` stands for no constraint.
pub open spec fn opt_min(a: Option<PosV>, b: Option<PosV>) -> Option<PosV> {
    match (a, b) {
        (None, x) => x,
        (Some(p), None) => Some(p),
        (Some(p), Some(q)) => if pos_lt(q, p) {
            Some(q)
        } else {
            Some(p)
        },
    }
}

/// The minimum contribution over all sources.
pub open spec fn min_contrib(ss: Seq<SourceV>) -> Option<PosV>
    decreases ss.len(),
{
    if ss.len() == 0 {
        None
    } else {
        opt_min(min_contrib(ss.drop_last()), contribution(ss.last().line))
    }
}

/// The next breakpoint of the whole union, boundary source included.
pub open spec fn trans_of(u: UnionV) -> Option<PosV> {
    opt_min(min_contrib(u.srcs), contribution(u.bline))
}

/// Is any source currently active?
pub open spec fn has_active(ss: Seq<SourceV>) -> bool {
    exists|i: int| 0 <= i < ss.len() && ss[i].line is In
}

/// The column a source contributes to a merged row: its record's value
/// when active and present, the filler otherwise.
pub open spec fn cell_of(l: LineV, filler: Seq<char>) -> Seq<char> {
    match l {
        LineV::In { rec } => match rec.data {
            Some(d) => d,
            None => filler,
        },
        _ => filler,
    }
}

pub open spec fn row_cells(ss: Seq<SourceV>, filler: Seq<char>) -> Seq<Seq<char>> {
    Seq::new(ss.len(), |i: int| cell_of(ss[i].line, filler))
}

/// A newly pulled record relative to the breakpoint: still ahead, or
/// already active.
pub open spec fn classify(rec: RecV, bp: PosV) -> LineV {
    if pos_lt(bp, rec_start(rec)) {
        LineV::Out { rec }
    } else {
        LineV::In { rec }
    }
}

/// How one source advances once the breakpoint `bp` is fixed: a pending
/// record not yet reached stays pending, else turns active; an active
/// record ending at or before `bp` is replaced from the stream.
pub open spec fn adv_src(sv: SourceV, bp: PosV) -> Result<SourceV, LineErrV> {
    match sv.line {
        LineV::Done => Ok(sv),
        LineV::Out { rec } => if pos_lt(bp, rec_start(rec)) {
            Ok(sv)
        } else {
            Ok(SourceV { line: LineV::In { rec }, src: sv.src })
        },
        LineV::In { rec } => if pos_lt(bp, rec_stop(rec)) {
            Ok(sv)
        } else {
            match src_next(sv.src) {
                (Ok(None), s2) => Ok(SourceV { line: LineV::Done, src: s2 }),
                (Ok(Some(r2)), s2) => Ok(SourceV { line: classify(r2, bp), src: s2 }),
                (Err(e), s2) => Err(e),
            }
        },
    }
}

/// All sources advanced in input order from index `i` on; the first
/// stream error wins, tagged with its source index.
pub open spec fn adv_all(ss: Seq<SourceV>, bp: PosV, i: int) -> Result<Seq<SourceV>, UnionErrV>
    decreases ss.len() - i,
{
    if !(0 <= i < ss.len()) {
        Ok(ss)
    } else {
        match adv_src(ss[i], bp) {
            Err(e) => Err(UnionErrV { source: i, lineno: e.lineno, error: e.error }),
            Ok(sv2) => adv_all(ss.update(i, sv2), bp, i + 1),
        }
    }
}

/// How the boundary source advances: like a record stream whose records
/// are already parsed and never fail.
pub open spec fn adv_bound(bl: LineV, brecs: Seq<RecV>, bp: PosV) -> (LineV, Seq<RecV>) {
    match bl {
        LineV::Done => (LineV::Done, brecs),
        LineV::Out { rec } => if pos_lt(bp, rec_start(rec)) {
            (LineV::Out { rec }, brecs)
        } else {
            (LineV::In { rec }, brecs)
        },
        LineV::In { rec } => if pos_lt(bp, rec_stop(rec)) {
            (LineV::In { rec }, brecs)
        } else {
            if brecs.len() == 0 {
                (LineV::Done, brecs)
            } else {
                (classify(brecs[0], bp), brecs.drop_first())
            }
        },
    }
}

/// The whole union state advanced to breakpoint `bp`.
pub open spec fn spec_advance(u: UnionV, bp: PosV) -> Result<UnionV, UnionErrV> {
    match adv_all(u.srcs, bp, 0) {
        Err(e) => Err(e),
        Ok(ss2) => {
            let (bl2, br2) = adv_bound(u.bline, u.brecs, bp);
            Ok(
                UnionV {
                    srcs: ss2,
                    brecs: br2,
                    bline: bl2,
                    curr: bp,
                    report_empty: u.report_empty,
                    filler: u.filler,
                },
            )
        },
    }
}

/// Weight of one standing in the termination measure.
pub open spec fn line_weight(l: LineV) -> int {
    match l {
        LineV::Done => 0,
        LineV::In { .. } => 2,
        LineV::Out { .. } => 3,
    }
}

pub open spec fn src_meas(sv: SourceV) -> int {
    2 * sv.src.rem.len() + line_weight(sv.line)
}

pub open spec fn meas_from(ss: Seq<SourceV>, i: int) -> int
    decreases ss.len() - i,
{
    if !(0 <= i < ss.len()) {
        0
    } else {
        src_meas(ss[i]) + meas_from(ss, i + 1)
    }
}

/// Termination measure of the whole union: every advance to a breakpoint
/// strictly shrinks it.
pub open spec fn measure(u: UnionV) -> int {
    meas_from(u.srcs, 0) + 2 * u.brecs.len() + line_weight(u.bline)
}

proof fn lemma_meas_from_nonneg(ss: Seq<SourceV>, i: int)
    ensures
        meas_from(ss, i) >= 0,
    decreases ss.len() - i,
{
    if 0 <= i < ss.len() {
        lemma_meas_from_nonneg(ss, i + 1);
    }
}

/// Indices outside `[i, len)` do not matter to `meas_from`.
proof fn lemma_meas_from_update(ss: Seq<SourceV>, j: int, x: SourceV, i: int)
    requires
        0 <= j < i,
        j < ss.len(),
    ensures
        meas_from(ss.update(j, x), i) == meas_from(ss, i),
    decreases ss.len() - i,
{
    if i < ss.len() {
        lemma_meas_from_update(ss, j, x, i + 1);
    }
}

/// The minimum over sources: none exactly when all are spent; otherwise
/// it is attained at some source and bounds every contribution.
proof fn lemma_min_contrib(ss: Seq<SourceV>)
    ensures
        min_contrib(ss) is None <==> (forall|i: int|
            0 <= i < ss.len() ==> ss[i].line is Done),
        min_contrib(ss) matches Some(m) ==> (exists|i: int|
            0 <= i < ss.len() && contribution(ss[i].line) == Some(m)),
        min_contrib(ss) matches Some(m) ==> (forall|i: int|
            0 <= i < ss.len() ==> (contribution(#[trigger] ss[i].line) matches Some(p) ==> pos_le(
                m,
                p,
            ))),
    decreases ss.len(),
{
    if ss.len() > 0 {
        let front = ss.drop_last();
        lemma_min_contrib(front);
        assert(forall|i: int| 0 <= i < front.len() ==> front[i] == ss[i]);
        let cl = contribution(ss.last().line);
        match (min_contrib(front), cl) {
            (None, None) => {
                assert(ss.last().line is Done);
            },
            (None, Some(q)) => {
                lemma_pos_not_lt(q, q);
                assert(contribution(ss[ss.len() - 1].line) == Some(q));
            },
            (Some(p), None) => {
                assert(ss.last().line is Done);
            },
            (Some(p), Some(q)) => {
                lemma_pos_not_lt(q, p);
                lemma_pos_cmp_eq(p, p);
                lemma_pos_cmp_eq(q, q);
                let m = if pos_lt(q, p) {
                    q
                } else {
                    p
                };
                assert(pos_le(m, p));
                assert(pos_le(m, q));
                assert forall|i: int| 0 <= i < ss.len() implies (contribution(
                    #[trigger] ss[i].line,
                ) matches Some(pp) ==> pos_le(m, pp)) by {
                    match contribution(ss[i].line) {
                        Some(pp2) => {
                            if i < ss.len() - 1 {
                                assert(contribution(front[i].line) == contribution(ss[i].line));
                                assert(pos_le(p, pp2));
                                lemma_pos_le_trans(m, p, pp2);
                            } else {
                                assert(pp2 == q);
                            }
                        },
                        None => {},
                    }
                }
                if pos_lt(q, p) {
                    assert(contribution(ss[ss.len() - 1].line) == Some(q));
                } else {
                    let wit = choose|i: int|
                        0 <= i < front.len() && contribution(front[i].line) == Some(p);
                    assert(contribution(ss[wit].line) == Some(p));
                }
            },
        }
    }
}

/// Advancing one source never grows its share of the measure, and shrinks
/// it when the breakpoint sits exactly at the source's contribution.
proof fn lemma_adv_src_meas(sv: SourceV, bp: PosV)
    ensures
        adv_src(sv, bp) matches Ok(sv2) ==> src_meas(sv2) <= src_meas(sv),
        adv_src(sv, bp) matches Ok(sv2) ==> (contribution(sv.line) == Some(bp) ==> src_meas(sv2)
            < src_meas(sv)),
{
    match sv.line {
        LineV::Done => {},
        LineV::Out { rec } => {
            if contribution(sv.line) == Some(bp) {
                lemma_pos_cmp_eq(bp, rec_start(rec));
            }
        },
        LineV::In { rec } => {
            if contribution(sv.line) == Some(bp) {
                lemma_pos_cmp_eq(bp, rec_stop(rec));
            }
            if !pos_lt(bp, rec_stop(rec)) {
                if sv.src.rem.len() > 0 {
                    assert(src_next(sv.src).1.rem.len() == sv.src.rem.len() - 1);
                }
            }
        },
    }
}

/// Advancing all sources from `i` on never grows the tail measure, keeps
/// the prefix, and shrinks the tail strictly when some source at or past
/// `i` contributes exactly the breakpoint.
proof fn lemma_adv_all_meas(ss: Seq<SourceV>, bp: PosV, i: int)
    requires
        0 <= i,
    ensures
        adv_all(ss, bp, i) matches Ok(ss2) ==> {
            &&& ss2.len() == ss.len()
            &&& (forall|j: int| 0 <= j < i && j < ss.len() ==> ss2[j] == ss[j])
            &&& meas_from(ss2, i) <= meas_from(ss, i)
            &&& ((exists|j: int|
                i <= j < ss.len() && contribution(#[trigger] ss[j].line) == Some(bp))
                ==> meas_from(ss2, i) < meas_from(ss, i))
        },
    decreases ss.len() - i,
{
    if i < ss.len() {
        match adv_src(ss[i], bp) {
            Err(_) => {},
            Ok(sv2) => {
                lemma_adv_src_meas(ss[i], bp);
                let upd = ss.update(i, sv2);
                lemma_adv_all_meas(upd, bp, i + 1);
                match adv_all(upd, bp, i + 1) {
                    Err(_) => {},
                    Ok(ss2) => {
                        lemma_meas_from_update(ss, i, sv2, i + 1);
                        assert(meas_from(upd, i + 1) == meas_from(ss, i + 1));
                        assert(upd[i] == sv2);
                        assert(meas_from(upd, i) == src_meas(sv2) + meas_from(upd, i + 1));
                        assert(ss2[i] == sv2);
                        assert(meas_from(ss2, i) == src_meas(ss2[i]) + meas_from(ss2, i + 1));
                        if exists|j: int|
                            i <= j < ss.len() && contribution(#[trigger] ss[j].line) == Some(bp) {
                            let j = choose|j: int|
                                i <= j < ss.len() && contribution(#[trigger] ss[j].line) == Some(
                                    bp,
                                );
                            if j == i {
                                assert(src_meas(sv2) < src_meas(ss[i]));
                            } else {
                                assert(upd[j] == ss[j]);
                                assert(contribution(upd[j].line) == Some(bp));
                                assert(meas_from(ss2, i + 1) < meas_from(upd, i + 1));
                            }
                        }
                    },
                }
            },
        }
    }
}

/// The boundary source obeys the same measure discipline.
proof fn lemma_adv_bound_meas(bl: LineV, brecs: Seq<RecV>, bp: PosV)
    ensures
        ({
            let (bl2, br2) = adv_bound(bl, brecs, bp);
            &&& 2 * br2.len() + line_weight(bl2) <= 2 * brecs.len() + line_weight(bl)
            &&& (contribution(bl) == Some(bp) ==> 2 * br2.len() + line_weight(bl2) < 2
                * brecs.len() + line_weight(bl))
        }),
{
    match bl {
        LineV::Done => {},
        LineV::Out { rec } => {
            if contribution(bl) == Some(bp) {
                lemma_pos_cmp_eq(bp, rec_start(rec));
            }
        },
        LineV::In { rec } => {
            if contribution(bl) == Some(bp) {
                lemma_pos_cmp_eq(bp, rec_stop(rec));
            }
        },
    }
}

/// Advancing to the breakpoint strictly shrinks the measure.
proof fn lemma_spec_advance_measure(u: UnionV, bp: PosV)
    requires
        trans_of(u) == Some(bp),
    ensures
        spec_advance(u, bp) matches Ok(u2) ==> 0 <= measure(u2) < measure(u),
{
    lemma_min_contrib(u.srcs);
    lemma_adv_all_meas(u.srcs, bp, 0);
    lemma_adv_bound_meas(u.bline, u.brecs, bp);
    match adv_all(u.srcs, bp, 0) {
        Err(_) => {},
        Ok(ss2) => {
            lemma_meas_from_nonneg(ss2, 0);
            match (min_contrib(u.srcs), contribution(u.bline)) {
                (None, None) => {},
                (None, Some(q)) => {
                    assert(contribution(u.bline) == Some(bp));
                },
                (Some(p), None) => {
                    assert(min_contrib(u.srcs) == Some(bp));
                    assert(exists|i: int|
                        0 <= i < u.srcs.len() && contribution(#[trigger] u.srcs[i].line) == Some(
                            bp,
                        ));
                },
                (Some(p), Some(q)) => {
                    if pos_lt(q, p) {
                        assert(contribution(u.bline) == Some(bp));
                    } else {
                        assert(min_contrib(u.srcs) == Some(bp));
                        assert(exists|i: int|
                            0 <= i < u.srcs.len() && contribution(#[trigger] u.srcs[i].line)
                                == Some(bp));
                    }
                },
            }
        },
    }
}


/// Every union state has a non-negative measure.
proof fn lemma_measure_nonneg(u: UnionV)
    ensures
        measure(u) >= 0,
{
    lemma_meas_from_nonneg(u.srcs, 0);
}

/// One pull on the union, exactly as the engine computes it: nothing once
/// every source is spent; otherwise the row from the old cursor to the
/// next breakpoint, emitted when some source is active or empty spans are
/// reported within one sequence, else skipped and the search repeated.
pub open spec fn spec_next(u: UnionV) -> (Result<Option<RecV>, UnionErrV>, UnionV)
    decreases measure(u),
    via spec_next_dec
{
    match trans_of(u) {
        None => (Ok(None), u),
        Some(bp) => {
            let row = RecV {
                chrom: u.curr.chrom,
                start: u.curr.index,
                stop: bp.index,
                data: Some(crate::text::join_tab(row_cells(u.srcs, u.filler))),
            };
            match spec_advance(u, bp) {
                Err(e) => (Err(e), u),
                Ok(u2) => if has_active(u.srcs) || (u.report_empty && u.curr.chrom == bp.chrom) {
                    (Ok(Some(row)), u2)
                } else {
                    spec_next(u2)
                },
            }
        },
    }
}

#[via_fn]
proof fn spec_next_dec(u: UnionV) {
    lemma_measure_nonneg(u);
    match trans_of(u) {
        None => {},
        Some(bp) => {
            lemma_spec_advance_measure(u, bp);
        },
    }
}

/// A pull that emits a row shrinks the measure.
proof fn lemma_spec_next_measure(u: UnionV)
    ensures
        spec_next(u).0 matches Ok(o) ==> (o is Some ==> 0 <= measure(spec_next(u).1) < measure(
            u,
        )),
    decreases measure(u),
{
    lemma_measure_nonneg(u);
    match trans_of(u) {
        None => {},
        Some(bp) => {
            lemma_spec_advance_measure(u, bp);
            match spec_advance(u, bp) {
                Err(_) => {},
                Ok(u2) => {
                    if !(has_active(u.srcs) || (u.report_empty && u.curr.chrom == bp.chrom)) {
                        lemma_spec_next_measure(u2);
                    }
                },
            }
        },
    }
}

/// The whole merge from state `u` on: every emitted row in order, or the
/// first stream error.
pub open spec fn spec_run(u: UnionV) -> Result<Seq<RecV>, UnionErrV>
    decreases measure(u),
    via spec_run_dec
{
    match spec_next(u) {
        (Ok(None), _) => Ok(Seq::empty()),
        (Ok(Some(row)), u2) => match spec_run(u2) {
            Ok(rest) => Ok(seq![row] + rest),
            Err(e) => Err(e),
        },
        (Err(e), _) => Err(e),
    }
}

#[via_fn]
proof fn spec_run_dec(u: UnionV) {
    lemma_measure_nonneg(u);
    lemma_spec_next_measure(u);
}

spec fn with_srcs(u: UnionV, ss: Seq<SourceV>) -> UnionV {
    UnionV {
        srcs: ss,
        brecs: u.brecs,
        bline: u.bline,
        curr: u.curr,
        report_empty: u.report_empty,
        filler: u.filler,
    }
}

spec fn with_bound(u: UnionV, bl: LineV, br: Seq<RecV>) -> UnionV {
    UnionV {
        srcs: u.srcs,
        brecs: br,
        bline: bl,
        curr: u.curr,
        report_empty: u.report_empty,
        filler: u.filler,
    }
}


/// The sweep-line union over any number of record streams.
#[derive(Debug)]
pub struct BgUnion {
    pub sources: Vec<Source>,
    pub bound: Vec<BgLine>,
    pub bound_at: usize,
    pub bound_line: UnionLine,
    pub curr: ChromPos,
    pub config: UnionConfig,
}

impl View for BgUnion {
    type V = UnionV;

    open spec fn view(&self) -> UnionV {
        UnionV {
            srcs: self.sources.deep_view(),
            brecs: if self.bound_at <= self.bound@.len() {
                self.bound.deep_view().skip(self.bound_at as int)
            } else {
                Seq::empty()
            },
            bline: self.bound_line@,
            curr: self.curr@,
            report_empty: self.config.report_empty,
            filler: self.config.filler@,
        }
    }
}

impl BgUnion {
    /// The next breakpoint: the smallest position at which any source's
    /// standing changes; none once every source is spent.
    fn next_transition(&self) -> (r: Option<ChromPos>)
        ensures
            match trans_of(self@) {
                None => r is None,
                Some(m) => r matches Some(p) && p@ == m,
            },
    {
        let ghost ss = self@.srcs;
        let mut acc: Option<ChromPos> = None;
        let mut i: usize = 0;
        while i < self.sources.len()
            invariant
                i <= self.sources@.len(),
                ss == self.sources.deep_view(),
                ss.len() == self.sources@.len(),
                match min_contrib(ss.subrange(0, i as int)) {
                    None => acc is None,
                    Some(m) => acc matches Some(p) && p@ == m,
                },
            decreases self.sources@.len() - i,
        {
            proof {
                assert(ss.subrange(0, i + 1).drop_last() =~= ss.subrange(0, i as int));
                assert(ss.subrange(0, i + 1).last() == ss[i as int]);
                assert(ss[i as int] == self.sources@[i as int]@);
            }
            let c: Option<ChromPos> = match &self.sources[i].line {
                UnionLine::Done => None,
                UnionLine::In(l) => Some(l.coords.stop_pos()),
                UnionLine::Out(l) => Some(l.coords.start_pos()),
            };
            acc = match (acc, c) {
                (None, x) => x,
                (Some(p), None) => Some(p),
                (Some(p), Some(q)) => if q < p {
                    Some(q)
                } else {
                    Some(p)
                },
            };
            i = i + 1;
        }
        proof {
            assert(ss.subrange(0, ss.len() as int) =~= ss);
        }
        let bc: Option<ChromPos> = match &self.bound_line {
            UnionLine::Done => None,
            UnionLine::In(l) => Some(l.coords.stop_pos()),
            UnionLine::Out(l) => Some(l.coords.start_pos()),
        };
        match (acc, bc) {
            (None, x) => x,
            (Some(p), None) => Some(p),
            (Some(p), Some(q)) => if q < p {
                Some(q)
            } else {
                Some(p)
            },
        }
    }

    /// Is any source active at the cursor?
    fn has_in(&self) -> (r: bool)
        ensures
            r == has_active(self@.srcs),
    {
        let ghost ss = self@.srcs;
        let mut found: bool = false;
        let mut i: usize = 0;
        while i < self.sources.len()
            invariant
                i <= self.sources@.len(),
                ss == self.sources.deep_view(),
                ss.len() == self.sources@.len(),
                found <==> exists|j: int| 0 <= j < i && (#[trigger] ss[j].line) is In,
            decreases self.sources@.len() - i,
        {
            proof {
                assert(ss[i as int] == self.sources@[i as int]@);
            }
            match &self.sources[i].line {
                UnionLine::In(_) => {
                    found = true;
                    proof {
                        assert(ss[i as int].line is In);
                    }
                },
                _ => {},
            }
            i = i + 1;
        }
        found
    }

    /// One output column per source, in stable input order.
    fn build_cells(&self) -> (r: Vec<String>)
        ensures
            r.deep_view() == row_cells(self@.srcs, self@.filler),
    {
        let ghost ss = self@.srcs;
        let ghost filler = self@.filler;
        let mut cells: Vec<String> = Vec::new();
        let mut i: usize = 0;
        while i < self.sources.len()
            invariant
                i <= self.sources@.len(),
                ss == self.sources.deep_view(),
                filler == self.config.filler@,
                ss.len() == self.sources@.len(),
                cells.deep_view() =~= row_cells(ss, filler).subrange(0, i as int),
            decreases self.sources@.len() - i,
        {
            proof {
                assert(ss[i as int] == self.sources@[i as int]@);
            }
            let ghost old_dv = cells.deep_view();
            let cell: String = match &self.sources[i].line {
                UnionLine::In(l) => match &l.data {
                    Some(d) => d.clone(),
                    None => self.config.filler.clone(),
                },
                _ => self.config.filler.clone(),
            };
            cells.push(cell);
            proof {
                assert(cells.deep_view() =~= old_dv.push(cell_of(ss[i as int].line, filler)));
                assert(cells.deep_view() =~= row_cells(ss, filler).subrange(0, i + 1));
            }
            i = i + 1;
        }
        proof {
            assert(row_cells(ss, filler).subrange(0, ss.len() as int) =~= row_cells(ss, filler));
        }
        cells
    }

    /// Advance every record stream to the breakpoint, in input order.
    fn advance_lines(&mut self, curr: &ChromPos) -> (r: Result<(), UnionError>)
        ensures
            match adv_all(old(self)@.srcs, curr@, 0) {
                Ok(ss2) => r matches Ok(_) && final(self)@ == with_srcs(old(self)@, ss2),
                Err(e) => r matches Err(x) && x@ == e,
            },
    {
        let ghost u0 = self@;
        let n = self.sources.len();
        let mut i: usize = 0;
        while i < n
            invariant
                u0 == old(self)@,
                i <= n,
                n == self.sources@.len(),
                self@.srcs.len() == n,
                u0.srcs.len() == n,
                self@.brecs == u0.brecs,
                self@.bline == u0.bline,
                self@.curr == u0.curr,
                self@.report_empty == u0.report_empty,
                self@.filler == u0.filler,
                adv_all(u0.srcs, curr@, 0) == adv_all(self@.srcs, curr@, i as int),
            decreases n - i,
        {
            let ghost pre = self@.srcs;
            proof {
                assert(pre[i as int] == self.sources@[i as int]@);
            }
            let st = self.sources[i].line.clone();
            proof {
                match pre[i as int].line {
                    LineV::In { rec } => {
                        lemma_pos_not_lt(curr@, rec_stop(rec));
                    },
                    _ => {},
                }
            }
            match st {
                UnionLine::Done => {
                    proof {
                        assert(adv_src(pre[i as int], curr@) == Ok::<SourceV, LineErrV>(
                            pre[i as int],
                        ));
                        assert(pre.update(i as int, pre[i as int]) =~= pre);
                    }
                },
                UnionLine::Out(l) => {
                    if !l.starts_after(curr) {
                        self.sources[i].line = UnionLine::In(l);
                        proof {
                            assert(self@.srcs =~= pre.update(
                                i as int,
                                SourceV {
                                    line: LineV::In { rec: l@ },
                                    src: pre[i as int].src,
                                },
                            ));
                        }
                    } else {
                        proof {
                            assert(pre.update(i as int, pre[i as int]) =~= pre);
                        }
                    }
                },
                UnionLine::In(l) => {
                    if l.ends_before(curr) {
                        let ghost s0 = pre[i as int].src;
                        let pulled = self.sources[i].reader.next();
                        proof {
                            assert(self.sources@[i as int]@.src == src_next(s0).1);
                        }
                        match pulled {
                            Ok(Some(nl)) => {
                                if nl.starts_after(curr) {
                                    self.sources[i].line = UnionLine::Out(nl);
                                } else {
                                    self.sources[i].line = UnionLine::In(nl);
                                }
                                proof {
                                    let sv2 = SourceV {
                                        line: classify(nl@, curr@),
                                        src: src_next(s0).1,
                                    };
                                    assert(adv_src(pre[i as int], curr@) == Ok::<
                                        SourceV,
                                        LineErrV,
                                    >(sv2));
                                    assert(self@.srcs =~= pre.update(i as int, sv2));
                                }
                            },
                            Ok(None) => {
                                self.sources[i].line = UnionLine::Done;
                                proof {
                                    let sv2 = SourceV { line: LineV::Done, src: src_next(s0).1 };
                                    assert(adv_src(pre[i as int], curr@) == Ok::<
                                        SourceV,
                                        LineErrV,
                                    >(sv2));
                                    assert(self@.srcs =~= pre.update(i as int, sv2));
                                }
                            },
                            Err(e) => {
                                self.sources[i].line = UnionLine::Done;
                                proof {
                                    assert(src_next(s0).0 matches Err(ev) && ev == e@);
                                    assert(adv_all(pre, curr@, i as int) matches Err(ue) && ue
                                        == UnionErrV {
                                        source: i as int,
                                        lineno: e@.lineno,
                                        error: e@.error,
                                    });
                                }
                                return Err(
                                    UnionError { source: i, lineno: e.lineno, error: e.error },
                                );
                            },
                        }
                    } else {
                        proof {
                            assert(pre.update(i as int, pre[i as int]) =~= pre);
                        }
                    }
                },
            }
            i = i + 1;
        }
        proof {
            assert(adv_all(self@.srcs, curr@, n as int) == Ok::<Seq<SourceV>, UnionErrV>(
                self@.srcs,
            ));
        }
        Ok(())
    }

    /// Advance the boundary source to the breakpoint.
    fn advance_bound(&mut self, curr: &ChromPos)
        ensures
            ({
                let (bl2, br2) = adv_bound(old(self)@.bline, old(self)@.brecs, curr@);
                final(self)@ == with_bound(old(self)@, bl2, br2)
            }),
    {
        let ghost u0 = self@;
        proof {
            match u0.bline {
                LineV::In { rec } => {
                    lemma_pos_not_lt(curr@, rec_stop(rec));
                },
                _ => {},
            }
        }
        let st = self.bound_line.clone();
        match st {
            UnionLine::Done => {},
            UnionLine::Out(l) => {
                if !l.starts_after(curr) {
                    self.bound_line = UnionLine::In(l);
                }
            },
            UnionLine::In(l) => {
                if l.ends_before(curr) {
                    if self.bound_at >= self.bound.len() {
                        self.bound_line = UnionLine::Done;
                        proof {
                            assert(u0.brecs.len() == 0);
                        }
                    } else {
                        proof {
                            assert(u0.brecs[0] == self.bound.deep_view()[self.bound_at as int]);
                            assert(self.bound.deep_view()[self.bound_at as int] == self.bound@[
                                self.bound_at as int]@);
                        }
                        let nl = self.bound[self.bound_at].clone();
                        self.bound_at = self.bound_at + 1;
                        if nl.starts_after(curr) {
                            self.bound_line = UnionLine::Out(nl);
                        } else {
                            self.bound_line = UnionLine::In(nl);
                        }
                        proof {
                            assert(u0.brecs[0] == nl@);
                            assert(self@.brecs =~= u0.brecs.drop_first());
                        }
                    }
                }
            },
        }
    }
}


/// The first record of each stream pulled in input order: a pending
/// standing when the stream has a record, spent when it is already empty;
/// the first parse failure wins.
pub open spec fn init_pull(rs: Seq<SrcV>, i: int) -> Result<Seq<SourceV>, UnionErrV>
    decreases rs.len() - i,
{
    if !(0 <= i < rs.len()) {
        Ok(Seq::empty())
    } else {
        match src_next(rs[i]) {
            (Ok(None), s2) => match init_pull(rs, i + 1) {
                Ok(rest) => Ok(seq![SourceV { line: LineV::Done, src: s2 }] + rest),
                Err(e) => Err(e),
            },
            (Ok(Some(r)), s2) => match init_pull(rs, i + 1) {
                Ok(rest) => Ok(seq![SourceV { line: LineV::Out { rec: r }, src: s2 }] + rest),
                Err(e) => Err(e),
            },
            (Err(e), s2) => Err(UnionErrV { source: i, lineno: e.lineno, error: e.error }),
        }
    }
}

/// The boundary records synthesized from a genome table: one record
/// spanning each sequence whole, in table order, carrying no value.
pub open spec fn bound_recs(entries: Seq<(Seq<char>, int)>) -> Seq<RecV> {
    Seq::new(entries.len(), |i: int| RecV {
        chrom: entries[i].0,
        start: 0,
        stop: entries[i].1,
        data: None,
    })
}

/// A freshly constructed union: one record pulled from each stream, the
/// boundary source built from the genome table when empty reporting is on,
/// and the cursor derived as the smallest position any source names.
pub open spec fn spec_init(
    rs: Seq<SrcV>,
    genome: Option<Seq<(Seq<char>, int)>>,
    report_empty: bool,
    filler: Seq<char>,
) -> Result<UnionV, UnionErrV> {
    match init_pull(rs, 0) {
        Err(e) => Err(e),
        Ok(ss) => {
            let brs = match genome {
                Some(es) => if report_empty {
                    bound_recs(es)
                } else {
                    Seq::empty()
                },
                None => Seq::empty(),
            };
            let bl0 = if brs.len() == 0 {
                LineV::Done
            } else {
                LineV::Out { rec: brs[0] }
            };
            let br0 = if brs.len() == 0 {
                brs
            } else {
                brs.drop_first()
            };
            let pre = UnionV {
                srcs: ss,
                brecs: br0,
                bline: bl0,
                curr: PosV { chrom: Seq::empty(), index: 0 },
                report_empty,
                filler,
            };
            match trans_of(pre) {
                None => Ok(pre),
                Some(m) => spec_advance(pre, m),
            }
        },
    }
}

impl BgUnion {
    /// One pull on the union, exactly as `spec_next` describes: the next
    /// merged row, `Ok(None)` once every source is spent, or the first
    /// stream error.
    pub fn next(&mut self) -> (r: Result<Option<BgLine>, UnionError>)
        ensures
            ({
                let (sr, u2) = spec_next(old(self)@);
                match sr {
                    Ok(ro) => r matches Ok(o) && final(self)@ == u2 && (match ro {
                        Some(v) => o matches Some(l) && l@ == v,
                        None => o is None,
                    }),
                    Err(e) => r matches Err(x) && x@ == e,
                }
            }),
    {
        let ghost u0 = self@;
        loop
            invariant
                u0 == old(self)@,
                spec_next(u0) == spec_next(self@),
            decreases measure(self@),
        {
            let ghost upre = self@;
            let m = self.next_transition();
            let bp = match m {
                None => {
                    return Ok(None);
                },
                Some(p) => p,
            };
            let ghost bpv = bp@;
            let has_in = self.has_in();
            let cells = self.build_cells();
            proof {
                assert(cells.deep_view().skip(0) =~= cells.deep_view());
            }
            let data = join_tab_from(&cells, 0);
            let seg = ChromSeg {
                chrom: self.curr.chrom.clone(),
                start: self.curr.index,
                stop: bp.index,
            };
            let line = BgLine { coords: seg, data: Some(data) };
            let sc = match str_three_way(self.curr.chrom.as_str(), bp.chrom.as_str()) {
                Ordering::Equal => true,
                _ => false,
            };
            proof {
                lemma_str_cmp_eq(upre.curr.chrom, bpv.chrom);
            }
            match self.advance_lines(&bp) {
                Err(e) => {
                    return Err(e);
                },
                Ok(_) => {},
            }
            self.advance_bound(&bp);
            self.curr = bp;
            proof {
                match spec_advance(upre, bpv) {
                    Ok(u2) => {
                        assert(self@ == u2);
                    },
                    Err(_) => {},
                }
                lemma_spec_advance_measure(upre, bpv);
            }
            if has_in || (self.config.report_empty && sc) {
                return Ok(Some(line));
            }
            proof {
                assert(spec_next(upre) == spec_next(self@));
            }
        }
    }

    /// A union over the given streams with the given configuration,
    /// exactly as `spec_init` describes.
    pub fn with_config(readers: Vec<BgIterator>, config: UnionConfig) -> (r: Result<
        BgUnion,
        UnionError,
    >)
        ensures
            ({
                let ges = match config.genome {
                    Some(g) => Some(g@.entries),
                    None => None::<Seq<(Seq<char>, int)>>,
                };
                match spec_init(readers.deep_view(), ges, config.report_empty, config.filler@) {
                    Ok(u) => r matches Ok(b) && b@ == u,
                    Err(e) => r matches Err(x) && x@ == e,
                }
            }),
    {
        let ghost rs0 = readers.deep_view();
        let n = readers.len();
        let mut rdrs = readers;
        let mut sources: Vec<Source> = Vec::new();
        let mut i: usize = 0;
        while i < n
            invariant
                rs0 == readers.deep_view(),
                i <= n,
                rs0.len() == n,
                rdrs@.len() == n - i,
                rdrs.deep_view() =~= rs0.subrange(i as int, n as int),
                sources@.len() == i,
                init_pull(rs0, 0) is Ok <==> init_pull(rs0, i as int) is Ok,
                (init_pull(rs0, i as int) matches Err(e) ==> init_pull(rs0, 0) == Err::<
                    Seq<SourceV>,
                    UnionErrV,
                >(e)),
                (init_pull(rs0, i as int) matches Ok(rest) ==> init_pull(rs0, 0) == Ok::<
                    Seq<SourceV>,
                    UnionErrV,
                >(sources.deep_view() + rest)),
            decreases n - i,
        {
            proof {
                assert(rdrs.deep_view()[0] == rs0[i as int]);
                assert(rdrs.deep_view()[0] == rdrs@[0]@);
            }
            let ghost prev = rdrs@;
            let mut rdr = rdrs.remove(0);
            proof {
                assert forall|j: int| 0 <= j < rdrs@.len() implies rdrs.deep_view()[j] == rs0[i + 1
                    + j] by {
                    assert(rdrs.deep_view()[j] == rdrs@[j]@);
                    assert(rdrs@[j] == prev[j + 1]);
                    assert(prev[j + 1]@ == rs0.subrange(i as int, n as int)[j + 1]);
                }
                assert(rdrs.deep_view() =~= rs0.subrange(i + 1, n as int));
            }
            let pulled = rdr.next();
            let ghost old_sv = sources.deep_view();
            match pulled {
                Ok(Some(l)) => {
                    sources.push(Source { reader: rdr, line: UnionLine::Out(l) });
                },
                Ok(None) => {
                    sources.push(Source { reader: rdr, line: UnionLine::Done });
                },
                Err(e) => {
                    return Err(UnionError { source: i, lineno: e.lineno, error: e.error });
                },
            }
            proof {
                let sv = sources.deep_view()[i as int];
                assert(sources.deep_view() =~= old_sv.push(sv));
                match init_pull(rs0, i + 1) {
                    Ok(rest) => {
                        assert(old_sv + (seq![sv] + rest) =~= sources.deep_view() + rest);
                    },
                    Err(_) => {},
                }
            }
            i = i + 1;
        }
        proof {
            assert(init_pull(rs0, n as int) == Ok::<Seq<SourceV>, UnionErrV>(Seq::empty()));
            assert(sources.deep_view() + Seq::<SourceV>::empty() =~= sources.deep_view());
        }
        let mut bound: Vec<BgLine> = Vec::new();
        if config.report_empty {
            match &config.genome {
                Some(g) => {
                    let m = g.count();
                    let mut k: usize = 0;
                    while k < m
                        invariant
                            k <= m,
                            m == g@.entries.len(),
                            bound.deep_view() =~= bound_recs(g@.entries).subrange(0, k as int),
                        decreases m - k,
                    {
                        let ghost old_bv = bound.deep_view();
                        let pair = g.pair(k);
                        bound.push(
                            BgLine {
                                coords: ChromSeg { chrom: pair.0, start: 0, stop: pair.1 },
                                data: None,
                            },
                        );
                        proof {
                            assert(bound.deep_view() =~= old_bv.push(
                                bound_recs(g@.entries)[k as int],
                            ));
                            assert(bound.deep_view() =~= bound_recs(g@.entries).subrange(
                                0,
                                k + 1,
                            ));
                        }
                        k = k + 1;
                    }
                    proof {
                        assert(bound_recs(g@.entries).subrange(
                            0,
                            bound_recs(g@.entries).len() as int,
                        ) =~= bound_recs(g@.entries));
                    }
                },
                None => {},
            }
        }
        proof {
            if !(config.report_empty && config.genome is Some) {
                assert(bound.deep_view() =~= Seq::<RecV>::empty());
            }
        }
        let ghost brs = bound.deep_view();
        let ghost ges = match &config.genome {
            Some(g) => Some(g@.entries),
            None => None::<Seq<(Seq<char>, int)>>,
        };
        proof {
            assert(brs == (match ges {
                Some(es) => if config.report_empty {
                    bound_recs(es)
                } else {
                    Seq::<RecV>::empty()
                },
                None => Seq::<RecV>::empty(),
            }));
        }
        let has_bound = bound.len() > 0;
        let bound_line: UnionLine = if has_bound {
            UnionLine::Out(bound[0].clone())
        } else {
            UnionLine::Done
        };
        let bound_at: usize = if has_bound {
            1
        } else {
            0
        };
        let mut eng = BgUnion {
            sources,
            bound,
            bound_at,
            bound_line,
            curr: ChromPos { chrom: String::new(), index: 0 },
            config,
        };
        proof {
            if has_bound {
                assert(eng@.brecs =~= brs.drop_first());
            } else {
                assert(eng@.brecs =~= brs);
            }
            assert(eng@.srcs == (match init_pull(rs0, 0) {
                Ok(ss) => ss,
                Err(_) => eng@.srcs,
            }));
            assert(eng@.curr == PosV { chrom: Seq::<char>::empty(), index: 0 });
            assert(eng@.bline == (if brs.len() == 0 {
                LineV::Done
            } else {
                LineV::Out { rec: brs[0] }
            }));
        }
        let ghost pre = eng@;
        proof {
            assert(spec_init(rs0, ges, config.report_empty, config.filler@) == (match trans_of(
                pre,
            ) {
                None => Ok::<UnionV, UnionErrV>(pre),
                Some(m) => spec_advance(pre, m),
            }));
        }
        let m = eng.next_transition();
        match m {
            None => Ok(eng),
            Some(p) => {
                let ghost pv = p@;
                match eng.advance_lines(&p) {
                    Err(e) => Err(e),
                    Ok(_) => {
                        eng.advance_bound(&p);
                        eng.curr = p;
                        proof {
                            match spec_advance(pre, pv) {
                                Ok(u2) => {
                                    assert(eng@ == u2);
                                },
                                Err(_) => {},
                            }
                        }
                        Ok(eng)
                    },
                }
            },
        }
    }

    /// A union over the given streams with the default configuration:
    /// empty spans not reported, filler `"0"`, no genome table.
    pub fn new(readers: Vec<BgIterator>) -> (r: Result<BgUnion, UnionError>)
        ensures
            match spec_init(readers.deep_view(), None, false, seq!['0']) {
                Ok(u) => r matches Ok(b) && b@ == u,
                Err(e) => r matches Err(x) && x@ == e,
            },
    {
        let filler = String::from_str("0");
        proof {
            reveal_strlit("0");
            assert(filler@ =~= seq!['0']);
        }
        let config = UnionConfig { report_empty: false, filler, genome: None };
        BgUnion::with_config(readers, config)
    }
}

/// Run a whole merge: construct the union and collect every emitted row,
/// exactly as `spec_init` and `spec_run` describe.
pub fn run_union(readers: Vec<BgIterator>, config: UnionConfig) -> (r: Result<
    Vec<BgLine>,
    UnionError,
>)
    ensures
        ({
            let ges = match config.genome {
                Some(g) => Some(g@.entries),
                None => None::<Seq<(Seq<char>, int)>>,
            };
            match spec_init(readers.deep_view(), ges, config.report_empty, config.filler@) {
                Err(e) => r matches Err(x) && x@ == e,
                Ok(u0) => match spec_run(u0) {
                    Ok(rows) => r matches Ok(v) && v.deep_view() == rows,
                    Err(e) => r matches Err(x) && x@ == e,
                },
            }
        }),
{
    let mut eng = match BgUnion::with_config(readers, config) {
        Err(e) => {
            return Err(e);
        },
        Ok(b) => b,
    };
    let ghost u0 = eng@;
    let mut out: Vec<BgLine> = Vec::new();
    loop
        invariant
            ({
                let ges = match config.genome {
                    Some(g) => Some(g@.entries),
                    None => None::<Seq<(Seq<char>, int)>>,
                };
                spec_init(readers.deep_view(), ges, config.report_empty, config.filler@) == Ok::<
                    UnionV,
                    UnionErrV,
                >(u0)
            }),
            spec_run(u0) is Ok <==> spec_run(eng@) is Ok,
            (spec_run(eng@) matches Err(e) ==> spec_run(u0) == Err::<Seq<RecV>, UnionErrV>(e)),
            (spec_run(eng@) matches Ok(rest) ==> spec_run(u0) == Ok::<Seq<RecV>, UnionErrV>(
                out.deep_view() + rest,
            )),
        decreases measure(eng@),
    {
        let ghost upre = eng@;
        proof {
            lemma_spec_next_measure(upre);
        }
        match eng.next() {
            Err(e) => {
                return Err(e);
            },
            Ok(None) => {
                proof {
                    assert(out.deep_view() + Seq::<RecV>::empty() =~= out.deep_view());
                }
                return Ok(out);
            },
            Ok(Some(l)) => {
                let ghost old_ov = out.deep_view();
                out.push(l);
                proof {
                    assert(out.deep_view() =~= old_ov.push(l@));
                    match spec_run(eng@) {
                        Ok(rest2) => {
                            assert(old_ov + (seq![l@] + rest2) =~= out.deep_view() + rest2);
                        },
                        Err(_) => {},
                    }
                }
            },
        }
    }
}


/// A record that covers something: it ends strictly after it begins.
pub open spec fn rec_ok(r: RecV) -> bool {
    r.start < r.stop
}

/// The record's two boundaries in order.
proof fn lemma_rec_ok_pos(r: RecV)
    requires
        rec_ok(r),
    ensures
        pos_lt(rec_start(r), rec_stop(r)),
{
    lemma_pos_lt_same_chrom(rec_start(r), rec_stop(r));
}

/// A record spanning the cursor lies on the cursor's sequence.
proof fn lemma_span_same_chrom(r: RecV, curr: PosV)
    requires
        pos_le(rec_start(r), curr),
        pos_lt(curr, rec_stop(r)),
    ensures
        r.chrom == curr.chrom,
{
    crate::chrom_geo::lemma_pos_between_chrom(rec_start(r), curr, rec_stop(r));
}

/// The unread lines of a stream are sorted and non-overlapping, each
/// record beginning at or after `p`; lines past the first unparsable one
/// are never read and are unconstrained.
pub open spec fn src_sorted_from(p: PosV, rem: Seq<Seq<char>>) -> bool
    decreases rem.len(),
{
    if rem.len() == 0 {
        true
    } else {
        match parse_line(rem[0]) {
            Err(_) => true,
            Ok(r) => rec_ok(r) && pos_le(p, rec_start(r)) && src_sorted_from(
                rec_stop(r),
                rem.drop_first(),
            ),
        }
    }
}

/// A whole stream is sorted: its records are non-empty, ordered and
/// non-overlapping, the first unconstrained below.
pub open spec fn stream_sorted(rem: Seq<Seq<char>>) -> bool {
    rem.len() == 0 || (match parse_line(rem[0]) {
        Err(_) => true,
        Ok(r) => rec_ok(r) && src_sorted_from(rec_stop(r), rem.drop_first()),
    })
}

/// Sorted, non-overlapping, non-empty records beginning at or after `p`.
pub open spec fn recs_sorted_from(p: PosV, recs: Seq<RecV>) -> bool
    decreases recs.len(),
{
    if recs.len() == 0 {
        true
    } else {
        rec_ok(recs[0]) && pos_le(p, rec_start(recs[0])) && recs_sorted_from(
            rec_stop(recs[0]),
            recs.drop_first(),
        )
    }
}

/// A whole record sequence is sorted, its first record unconstrained below.
pub open spec fn recs_sorted(recs: Seq<RecV>) -> bool {
    recs.len() == 0 || (rec_ok(recs[0]) && recs_sorted_from(rec_stop(recs[0]), recs.drop_first()))
}

/// One reader source in good standing relative to the cursor: a spent
/// source has no lines left; a pending record lies strictly ahead; an
/// active record spans the cursor; and the unread lines stay sorted after
/// the current record.
pub open spec fn line_wf(l: LineV, curr: PosV, rem: Seq<Seq<char>>) -> bool {
    match l {
        LineV::Done => rem.len() == 0,
        LineV::Out { rec } => rec_ok(rec) && pos_lt(curr, rec_start(rec)) && src_sorted_from(
            rec_stop(rec),
            rem,
        ),
        LineV::In { rec } => rec_ok(rec) && pos_le(rec_start(rec), curr) && pos_lt(
            curr,
            rec_stop(rec),
        ) && src_sorted_from(rec_stop(rec), rem),
    }
}

/// The boundary source in good standing, over records instead of lines.
pub open spec fn bline_wf(l: LineV, curr: PosV, brecs: Seq<RecV>) -> bool {
    match l {
        LineV::Done => brecs.len() == 0,
        LineV::Out { rec } => rec_ok(rec) && pos_lt(curr, rec_start(rec)) && recs_sorted_from(
            rec_stop(rec),
            brecs,
        ),
        LineV::In { rec } => rec_ok(rec) && pos_le(rec_start(rec), curr) && pos_lt(
            curr,
            rec_stop(rec),
        ) && recs_sorted_from(rec_stop(rec), brecs),
    }
}

/// The whole union in good standing: every source and the boundary.
pub open spec fn union_wf(u: UnionV) -> bool {
    &&& (forall|i: int|
        0 <= i < u.srcs.len() ==> line_wf(
            (#[trigger] u.srcs[i]).line,
            u.curr,
            u.srcs[i].src.rem,
        ))
    &&& bline_wf(u.bline, u.curr, u.brecs)
}

/// The breakpoint bounds every contribution from below.
proof fn lemma_trans_lb(u: UnionV, bp: PosV)
    requires
        trans_of(u) == Some(bp),
    ensures
        forall|i: int|
            0 <= i < u.srcs.len() ==> (contribution((#[trigger] u.srcs[i]).line) matches Some(p)
                ==> pos_le(bp, p)),
        contribution(u.bline) matches Some(p) ==> pos_le(bp, p),
{
    lemma_min_contrib(u.srcs);
    match (min_contrib(u.srcs), contribution(u.bline)) {
        (None, None) => {},
        (None, Some(q)) => {
            lemma_pos_not_lt(q, q);
        },
        (Some(p), None) => {
            lemma_pos_not_lt(p, p);
        },
        (Some(p), Some(q)) => {
            lemma_pos_not_lt(q, p);
            lemma_pos_cmp_eq(p, p);
            lemma_pos_cmp_eq(q, q);
            assert(pos_le(bp, p));
            assert(pos_le(bp, q));
            assert forall|i: int| 0 <= i < u.srcs.len() implies (contribution(
                (#[trigger] u.srcs[i]).line,
            ) matches Some(pp) ==> pos_le(bp, pp)) by {
                match contribution(u.srcs[i].line) {
                    Some(pp) => {
                        lemma_pos_le_trans(bp, p, pp);
                    },
                    None => {},
                }
            }
        },
    }
}

/// In a well-formed union the breakpoint lies strictly past the cursor.
proof fn lemma_trans_gt_curr(u: UnionV, bp: PosV)
    requires
        union_wf(u),
        trans_of(u) == Some(bp),
    ensures
        pos_lt(u.curr, bp),
{
    lemma_min_contrib(u.srcs);
    match (min_contrib(u.srcs), contribution(u.bline)) {
        (None, None) => {},
        (None, Some(q)) => {
            lemma_contribution_gt_curr_b(u.bline, u.curr, u.brecs);
        },
        (Some(p), None) => {
            let i = choose|i: int|
                0 <= i < u.srcs.len() && contribution(#[trigger] u.srcs[i].line) == Some(p);
            lemma_contribution_gt_curr(u.srcs[i].line, u.curr, u.srcs[i].src.rem);
        },
        (Some(p), Some(q)) => {
            let i = choose|i: int|
                0 <= i < u.srcs.len() && contribution(#[trigger] u.srcs[i].line) == Some(p);
            lemma_contribution_gt_curr(u.srcs[i].line, u.curr, u.srcs[i].src.rem);
            lemma_contribution_gt_curr_b(u.bline, u.curr, u.brecs);
        },
    }
}

/// A well-formed source's contribution lies strictly past the cursor.
proof fn lemma_contribution_gt_curr(l: LineV, curr: PosV, rem: Seq<Seq<char>>)
    requires
        line_wf(l, curr, rem),
    ensures
        contribution(l) matches Some(p) ==> pos_lt(curr, p),
{
}

proof fn lemma_contribution_gt_curr_b(l: LineV, curr: PosV, brecs: Seq<RecV>)
    requires
        bline_wf(l, curr, brecs),
    ensures
        contribution(l) matches Some(p) ==> pos_lt(curr, p),
{
}

/// What `adv_all` does index by index.
proof fn lemma_adv_all_elts(ss: Seq<SourceV>, bp: PosV, i: int)
    requires
        0 <= i,
    ensures
        adv_all(ss, bp, i) matches Ok(ss2) ==> {
            &&& ss2.len() == ss.len()
            &&& (forall|j: int| 0 <= j < i && j < ss.len() ==> ss2[j] == ss[j])
            &&& (forall|j: int|
                i <= j < ss.len() ==> (adv_src(#[trigger] ss[j], bp) matches Ok(x) && ss2[j]
                    == x))
        },
    decreases ss.len() - i,
{
    if 0 <= i < ss.len() {
        match adv_src(ss[i], bp) {
            Err(_) => {},
            Ok(sv2) => {
                let upd = ss.update(i, sv2);
                lemma_adv_all_elts(upd, bp, i + 1);
                match adv_all(upd, bp, i + 1) {
                    Err(_) => {},
                    Ok(ss2) => {
                        assert forall|j: int| i <= j < ss.len() implies (adv_src(
                            #[trigger] ss[j],
                            bp,
                        ) matches Ok(x) && ss2[j] == x) by {
                            if j == i {
                                assert(ss2[i] == upd[i]);
                            } else {
                                assert(upd[j] == ss[j]);
                                assert(adv_src(upd[j], bp) matches Ok(x) && ss2[j] == x);
                            }
                        }
                    },
                }
            },
        }
    }
}

/// One source stays well formed across an advance to the breakpoint.
proof fn lemma_adv_src_wf(sv: SourceV, curr: PosV, bp: PosV)
    requires
        line_wf(sv.line, curr, sv.src.rem),
        pos_lt(curr, bp),
        contribution(sv.line) matches Some(p) ==> pos_le(bp, p),
    ensures
        adv_src(sv, bp) matches Ok(sv2) ==> line_wf(sv2.line, bp, sv2.src.rem),
{
    match sv.line {
        LineV::Done => {},
        LineV::Out { rec } => {
            if !pos_lt(bp, rec_start(rec)) {
                lemma_pos_not_lt(bp, rec_start(rec));
                lemma_pos_le_antisym(bp, rec_start(rec));
                lemma_rec_ok_pos(rec);
            }
        },
        LineV::In { rec } => {
            if pos_lt(bp, rec_stop(rec)) {
                lemma_pos_le_trans(rec_start(rec), curr, bp);
            } else {
                lemma_pos_not_lt(bp, rec_stop(rec));
                lemma_pos_le_antisym(bp, rec_stop(rec));
                if sv.src.rem.len() > 0 {
                    match parse_line(sv.src.rem[0]) {
                        Err(_) => {},
                        Ok(r2) => {
                            if !pos_lt(bp, rec_start(r2)) {
                                lemma_pos_not_lt(bp, rec_start(r2));
                                lemma_pos_le_antisym(bp, rec_start(r2));
                                lemma_rec_ok_pos(r2);
                            }
                        },
                    }
                }
            }
        },
    }
}

/// The boundary source stays well formed across an advance.
proof fn lemma_adv_bound_wf(bl: LineV, brecs: Seq<RecV>, curr: PosV, bp: PosV)
    requires
        bline_wf(bl, curr, brecs),
        pos_lt(curr, bp),
        contribution(bl) matches Some(p) ==> pos_le(bp, p),
    ensures
        ({
            let (bl2, br2) = adv_bound(bl, brecs, bp);
            bline_wf(bl2, bp, br2)
        }),
{
    match bl {
        LineV::Done => {},
        LineV::Out { rec } => {
            if !pos_lt(bp, rec_start(rec)) {
                lemma_pos_not_lt(bp, rec_start(rec));
                lemma_pos_le_antisym(bp, rec_start(rec));
                lemma_rec_ok_pos(rec);
            }
        },
        LineV::In { rec } => {
            if pos_lt(bp, rec_stop(rec)) {
                lemma_pos_le_trans(rec_start(rec), curr, bp);
            } else {
                lemma_pos_not_lt(bp, rec_stop(rec));
                lemma_pos_le_antisym(bp, rec_stop(rec));
                if brecs.len() > 0 {
                    let r2 = brecs[0];
                    if !pos_lt(bp, rec_start(r2)) {
                        lemma_pos_not_lt(bp, rec_start(r2));
                        lemma_pos_le_antisym(bp, rec_start(r2));
                        lemma_rec_ok_pos(r2);
                    }
                }
            }
        },
    }
}

/// A well-formed union stays well formed when advanced to its breakpoint.
proof fn lemma_advance_wf(u: UnionV, bp: PosV)
    requires
        union_wf(u),
        trans_of(u) == Some(bp),
    ensures
        spec_advance(u, bp) matches Ok(u2) ==> union_wf(u2) && u2.curr == bp && u2.report_empty
            == u.report_empty && u2.filler == u.filler,
{
    lemma_trans_lb(u, bp);
    lemma_trans_gt_curr(u, bp);
    lemma_adv_all_elts(u.srcs, bp, 0);
    match adv_all(u.srcs, bp, 0) {
        Err(_) => {},
        Ok(ss2) => {
            assert forall|i: int| 0 <= i < ss2.len() implies line_wf(
                (#[trigger] ss2[i]).line,
                bp,
                ss2[i].src.rem,
            ) by {
                assert(adv_src(u.srcs[i], bp) matches Ok(x) && ss2[i] == x);
                lemma_adv_src_wf(u.srcs[i], u.curr, bp);
            }
            lemma_adv_bound_wf(u.bline, u.brecs, u.curr, bp);
        },
    }
}


/// One pull on a well-formed union: an emitted row covers something, lies
/// at or past the old cursor, leaves the cursor at its upper boundary, and
/// keeps the union well formed.
proof fn lemma_spec_next_wf(u: UnionV)
    requires
        union_wf(u),
    ensures
        ({
            let (sr, u2) = spec_next(u);
            match sr {
                Ok(ro) => match ro {
                    Some(row) => union_wf(u2) && rec_ok(row) && pos_le(u.curr, rec_start(row))
                        && u2.curr == rec_stop(row) && u2.report_empty == u.report_empty
                        && u2.filler == u.filler && (u.report_empty ==> (rec_start(row) == u.curr
                        || rec_start(row).chrom != u.curr.chrom)),
                    None => true,
                },
                Err(_) => true,
            }
        }),
    decreases measure(u),
{
    lemma_measure_nonneg(u);
    match trans_of(u) {
        None => {},
        Some(bp) => {
            lemma_trans_gt_curr(u, bp);
            lemma_trans_lb(u, bp);
            lemma_advance_wf(u, bp);
            lemma_spec_advance_measure(u, bp);
            match spec_advance(u, bp) {
                Err(_) => {},
                Ok(u2) => {
                    if has_active(u.srcs) || (u.report_empty && u.curr.chrom == bp.chrom) {
                        if has_active(u.srcs) {
                            let i = choose|i: int|
                                0 <= i < u.srcs.len() && u.srcs[i].line is In;
                            match u.srcs[i].line {
                                LineV::In { rec } => {
                                    lemma_span_same_chrom(rec, u.curr);
                                    crate::chrom_geo::lemma_pos_le_alt(bp, rec_stop(rec));
                                    if pos_lt(bp, rec_stop(rec)) {
                                        lemma_pos_between_chrom(u.curr, bp, rec_stop(rec));
                                    }
                                },
                                _ => {},
                            }
                        }
                        assert(u.curr.chrom == bp.chrom);
                        lemma_pos_lt_same_chrom(u.curr, bp);
                        lemma_pos_cmp_eq(u.curr, u.curr);
                        let row = RecV {
                            chrom: u.curr.chrom,
                            start: u.curr.index,
                            stop: bp.index,
                            data: Some(crate::text::join_tab(row_cells(u.srcs, u.filler))),
                        };
                        assert(rec_start(row) == u.curr);
                        assert(rec_stop(row) == bp);
                        assert(spec_next(u) == (Ok::<Option<RecV>, UnionErrV>(Some(row)), u2));
                        assert(rec_ok(row));
                        assert(pos_le(u.curr, rec_start(row)));
                        assert(union_wf(u2));
                        assert(u2.curr == rec_stop(row));
                    } else {
                        lemma_spec_next_wf(u2);
                        assert(spec_next(u) == spec_next(u2));
                        match spec_next(u2) {
                            (Ok(Some(row)), _) => {
                                lemma_pos_le_trans(u.curr, u2.curr, rec_start(row));
                                assert(pos_le(u.curr, rec_start(row)));
                                if u.report_empty {
                                    assert(bp.chrom != u.curr.chrom);
                                    crate::chrom_geo::lemma_pos_le_alt(bp, rec_start(row));
                                    if rec_start(row) == bp {
                                        assert(rec_start(row).chrom != u.curr.chrom);
                                    } else if pos_lt(bp, rec_start(row)) {
                                        if rec_start(row).chrom == u.curr.chrom {
                                            lemma_pos_between_chrom(u.curr, bp, rec_start(row));
                                        }
                                    }
                                }
                            },
                            _ => {},
                        }
                    }
                },
            }
        },
    }
}


/// Consecutive rows leave no gap within one sequence: each row begins
/// where the one before it stopped, or on a later sequence.
pub open spec fn rows_abut(rows: Seq<RecV>) -> bool {
    forall|j: int|
        0 <= j < rows.len() - 1 ==> (rec_start(#[trigger] rows[j + 1]) == rec_stop(rows[j])
            || rows[j + 1].chrom != rows[j].chrom)
}

/// Every row a well-formed union emits continues the chain: rows begin at
/// or after the cursor, cover something, and follow one another; with
/// empty spans reported they abut, starting at the cursor itself.
proof fn lemma_run_sorted(u: UnionV)
    requires
        union_wf(u),
    ensures
        spec_run(u) matches Ok(rows) ==> recs_sorted_from(u.curr, rows),
        u.report_empty ==> (spec_run(u) matches Ok(rows) ==> rows_abut(rows) && (rows.len() > 0
            ==> (rec_start(rows[0]) == u.curr || rows[0].chrom != u.curr.chrom))),
    decreases measure(u),
{
    lemma_measure_nonneg(u);
    lemma_spec_next_wf(u);
    lemma_spec_next_measure(u);
    match spec_next(u) {
        (Ok(None), _) => {},
        (Ok(Some(row)), u2) => {
            lemma_run_sorted(u2);
            match spec_run(u2) {
                Ok(rest) => {
                    let rows = seq![row] + rest;
                    assert(rows[0] == row);
                    assert(rows.drop_first() =~= rest);
                    if u.report_empty {
                        assert(rec_stop(row).chrom == row.chrom);
                        assert forall|j: int| 0 <= j < rows.len() - 1 implies (rec_start(
                            #[trigger] rows[j + 1],
                        ) == rec_stop(rows[j]) || rows[j + 1].chrom != rows[j].chrom) by {
                            if j == 0 {
                                assert(rows[1] == rest[0]);
                                assert(rec_start(rest[0]) == u2.curr || rest[0].chrom
                                    != u2.curr.chrom);
                            } else {
                                assert(rows[j] == rest[j - 1]);
                                assert(rows[j + 1] == rest[j]);
                                assert(rec_start(rest[(j - 1) + 1]) == rec_stop(rest[j - 1])
                                    || rest[(j - 1) + 1].chrom != rest[j - 1].chrom);
                            }
                        }
                    }
                },
                Err(_) => {},
            }
        },
        (Err(_), _) => {},
    }
}

/// The chain, spelled out pairwise: each row covers something, begins at
/// or after `p`, and no two rows overlap or come out of order.
pub proof fn lemma_chain_pairwise(p: PosV, rows: Seq<RecV>)
    requires
        recs_sorted_from(p, rows),
    ensures
        forall|j: int| 0 <= j < rows.len() ==> rec_ok(#[trigger] rows[j]),
        forall|j: int|
            0 <= j < rows.len() ==> pos_le(p, rec_start(#[trigger] rows[j])),
        forall|j: int, k: int|
            0 <= j < k < rows.len() ==> pos_le(
                rec_stop(#[trigger] rows[j]),
                rec_start(#[trigger] rows[k]),
            ),
    decreases rows.len(),
{
    if rows.len() > 0 {
        let first = rows[0];
        let rest = rows.drop_first();
        lemma_chain_pairwise(rec_stop(first), rest);
        assert(forall|j: int| 0 <= j < rest.len() ==> rest[j] == rows[j + 1]);
        lemma_rec_ok_pos(first);
        assert forall|j: int| 0 <= j < rows.len() implies rec_ok(#[trigger] rows[j]) by {
            if j > 0 {
                assert(rec_ok(rest[j - 1]));
            }
        }
        assert forall|j: int| 0 <= j < rows.len() implies pos_le(
            p,
            rec_start(#[trigger] rows[j]),
        ) by {
            if j > 0 {
                assert(pos_le(rec_stop(first), rec_start(rest[j - 1])));
                lemma_pos_le_trans(rec_start(first), rec_stop(first), rec_start(rows[j]));
                lemma_pos_le_trans(p, rec_start(first), rec_start(rows[j]));
                crate::chrom_geo::lemma_pos_le_alt(rec_start(first), rec_stop(first));
            }
        }
        assert forall|j: int, k: int| 0 <= j < k < rows.len() implies pos_le(
            rec_stop(#[trigger] rows[j]),
            rec_start(#[trigger] rows[k]),
        ) by {
            if j == 0 {
                assert(pos_le(rec_stop(first), rec_start(rest[k - 1])));
            } else {
                assert(pos_le(rec_stop(rest[j - 1]), rec_start(rest[k - 1])));
            }
        }
    }
}

/// What `init_pull` yields index by index.
proof fn lemma_init_pull_elts(rs: Seq<SrcV>, i: int)
    requires
        0 <= i <= rs.len(),
    ensures
        init_pull(rs, i) matches Ok(ss) ==> {
            &&& ss.len() == rs.len() - i
            &&& (forall|k: int|
                0 <= k < ss.len() ==> !((#[trigger] src_next(rs[i + k])).0 is Err))
            &&& (forall|k: int|
                0 <= k < ss.len() ==> (#[trigger] ss[k]) == SourceV {
                    line: match src_next(rs[i + k]).0 {
                        Ok(Some(r)) => LineV::Out { rec: r },
                        _ => LineV::Done,
                    },
                    src: src_next(rs[i + k]).1,
                })
        },
    decreases rs.len() - i,
{
    if 0 <= i < rs.len() {
        lemma_init_pull_elts(rs, i + 1);
        match init_pull(rs, i + 1) {
            Err(_) => {},
            Ok(rest) => {
                match init_pull(rs, i) {
                    Err(_) => {},
                    Ok(ss) => {
                        assert(ss.len() == rest.len() + 1);
                        assert forall|k: int| 0 <= k < ss.len() implies !((#[trigger] src_next(
                            rs[i + k],
                        )).0 is Err) by {
                            if k > 0 {
                                assert(!(src_next(rs[i + 1 + (k - 1)]).0 is Err));
                                assert(i + 1 + (k - 1) == i + k);
                            }
                        }
                        assert forall|k: int| 0 <= k < ss.len() implies (#[trigger] ss[k])
                            == SourceV {
                            line: match src_next(rs[i + k]).0 {
                                Ok(Some(r)) => LineV::Out { rec: r },
                                _ => LineV::Done,
                            },
                            src: src_next(rs[i + k]).1,
                        } by {
                            if k > 0 {
                                assert(ss[k] == rest[k - 1]);
                                assert(rest[k - 1] == SourceV {
                                    line: match src_next(rs[i + 1 + (k - 1)]).0 {
                                        Ok(Some(r)) => LineV::Out { rec: r },
                                        _ => LineV::Done,
                                    },
                                    src: src_next(rs[i + 1 + (k - 1)]).1,
                                });
                                assert(i + 1 + (k - 1) == i + k);
                            }
                        }
                    },
                }
            },
        }
    }
}

/// A fresh union over sorted streams and a sorted boundary is well formed.
proof fn lemma_init_wf(
    rs: Seq<SrcV>,
    genome: Option<Seq<(Seq<char>, int)>>,
    report_empty: bool,
    filler: Seq<char>,
)
    requires
        forall|i: int| 0 <= i < rs.len() ==> stream_sorted((#[trigger] rs[i]).rem),
        match genome {
            Some(es) => recs_sorted(bound_recs(es)),
            None => true,
        },
    ensures
        spec_init(rs, genome, report_empty, filler) matches Ok(u0) ==> union_wf(u0),
{
    lemma_init_pull_elts(rs, 0);
    match init_pull(rs, 0) {
        Err(_) => {},
        Ok(ss) => {
            let brs = match genome {
                Some(es) => if report_empty {
                    bound_recs(es)
                } else {
                    Seq::<RecV>::empty()
                },
                None => Seq::<RecV>::empty(),
            };
            let bl0 = if brs.len() == 0 {
                LineV::Done
            } else {
                LineV::Out { rec: brs[0] }
            };
            let br0 = if brs.len() == 0 {
                brs
            } else {
                brs.drop_first()
            };
            let pre = UnionV {
                srcs: ss,
                brecs: br0,
                bline: bl0,
                curr: PosV { chrom: Seq::empty(), index: 0 },
                report_empty,
                filler,
            };
            match trans_of(pre) {
                None => {
                    lemma_min_contrib(pre.srcs);
                    assert forall|i: int| 0 <= i < pre.srcs.len() implies line_wf(
                        (#[trigger] pre.srcs[i]).line,
                        pre.curr,
                        pre.srcs[i].src.rem,
                    ) by {
                        assert(contribution(pre.srcs[i].line) is None);
                        assert(pre.srcs[i].line is Done);
                    }
                },
                Some(m) => {
                    lemma_trans_lb(pre, m);
                    lemma_adv_all_elts(pre.srcs, m, 0);
                    match adv_all(pre.srcs, m, 0) {
                        Err(_) => {
                            assert forall|i: int| 0 <= i < pre.srcs.len() implies !(adv_src(
                                #[trigger] pre.srcs[i],
                                m,
                            ) is Err) by {
                                assert(!(pre.srcs[i].line is In));
                            }
                            assert(!(adv_all(pre.srcs, m, 0) is Err)) by {
                                lemma_adv_all_no_err(pre.srcs, m, 0);
                            }
                        },
                        Ok(ss2) => {
                            assert forall|i: int| 0 <= i < ss2.len() implies line_wf(
                                (#[trigger] ss2[i]).line,
                                m,
                                ss2[i].src.rem,
                            ) by {
                                assert(adv_src(pre.srcs[i], m) matches Ok(x) && ss2[i] == x);
                                lemma_init_src_wf(rs, pre.srcs, i, m);
                            }
                            match bl0 {
                                LineV::Done => {},
                                LineV::Out { rec } => {
                                    assert(contribution(bl0) == Some(rec_start(rec)));
                                    assert(pos_le(m, rec_start(rec)));
                                    if !pos_lt(m, rec_start(rec)) {
                                        lemma_pos_not_lt(m, rec_start(rec));
                                        lemma_pos_le_antisym(m, rec_start(rec));
                                        lemma_rec_ok_pos(rec);
                                    }
                                },
                                LineV::In { .. } => {},
                            }
                        },
                    }
                },
            }
        },
    }
}

/// With no source active, advancing cannot fail.
proof fn lemma_adv_all_no_err(ss: Seq<SourceV>, bp: PosV, i: int)
    requires
        0 <= i,
        forall|j: int| i <= j < ss.len() ==> !((#[trigger] ss[j]).line is In),
    ensures
        !(adv_all(ss, bp, i) is Err),
    decreases ss.len() - i,
{
    if 0 <= i < ss.len() {
        match adv_src(ss[i], bp) {
            Err(_) => {},
            Ok(sv2) => {
                let upd = ss.update(i, sv2);
                assert forall|j: int| i + 1 <= j < upd.len() implies !((#[trigger] upd[j]).line
                    is In) by {
                    assert(upd[j] == ss[j]);
                }
                lemma_adv_all_no_err(upd, bp, i + 1);
            },
        }
    }
}

/// One freshly pulled source, advanced to the initial cursor, is well
/// formed.
proof fn lemma_init_src_wf(rs: Seq<SrcV>, ss: Seq<SourceV>, i: int, m: PosV)
    requires
        0 <= i < ss.len(),
        init_pull(rs, 0) == Ok::<Seq<SourceV>, UnionErrV>(ss),
        ss.len() == rs.len(),
        stream_sorted(rs[i].rem),
        contribution(ss[i].line) matches Some(p) ==> pos_le(m, p),
    ensures
        adv_src(ss[i], m) matches Ok(sv2) ==> line_wf(sv2.line, m, sv2.src.rem),
{
    lemma_init_pull_elts(rs, 0);
    match src_next(rs[i]) {
        (Ok(None), s2) => {},
        (Ok(Some(r)), s2) => {
            assert(ss[i] == SourceV { line: LineV::Out { rec: r }, src: s2 });
            assert(rec_ok(r) && src_sorted_from(rec_stop(r), s2.rem));
            if !pos_lt(m, rec_start(r)) {
                lemma_pos_not_lt(m, rec_start(r));
                lemma_pos_le_antisym(m, rec_start(r));
                lemma_rec_ok_pos(r);
            }
        },
        (Err(_), s2) => {},
    }
}


/// The whole merge as a function of its inputs: construct, then run.
pub open spec fn spec_union(
    rs: Seq<SrcV>,
    genome: Option<Seq<(Seq<char>, int)>>,
    report_empty: bool,
    filler: Seq<char>,
) -> Result<Seq<RecV>, UnionErrV> {
    match spec_init(rs, genome, report_empty, filler) {
        Err(e) => Err(e),
        Ok(u0) => spec_run(u0),
    }
}

/// For all inputs whose streams are sorted and non-overlapping (and whose
/// genome table, if used, lists its sequences in ascending order with
/// positive sizes): the emitted rows each cover something, and the
/// sequence of emitted positions is strictly increasing — no two rows
/// overlap or come out of order.
pub proof fn lemma_union_rows_ordered(
    rs: Seq<SrcV>,
    genome: Option<Seq<(Seq<char>, int)>>,
    report_empty: bool,
    filler: Seq<char>,
)
    requires
        forall|i: int| 0 <= i < rs.len() ==> stream_sorted((#[trigger] rs[i]).rem),
        match genome {
            Some(es) => recs_sorted(bound_recs(es)),
            None => true,
        },
    ensures
        spec_union(rs, genome, report_empty, filler) matches Ok(rows) ==> {
            &&& (forall|j: int| 0 <= j < rows.len() ==> rec_ok(#[trigger] rows[j]))
            &&& (forall|j: int, k: int|
                0 <= j < k < rows.len() ==> pos_le(
                    rec_stop(#[trigger] rows[j]),
                    rec_start(#[trigger] rows[k]),
                ))
            &&& (report_empty ==> rows_abut(rows))
        },
{
    lemma_init_wf(rs, genome, report_empty, filler);
    match spec_init(rs, genome, report_empty, filler) {
        Err(_) => {},
        Ok(u0) => {
            lemma_run_sorted(u0);
            match spec_run(u0) {
                Ok(rows) => {
                    lemma_chain_pairwise(u0.curr, rows);
                },
                Err(_) => {},
            }
        },
    }
}

/// Idempotence: the merge is a function of the streams' contents and the
/// configuration alone, so re-running it on the same inputs from the start
/// of each file yields identical output.
pub proof fn lemma_union_idempotent(
    rs_a: Seq<SrcV>,
    rs_b: Seq<SrcV>,
    genome_a: Option<Seq<(Seq<char>, int)>>,
    genome_b: Option<Seq<(Seq<char>, int)>>,
    empty_a: bool,
    empty_b: bool,
    filler_a: Seq<char>,
    filler_b: Seq<char>,
)
    requires
        rs_a == rs_b,
        genome_a == genome_b,
        empty_a == empty_b,
        filler_a == filler_b,
    ensures
        spec_union(rs_a, genome_a, empty_a, filler_a) == spec_union(
            rs_b,
            genome_b,
            empty_b,
            filler_b,
        ),
{
}


/// Every unread line of the stream parses.
pub open spec fn all_parse(rem: Seq<Seq<char>>) -> bool {
    forall|i: int| 0 <= i < rem.len() ==> (#[trigger] parse_line(rem[i])) is Ok
}

/// The records a stream's lines parse to, in order.
pub open spec fn parsed_recs(rem: Seq<Seq<char>>) -> Seq<RecV>
    decreases rem.len(),
{
    if rem.len() == 0 {
        Seq::empty()
    } else {
        match parse_line(rem[0]) {
            Ok(r) => seq![r] + parsed_recs(rem.drop_first()),
            Err(_) => Seq::empty(),
        }
    }
}

/// The row a record yields when its source is merged alone: the same
/// segment, its value kept, the filler standing in for an absent value.
pub open spec fn row_of(r: RecV, filler: Seq<char>) -> RecV {
    RecV {
        chrom: r.chrom,
        start: r.start,
        stop: r.stop,
        data: Some(
            match r.data {
                Some(d) => d,
                None => filler,
            },
        ),
    }
}

/// The rows still to come from a single-source union in the given state.
spec fn state_rows(l: LineV, rem: Seq<Seq<char>>, filler: Seq<char>) -> Seq<RecV> {
    match l {
        LineV::Done => Seq::empty(),
        LineV::In { rec } => seq![row_of(rec, filler)] + parsed_recs(rem).map_values(
            |r: RecV| row_of(r, filler),
        ),
        LineV::Out { rec } => seq![row_of(rec, filler)] + parsed_recs(rem).map_values(
            |r: RecV| row_of(r, filler),
        ),
    }
}

/// A single-source union emits exactly one row per record.
proof fn lemma_single_run(u: UnionV)
    requires
        u.srcs.len() == 1,
        u.bline is Done,
        u.brecs.len() == 0,
        !u.report_empty,
        union_wf(u),
        all_parse(u.srcs[0].src.rem),
        match u.srcs[0].line {
            LineV::In { rec } => u.curr == rec_start(rec),
            _ => true,
        },
    ensures
        spec_run(u) == Ok::<Seq<RecV>, UnionErrV>(
            state_rows(u.srcs[0].line, u.srcs[0].src.rem, u.filler),
        ),
    decreases measure(u),
{
    lemma_measure_nonneg(u);
    let sv = u.srcs[0];
    let rem = sv.src.rem;
    let filler = u.filler;
    let fmap = |r: RecV| row_of(r, filler);
    assert(u.srcs.drop_last() =~= Seq::<SourceV>::empty());
    assert(u.srcs.last() == sv);
    assert(min_contrib(Seq::<SourceV>::empty()) is None);
    assert(trans_of(u) == contribution(sv.line));
    match sv.line {
        LineV::Done => {
            assert(parsed_recs(rem) =~= Seq::<RecV>::empty());
        },
        LineV::In { rec } => {
            let bp = rec_stop(rec);
            assert(has_active(u.srcs)) by {
                assert(u.srcs[0].line is In);
            }
            lemma_trans_gt_curr(u, bp);
            lemma_advance_wf(u, bp);
            lemma_spec_advance_measure(u, bp);
            lemma_adv_all_elts(u.srcs, bp, 0);
            lemma_pos_cmp_eq(bp, bp);
            assert(!pos_lt(bp, rec_stop(rec)));
            assert(!(src_next(sv.src).0 is Err)) by {
                if rem.len() > 0 {
                    assert(parse_line(rem[0]) is Ok);
                }
            }
            assert(adv_src(sv, bp) is Ok);
            let sv2 = adv_src(sv, bp)->Ok_0;
            let upd = u.srcs.update(0, sv2);
            assert(adv_all(upd, bp, 1) == Ok::<Seq<SourceV>, UnionErrV>(upd));
            assert(adv_all(u.srcs, bp, 0) == Ok::<Seq<SourceV>, UnionErrV>(upd));
            match spec_advance(u, bp) {
                Err(_) => {},
                Ok(u2) => {
                    assert(u2.srcs.len() == 1);
                    assert(adv_src(sv, bp) matches Ok(x) && u2.srcs[0] == x);
                    // the emitted row is the record's own row
                    let row = RecV {
                        chrom: u.curr.chrom,
                        start: u.curr.index,
                        stop: bp.index,
                        data: Some(crate::text::join_tab(row_cells(u.srcs, filler))),
                    };
                    assert(row_cells(u.srcs, filler).len() == 1);
                    assert(row_cells(u.srcs, filler)[0] == cell_of(sv.line, filler));
                    assert(crate::text::join_tab(row_cells(u.srcs, filler)) == cell_of(
                        sv.line,
                        filler,
                    ));
                    assert(row == row_of(rec, filler));
                    // the source after the pull
                    if rem.len() == 0 {
                        assert(u2.srcs[0] == SourceV {
                            line: LineV::Done,
                            src: src_next(sv.src).1,
                        });
                        lemma_single_run(u2);
                        assert(parsed_recs(rem) =~= Seq::<RecV>::empty());
                        assert(parsed_recs(rem).map_values(fmap) =~= Seq::<RecV>::empty());
                        assert(seq![row] + state_rows(u2.srcs[0].line, u2.srcs[0].src.rem, filler)
                            =~= state_rows(sv.line, rem, filler));
                    } else {
                        assert(parse_line(rem[0]) is Ok);
                        let r2 = parse_line(rem[0])->Ok_0;
                        let rest = rem.drop_first();
                        assert(u2.srcs[0] == SourceV {
                            line: classify(r2, bp),
                            src: SrcV { rem: rest, lineno: sv.src.lineno + 1 },
                        });
                        assert(all_parse(rest)) by {
                            assert(forall|i: int|
                                0 <= i < rest.len() ==> rest[i] == rem[i + 1]);
                        }
                        if !pos_lt(bp, rec_start(r2)) {
                            lemma_pos_not_lt(bp, rec_start(r2));
                            lemma_pos_le_antisym(bp, rec_start(r2));
                        }
                        lemma_single_run(u2);
                        assert(parsed_recs(rem) == seq![r2] + parsed_recs(rest));
                        assert(parsed_recs(rem).map_values(fmap) =~= seq![row_of(r2, filler)]
                            + parsed_recs(rest).map_values(fmap));
                        assert(seq![row] + state_rows(u2.srcs[0].line, rest, filler)
                            =~= state_rows(sv.line, rem, filler));
                    }
                },
            }
        },
        LineV::Out { rec } => {
            let bp = rec_start(rec);
            assert(!has_active(u.srcs)) by {
                assert(forall|i: int| 0 <= i < u.srcs.len() ==> u.srcs[i] == sv);
            }
            lemma_trans_gt_curr(u, bp);
            lemma_advance_wf(u, bp);
            lemma_spec_advance_measure(u, bp);
            lemma_adv_all_elts(u.srcs, bp, 0);
            lemma_pos_cmp_eq(bp, bp);
            assert(!pos_lt(bp, rec_start(rec)));
            match spec_advance(u, bp) {
                Err(_) => {
                    assert(!(adv_src(sv, bp) is Err));
                    lemma_adv_all_no_err(u.srcs, bp, 0);
                },
                Ok(u2) => {
                    assert(u2.srcs.len() == 1);
                    assert(adv_src(sv, bp) matches Ok(x) && u2.srcs[0] == x);
                    assert(u2.srcs[0] == SourceV { line: LineV::In { rec }, src: sv.src });
                    assert(u2.curr == rec_start(rec));
                    lemma_single_run(u2);
                    assert(spec_run(u) == spec_run(u2));
                },
            }
        },
    }
}


/// Merging one sorted stream alone, with empty spans not reported, emits
/// exactly one row per input record, in order, each keeping its segment
/// and its value (the filler standing in for an absent value).
pub proof fn lemma_single_stream(src: SrcV, filler: Seq<char>)
    requires
        stream_sorted(src.rem),
        all_parse(src.rem),
    ensures
        spec_union(seq![src], None, false, filler) == Ok::<Seq<RecV>, UnionErrV>(
            parsed_recs(src.rem).map_values(|r: RecV| row_of(r, filler)),
        ),
{
    let rs = seq![src];
    let fmap = |r: RecV| row_of(r, filler);
    assert(rs[0] == src);
    assert forall|i: int| 0 <= i < rs.len() implies stream_sorted((#[trigger] rs[i]).rem) by {
        assert(rs[i] == src);
    }
    lemma_init_wf(rs, None, false, filler);
    lemma_init_pull_elts(rs, 0);
    assert(!(init_pull(rs, 0) is Err)) by {
        if src.rem.len() > 0 {
            assert(parse_line(src.rem[0]) is Ok);
        }
        assert(init_pull(rs, 1) == Ok::<Seq<SourceV>, UnionErrV>(Seq::empty()));
    }
    match init_pull(rs, 0) {
        Err(_) => {},
        Ok(ss) => {
            assert(ss.len() == 1);
            assert(ss[0] == SourceV {
                line: match src_next(rs[0]).0 {
                    Ok(Some(r)) => LineV::Out { rec: r },
                    _ => LineV::Done,
                },
                src: src_next(rs[0]).1,
            });
            let pre = UnionV {
                srcs: ss,
                brecs: Seq::empty(),
                bline: LineV::Done,
                curr: PosV { chrom: Seq::empty(), index: 0 },
                report_empty: false,
                filler,
            };
            assert(pre.srcs.drop_last() =~= Seq::<SourceV>::empty());
            assert(pre.srcs.last() == ss[0]);
            assert(min_contrib(Seq::<SourceV>::empty()) is None);
            assert(trans_of(pre) == contribution(ss[0].line));
            if src.rem.len() == 0 {
                assert(ss[0].line is Done);
                assert(trans_of(pre) is None);
                assert(spec_init(rs, None, false, filler) == Ok::<UnionV, UnionErrV>(pre));
                lemma_single_run(pre);
                assert(parsed_recs(src.rem) =~= Seq::<RecV>::empty());
                assert(parsed_recs(src.rem).map_values(fmap) =~= Seq::<RecV>::empty());
            } else {
                assert(parse_line(src.rem[0]) is Ok);
                let r = parse_line(src.rem[0])->Ok_0;
                let rest = src.rem.drop_first();
                assert(ss[0] == SourceV {
                    line: LineV::Out { rec: r },
                    src: SrcV { rem: rest, lineno: src.lineno + 1 },
                });
                let m = rec_start(r);
                assert(trans_of(pre) == Some(m));
                lemma_adv_all_no_err(pre.srcs, m, 0);
                lemma_adv_all_elts(pre.srcs, m, 0);
                lemma_pos_cmp_eq(m, m);
                match spec_advance(pre, m) {
                    Err(_) => {},
                    Ok(u0) => {
                        assert(spec_init(rs, None, false, filler) == Ok::<UnionV, UnionErrV>(u0));
                        assert(u0.srcs.len() == 1);
                        assert(adv_src(ss[0], m) matches Ok(x) && u0.srcs[0] == x);
                        assert(u0.srcs[0] == SourceV {
                            line: LineV::In { rec: r },
                            src: SrcV { rem: rest, lineno: src.lineno + 1 },
                        });
                        assert(all_parse(rest)) by {
                            assert(forall|i: int|
                                0 <= i < rest.len() ==> rest[i] == src.rem[i + 1]);
                        }
                        lemma_single_run(u0);
                        assert(parsed_recs(src.rem) == seq![r] + parsed_recs(rest));
                        assert(parsed_recs(src.rem).map_values(fmap) =~= seq![row_of(r, filler)]
                            + parsed_recs(rest).map_values(fmap));
                        assert(state_rows(u0.srcs[0].line, rest, filler) =~= parsed_recs(
                            src.rem,
                        ).map_values(fmap));
                    },
                }
            }
        },
    }
}


/// A filler-only row spanning `[a, b)` on `a`'s sequence.
pub open spec fn fill_row(a: PosV, b: PosV, filler: Seq<char>) -> RecV {
    RecV { chrom: a.chrom, start: a.index, stop: b.index, data: Some(filler) }
}

/// The rows a single reported-empty merge emits from position `p` on: each
/// further record's own row, a filler row ahead of it when it leaves a gap
/// on the same sequence.
pub open spec fn reported_after(p: PosV, rem: Seq<Seq<char>>, filler: Seq<char>) -> Seq<RecV>
    decreases rem.len(),
{
    if rem.len() == 0 {
        Seq::empty()
    } else {
        match parse_line(rem[0]) {
            Err(_) => Seq::empty(),
            Ok(r) => (if pos_lt(p, rec_start(r)) && p.chrom == r.chrom {
                seq![fill_row(p, rec_start(r), filler)]
            } else {
                Seq::empty()
            }) + seq![row_of(r, filler)] + reported_after(
                rec_stop(r),
                rem.drop_first(),
                filler,
            ),
        }
    }
}

/// The rows a whole single-stream reported-empty merge emits.
pub open spec fn reported_rows(rem: Seq<Seq<char>>, filler: Seq<char>) -> Seq<RecV> {
    if rem.len() == 0 {
        Seq::empty()
    } else {
        match parse_line(rem[0]) {
            Err(_) => Seq::empty(),
            Ok(r) => seq![row_of(r, filler)] + reported_after(
                rec_stop(r),
                rem.drop_first(),
                filler,
            ),
        }
    }
}

/// The rows still owed by a single-source reported-empty union in the
/// given standing.
spec fn reported_state_rows(l: LineV, curr: PosV, rem: Seq<Seq<char>>, filler: Seq<char>) -> Seq<
    RecV,
> {
    match l {
        LineV::Done => Seq::empty(),
        LineV::In { rec } => seq![row_of(rec, filler)] + reported_after(rec_stop(rec), rem, filler),
        LineV::Out { rec } => (if curr.chrom == rec.chrom {
            seq![fill_row(curr, rec_start(rec), filler)]
        } else {
            Seq::empty()
        }) + seq![row_of(rec, filler)] + reported_after(rec_stop(rec), rem, filler),
    }
}

/// A single-source union with empty reporting emits one row per record
/// plus the filler rows for the gaps.
proof fn lemma_single_run_reported(u: UnionV)
    requires
        u.srcs.len() == 1,
        u.bline is Done,
        u.brecs.len() == 0,
        u.report_empty,
        union_wf(u),
        all_parse(u.srcs[0].src.rem),
        match u.srcs[0].line {
            LineV::In { rec } => u.curr == rec_start(rec),
            _ => true,
        },
    ensures
        spec_run(u) == Ok::<Seq<RecV>, UnionErrV>(
            reported_state_rows(u.srcs[0].line, u.curr, u.srcs[0].src.rem, u.filler),
        ),
    decreases measure(u),
{
    lemma_measure_nonneg(u);
    let sv = u.srcs[0];
    let rem = sv.src.rem;
    let filler = u.filler;
    assert(u.srcs.drop_last() =~= Seq::<SourceV>::empty());
    assert(u.srcs.last() == sv);
    assert(min_contrib(Seq::<SourceV>::empty()) is None);
    assert(trans_of(u) == contribution(sv.line));
    match sv.line {
        LineV::Done => {},
        LineV::In { rec } => {
            let bp = rec_stop(rec);
            assert(has_active(u.srcs)) by {
                assert(u.srcs[0].line is In);
            }
            lemma_trans_gt_curr(u, bp);
            lemma_advance_wf(u, bp);
            lemma_spec_advance_measure(u, bp);
            lemma_adv_all_elts(u.srcs, bp, 0);
            lemma_pos_cmp_eq(bp, bp);
            assert(!pos_lt(bp, rec_stop(rec)));
            assert(!(src_next(sv.src).0 is Err)) by {
                if rem.len() > 0 {
                    assert(parse_line(rem[0]) is Ok);
                }
            }
            assert(adv_src(sv, bp) is Ok);
            let sv2 = adv_src(sv, bp)->Ok_0;
            let upd = u.srcs.update(0, sv2);
            assert(adv_all(upd, bp, 1) == Ok::<Seq<SourceV>, UnionErrV>(upd));
            assert(adv_all(u.srcs, bp, 0) == Ok::<Seq<SourceV>, UnionErrV>(upd));
            match spec_advance(u, bp) {
                Err(_) => {},
                Ok(u2) => {
                    assert(u2.srcs.len() == 1);
                    assert(adv_src(sv, bp) matches Ok(x) && u2.srcs[0] == x);
                    let row = RecV {
                        chrom: u.curr.chrom,
                        start: u.curr.index,
                        stop: bp.index,
                        data: Some(crate::text::join_tab(row_cells(u.srcs, filler))),
                    };
                    assert(row_cells(u.srcs, filler).len() == 1);
                    assert(row_cells(u.srcs, filler)[0] == cell_of(sv.line, filler));
                    assert(crate::text::join_tab(row_cells(u.srcs, filler)) == cell_of(
                        sv.line,
                        filler,
                    ));
                    assert(row == row_of(rec, filler));
                    if rem.len() == 0 {
                        assert(u2.srcs[0] == SourceV {
                            line: LineV::Done,
                            src: src_next(sv.src).1,
                        });
                        lemma_single_run_reported(u2);
                        assert(reported_after(bp, rem, filler) =~= Seq::<RecV>::empty());
                        assert(seq![row] + reported_state_rows(
                            u2.srcs[0].line,
                            u2.curr,
                            u2.srcs[0].src.rem,
                            filler,
                        ) =~= reported_state_rows(sv.line, u.curr, rem, filler));
                    } else {
                        assert(parse_line(rem[0]) is Ok);
                        let r2 = parse_line(rem[0])->Ok_0;
                        let rest = rem.drop_first();
                        assert(u2.srcs[0] == SourceV {
                            line: classify(r2, bp),
                            src: SrcV { rem: rest, lineno: sv.src.lineno + 1 },
                        });
                        assert(all_parse(rest)) by {
                            assert(forall|i: int|
                                0 <= i < rest.len() ==> rest[i] == rem[i + 1]);
                        }
                        if !pos_lt(bp, rec_start(r2)) {
                            lemma_pos_not_lt(bp, rec_start(r2));
                            lemma_pos_le_antisym(bp, rec_start(r2));
                        }
                        lemma_single_run_reported(u2);
                        assert(seq![row] + reported_state_rows(
                            u2.srcs[0].line,
                            u2.curr,
                            rest,
                            filler,
                        ) =~= reported_state_rows(sv.line, u.curr, rem, filler));
                    }
                },
            }
        },
        LineV::Out { rec } => {
            let bp = rec_start(rec);
            assert(!has_active(u.srcs)) by {
                assert(forall|i: int| 0 <= i < u.srcs.len() ==> u.srcs[i] == sv);
            }
            lemma_trans_gt_curr(u, bp);
            lemma_advance_wf(u, bp);
            lemma_spec_advance_measure(u, bp);
            lemma_adv_all_elts(u.srcs, bp, 0);
            lemma_pos_cmp_eq(bp, bp);
            assert(!pos_lt(bp, rec_start(rec)));
            match spec_advance(u, bp) {
                Err(_) => {
                    assert(!(adv_src(sv, bp) is Err));
                    lemma_adv_all_no_err(u.srcs, bp, 0);
                },
                Ok(u2) => {
                    assert(u2.srcs.len() == 1);
                    assert(adv_src(sv, bp) matches Ok(x) && u2.srcs[0] == x);
                    assert(u2.srcs[0] == SourceV { line: LineV::In { rec }, src: sv.src });
                    assert(u2.curr == rec_start(rec));
                    lemma_single_run_reported(u2);
                    if u.curr.chrom == bp.chrom {
                        let row = RecV {
                            chrom: u.curr.chrom,
                            start: u.curr.index,
                            stop: bp.index,
                            data: Some(crate::text::join_tab(row_cells(u.srcs, filler))),
                        };
                        assert(row_cells(u.srcs, filler).len() == 1);
                        assert(row_cells(u.srcs, filler)[0] == cell_of(sv.line, filler));
                        assert(crate::text::join_tab(row_cells(u.srcs, filler)) == filler);
                        assert(row == fill_row(u.curr, bp, filler));
                        assert(seq![row] + reported_state_rows(LineV::In { rec }, u2.curr, rem, filler)
                            =~= reported_state_rows(sv.line, u.curr, rem, filler));
                    } else {
                        assert(spec_run(u) == spec_run(u2));
                        assert(reported_state_rows(LineV::In { rec }, u2.curr, rem, filler)
                            =~= reported_state_rows(sv.line, u.curr, rem, filler));
                    }
                },
            }
        },
    }
}

/// Merging one sorted stream alone with empty reporting (and no genome
/// table) emits one row per input record, in order, each keeping its
/// segment and its value, combined with one filler row for each gap the
/// records leave between one another on a sequence.
pub proof fn lemma_single_stream_reported(src: SrcV, filler: Seq<char>)
    requires
        stream_sorted(src.rem),
        all_parse(src.rem),
    ensures
        spec_union(seq![src], None, true, filler) == Ok::<Seq<RecV>, UnionErrV>(
            reported_rows(src.rem, filler),
        ),
{
    let rs = seq![src];
    assert(rs[0] == src);
    assert forall|i: int| 0 <= i < rs.len() implies stream_sorted((#[trigger] rs[i]).rem) by {
        assert(rs[i] == src);
    }
    lemma_init_wf(rs, None, true, filler);
    lemma_init_pull_elts(rs, 0);
    assert(!(init_pull(rs, 0) is Err)) by {
        if src.rem.len() > 0 {
            assert(parse_line(src.rem[0]) is Ok);
        }
        assert(init_pull(rs, 1) == Ok::<Seq<SourceV>, UnionErrV>(Seq::empty()));
    }
    match init_pull(rs, 0) {
        Err(_) => {},
        Ok(ss) => {
            assert(ss.len() == 1);
            assert(ss[0] == SourceV {
                line: match src_next(rs[0]).0 {
                    Ok(Some(r)) => LineV::Out { rec: r },
                    _ => LineV::Done,
                },
                src: src_next(rs[0]).1,
            });
            let pre = UnionV {
                srcs: ss,
                brecs: Seq::empty(),
                bline: LineV::Done,
                curr: PosV { chrom: Seq::empty(), index: 0 },
                report_empty: true,
                filler,
            };
            assert(pre.srcs.drop_last() =~= Seq::<SourceV>::empty());
            assert(pre.srcs.last() == ss[0]);
            assert(min_contrib(Seq::<SourceV>::empty()) is None);
            assert(trans_of(pre) == contribution(ss[0].line));
            if src.rem.len() == 0 {
                assert(ss[0].line is Done);
                assert(trans_of(pre) is None);
                assert(spec_init(rs, None, true, filler) == Ok::<UnionV, UnionErrV>(pre));
                lemma_single_run_reported(pre);
            } else {
                assert(parse_line(src.rem[0]) is Ok);
                let r = parse_line(src.rem[0])->Ok_0;
                let rest = src.rem.drop_first();
                assert(ss[0] == SourceV {
                    line: LineV::Out { rec: r },
                    src: SrcV { rem: rest, lineno: src.lineno + 1 },
                });
                let m = rec_start(r);
                assert(trans_of(pre) == Some(m));
                lemma_adv_all_no_err(pre.srcs, m, 0);
                lemma_adv_all_elts(pre.srcs, m, 0);
                lemma_pos_cmp_eq(m, m);
                match spec_advance(pre, m) {
                    Err(_) => {},
                    Ok(u0) => {
                        assert(spec_init(rs, None, true, filler) == Ok::<UnionV, UnionErrV>(u0));
                        assert(u0.srcs.len() == 1);
                        assert(adv_src(ss[0], m) matches Ok(x) && u0.srcs[0] == x);
                        assert(u0.srcs[0] == SourceV {
                            line: LineV::In { rec: r },
                            src: SrcV { rem: rest, lineno: src.lineno + 1 },
                        });
                        assert(all_parse(rest)) by {
                            assert(forall|i: int|
                                0 <= i < rest.len() ==> rest[i] == src.rem[i + 1]);
                        }
                        lemma_single_run_reported(u0);
                        assert(reported_state_rows(u0.srcs[0].line, u0.curr, rest, filler)
                            =~= reported_rows(src.rem, filler));
                    },
                }
            }
        },
    }
}

} // verus!
