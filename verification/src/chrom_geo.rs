//! Positions and half-open segments on named sequences, with the total
//! order used throughout the merge: sequence names compare lexicographically
//! by code point (so "chr15" sorts before "chr4"), offsets numerically.

use vstd::prelude::*;
use core::cmp::Ordering;

verus! {

/// Mathematical value of a `ChromPos`.
pub ghost struct PosV {
    pub chrom: Seq<char>,
    pub index: int,
}

/// Mathematical value of a `ChromSeg`.
pub ghost struct SegV {
    pub chrom: Seq<char>,
    pub start: int,
    pub stop: int,
}

pub open spec fn seg_start(s: SegV) -> PosV {
    PosV { chrom: s.chrom, index: s.start }
}

pub open spec fn seg_stop(s: SegV) -> PosV {
    PosV { chrom: s.chrom, index: s.stop }
}

/// Three-way lexicographic comparison of character sequences, read from
/// index `i` on: the first differing code point decides; otherwise the
/// shorter sequence comes first.
pub open spec fn str_cmp_from(a: Seq<char>, b: Seq<char>, i: int) -> Ordering
    decreases a.len() - i,
{
    if 0 <= i && i < a.len() && i < b.len() {
        if a[i] < b[i] {
            Ordering::Less
        } else if a[i] > b[i] {
            Ordering::Greater
        } else {
            str_cmp_from(a, b, i + 1)
        }
    } else {
        if a.len() < b.len() {
            Ordering::Less
        } else if a.len() > b.len() {
            Ordering::Greater
        } else {
            Ordering::Equal
        }
    }
}

pub open spec fn str_cmp(a: Seq<char>, b: Seq<char>) -> Ordering {
    str_cmp_from(a, b, 0)
}

pub open spec fn str_lt(a: Seq<char>, b: Seq<char>) -> bool {
    str_cmp(a, b) == Ordering::Less
}

/// Three-way comparison of positions: sequence name first, then offset.
pub open spec fn pos_cmp(a: PosV, b: PosV) -> Ordering {
    match str_cmp(a.chrom, b.chrom) {
        Ordering::Equal => if a.index < b.index {
            Ordering::Less
        } else if a.index > b.index {
            Ordering::Greater
        } else {
            Ordering::Equal
        },
        o => o,
    }
}

pub open spec fn pos_lt(a: PosV, b: PosV) -> bool {
    pos_cmp(a, b) == Ordering::Less
}

pub open spec fn pos_le(a: PosV, b: PosV) -> bool {
    pos_cmp(a, b) != Ordering::Greater
}

proof fn lemma_str_cmp_from_eq(a: Seq<char>, b: Seq<char>, i: int)
    requires
        0 <= i <= a.len(),
        0 <= i <= b.len(),
    ensures
        str_cmp_from(a, b, i) == Ordering::Equal <==> (a.len() == b.len() && (forall|j: int|
            i <= j < a.len() ==> a[j] == b[j])),
    decreases a.len() - i,
{
    if i < a.len() && i < b.len() {
        if a[i] == b[i] {
            lemma_str_cmp_from_eq(a, b, i + 1);
        }
    }
}

/// Equality case of the comparison: `Equal` exactly on equal sequences.
pub proof fn lemma_str_cmp_eq(a: Seq<char>, b: Seq<char>)
    ensures
        str_cmp(a, b) == Ordering::Equal <==> a == b,
{
    lemma_str_cmp_from_eq(a, b, 0);
    if str_cmp(a, b) == Ordering::Equal {
        assert(a =~= b);
    }
}

proof fn lemma_str_cmp_from_antisym(a: Seq<char>, b: Seq<char>, i: int)
    requires
        0 <= i,
    ensures
        str_cmp_from(a, b, i) == Ordering::Less <==> str_cmp_from(b, a, i) == Ordering::Greater,
    decreases a.len() - i,
{
    if i < a.len() && i < b.len() {
        if a[i] == b[i] {
            lemma_str_cmp_from_antisym(a, b, i + 1);
        }
    }
}

/// Antisymmetry: `a` below `b` exactly when `b` above `a`.
pub proof fn lemma_str_cmp_antisym(a: Seq<char>, b: Seq<char>)
    ensures
        str_cmp(a, b) == Ordering::Less <==> str_cmp(b, a) == Ordering::Greater,
{
    lemma_str_cmp_from_antisym(a, b, 0);
}

proof fn lemma_str_cmp_from_trans(a: Seq<char>, b: Seq<char>, c: Seq<char>, i: int)
    requires
        0 <= i,
        str_cmp_from(a, b, i) == Ordering::Less,
        str_cmp_from(b, c, i) == Ordering::Less,
    ensures
        str_cmp_from(a, c, i) == Ordering::Less,
    decreases a.len() - i,
{
    if i < a.len() && i < b.len() && a[i] == b[i] {
        if i < c.len() && b[i] == c[i] {
            lemma_str_cmp_from_trans(a, b, c, i + 1);
        }
    }
}

/// Transitivity of the strict order on character sequences.
pub proof fn lemma_str_lt_trans(a: Seq<char>, b: Seq<char>, c: Seq<char>)
    requires
        str_lt(a, b),
        str_lt(b, c),
    ensures
        str_lt(a, c),
{
    lemma_str_cmp_from_trans(a, b, c, 0);
}

/// `pos_cmp` answers `Equal` exactly on equal positions.
pub proof fn lemma_pos_cmp_eq(a: PosV, b: PosV)
    ensures
        pos_cmp(a, b) == Ordering::Equal <==> a == b,
{
    lemma_str_cmp_eq(a.chrom, b.chrom);
}

/// Antisymmetry of the position order.
pub proof fn lemma_pos_cmp_antisym(a: PosV, b: PosV)
    ensures
        pos_lt(a, b) <==> pos_cmp(b, a) == Ordering::Greater,
{
    lemma_str_cmp_antisym(a.chrom, b.chrom);
    lemma_str_cmp_eq(a.chrom, b.chrom);
    lemma_str_cmp_eq(b.chrom, a.chrom);
}

/// Transitivity of the strict position order.
pub proof fn lemma_pos_lt_trans(a: PosV, b: PosV, c: PosV)
    requires
        pos_lt(a, b),
        pos_lt(b, c),
    ensures
        pos_lt(a, c),
{
    lemma_str_cmp_eq(a.chrom, b.chrom);
    lemma_str_cmp_eq(b.chrom, c.chrom);
    lemma_str_cmp_eq(a.chrom, c.chrom);
    if str_cmp(a.chrom, b.chrom) == Ordering::Equal {
        assert(a.chrom == b.chrom);
    }
    if str_cmp(b.chrom, c.chrom) == Ordering::Equal {
        assert(b.chrom == c.chrom);
    }
    if str_lt(a.chrom, b.chrom) && str_lt(b.chrom, c.chrom) {
        lemma_str_lt_trans(a.chrom, b.chrom, c.chrom);
    }
}

/// `pos_le` is the reflexive closure of `pos_lt`.
pub proof fn lemma_pos_le_alt(a: PosV, b: PosV)
    ensures
        pos_le(a, b) <==> pos_lt(a, b) || a == b,
{
    lemma_pos_cmp_eq(a, b);
}

/// Totality: not being strictly below means being at or above.
pub proof fn lemma_pos_not_lt(a: PosV, b: PosV)
    ensures
        !pos_lt(a, b) <==> pos_le(b, a),
{
    lemma_pos_cmp_antisym(a, b);
    lemma_pos_cmp_eq(a, b);
    lemma_pos_cmp_eq(b, a);
}

/// Transitivity of the position order.
pub proof fn lemma_pos_le_trans(a: PosV, b: PosV, c: PosV)
    ensures
        pos_le(a, b) && pos_le(b, c) ==> pos_le(a, c),
        pos_le(a, b) && pos_lt(b, c) ==> pos_lt(a, c),
        pos_lt(a, b) && pos_le(b, c) ==> pos_lt(a, c),
{
    lemma_pos_cmp_eq(a, b);
    lemma_pos_cmp_eq(b, c);
    if pos_lt(a, b) && pos_lt(b, c) {
        lemma_pos_lt_trans(a, b, c);
    }
}


/// Antisymmetry of `pos_le`.
pub proof fn lemma_pos_le_antisym(a: PosV, b: PosV)
    requires
        pos_le(a, b),
        pos_le(b, a),
    ensures
        a == b,
{
    lemma_pos_cmp_antisym(a, b);
    lemma_pos_cmp_eq(a, b);
}

/// On one sequence the order is the offset order.
pub proof fn lemma_pos_lt_same_chrom(a: PosV, b: PosV)
    requires
        a.chrom == b.chrom,
    ensures
        pos_lt(a, b) <==> a.index < b.index,
        pos_le(a, b) <==> a.index <= b.index,
{
    lemma_str_cmp_eq(a.chrom, b.chrom);
}

/// A position between two positions of one sequence lies on that sequence.
pub proof fn lemma_pos_between_chrom(a: PosV, c: PosV, b: PosV)
    requires
        pos_le(a, c),
        pos_lt(c, b),
        a.chrom == b.chrom,
    ensures
        c.chrom == a.chrom,
{
    lemma_str_cmp_eq(c.chrom, a.chrom);
    lemma_str_cmp_antisym(a.chrom, c.chrom);
    lemma_str_cmp_antisym(c.chrom, a.chrom);
    lemma_str_cmp_eq(a.chrom, c.chrom);
    lemma_str_cmp_eq(c.chrom, b.chrom);
    if str_cmp(c.chrom, a.chrom) == Ordering::Less {
        assert(pos_cmp(a, c) == Ordering::Greater);
    } else if str_cmp(c.chrom, a.chrom) == Ordering::Greater {
        assert(str_cmp(c.chrom, b.chrom) == Ordering::Greater);
        assert(pos_cmp(c, b) == Ordering::Greater);
    }
}

/// A position as used by the merge: a sequence name and an offset into it.
/// The derived `Ord` agrees with the hand-written `PartialOrd`: `str`
/// compares byte-wise, and UTF-8 byte order is code-point order.
#[derive(Debug, Ord)]
pub struct ChromPos {
    pub chrom: String,
    pub index: u32,
}

impl View for ChromPos {
    type V = PosV;

    open spec fn view(&self) -> PosV {
        PosV { chrom: self.chrom@, index: self.index as int }
    }
}

impl Clone for ChromPos {
    fn clone(&self) -> (r: Self)
        ensures
            r@ == self@,
    {
        ChromPos { chrom: self.chrom.clone(), index: self.index }
    }
}

/// Exec three-way comparison of two strings, matching `str_cmp`.
pub fn str_three_way(a: &str, b: &str) -> (r: Ordering)
    ensures
        r == str_cmp(a@, b@),
{
    let alen = a.unicode_len();
    let blen = b.unicode_len();
    let mut i: usize = 0;
    loop
        invariant
            i <= alen,
            i <= blen,
            alen == a@.len(),
            blen == b@.len(),
            str_cmp(a@, b@) == str_cmp_from(a@, b@, i as int),
        decreases alen - i,
    {
        if i < alen && i < blen {
            let ca = a.get_char(i);
            let cb = b.get_char(i);
            if ca < cb {
                return Ordering::Less;
            } else if ca > cb {
                return Ordering::Greater;
            }
            i = i + 1;
        } else {
            return if alen < blen {
                Ordering::Less
            } else if alen > blen {
                Ordering::Greater
            } else {
                Ordering::Equal
            };
        }
    }
}

impl PartialEq for ChromPos {
    fn eq(&self, other: &Self) -> (r: bool) {
        self.chrom == other.chrom && self.index == other.index
    }
}

impl vstd::std_specs::cmp::PartialEqSpecImpl for ChromPos {
    open spec fn obeys_eq_spec() -> bool {
        true
    }

    open spec fn eq_spec(&self, other: &Self) -> bool {
        self@ == other@
    }
}

impl Eq for ChromPos {}

impl PartialOrd for ChromPos {
    fn partial_cmp(&self, other: &Self) -> (r: Option<Ordering>) {
        let c = str_three_way(self.chrom.as_str(), other.chrom.as_str());
        proof {
            lemma_pos_cmp_eq(self@, other@);
        }
        match c {
            Ordering::Equal => if self.index < other.index {
                Some(Ordering::Less)
            } else if self.index > other.index {
                Some(Ordering::Greater)
            } else {
                Some(Ordering::Equal)
            },
            Ordering::Less => Some(Ordering::Less),
            Ordering::Greater => Some(Ordering::Greater),
        }
    }
}

impl vstd::std_specs::cmp::PartialOrdSpecImpl for ChromPos {
    open spec fn obeys_partial_cmp_spec() -> bool {
        true
    }

    open spec fn partial_cmp_spec(&self, other: &Self) -> Option<Ordering> {
        Some(pos_cmp(self@, other@))
    }
}

/// A half-open interval `[start, stop)` on one sequence.
#[derive(Debug, PartialEq, Eq)]
pub struct ChromSeg {
    pub chrom: String,
    pub start: u32,
    pub stop: u32,
}

impl View for ChromSeg {
    type V = SegV;

    open spec fn view(&self) -> SegV {
        SegV { chrom: self.chrom@, start: self.start as int, stop: self.stop as int }
    }
}

impl Clone for ChromSeg {
    fn clone(&self) -> (r: Self)
        ensures
            r@ == self@,
    {
        ChromSeg { chrom: self.chrom.clone(), start: self.start, stop: self.stop }
    }
}

impl ChromSeg {
    /// The segment's lower boundary as a position.
    pub fn start_pos(&self) -> (r: ChromPos)
        ensures
            r@ == seg_start(self@),
    {
        ChromPos { chrom: self.chrom.clone(), index: self.start }
    }

    /// The segment's upper boundary as a position.
    pub fn stop_pos(&self) -> (r: ChromPos)
        ensures
            r@ == seg_stop(self@),
    {
        ChromPos { chrom: self.chrom.clone(), index: self.stop }
    }
}

} // verus!

