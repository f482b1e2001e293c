//! The genome size table: sequence names and their lengths, parsed from
//! two-column text lines, kept in file order and looked up by name.

use vstd::prelude::*;
use crate::chrom_geo::lemma_str_cmp_eq;
use crate::text::{fields, u32_parses, dec_val, num_body, split_fields, parse_u32_str};
use core::cmp::Ordering;

verus! {

/// Mathematical value of a `SizesError`.
pub ghost enum SizesErrV {
    WrongFieldCount { lineno: int, n_cols: int },
    InvalidSize { lineno: int, text: Seq<char> },
}

/// Why a genome size file line was rejected, with its 1-based line number:
/// a line without exactly two fields, or a size that is not an unsigned
/// 32-bit number.
#[derive(Debug, PartialEq, Eq, Clone)]
pub enum SizesError {
    WrongFieldCount { lineno: usize, n_cols: usize },
    InvalidSize { lineno: usize, text: String },
}

impl View for SizesError {
    type V = SizesErrV;

    open spec fn view(&self) -> SizesErrV {
        match self {
            SizesError::WrongFieldCount { lineno, n_cols } => SizesErrV::WrongFieldCount {
                lineno: *lineno as int,
                n_cols: *n_cols as int,
            },
            SizesError::InvalidSize { lineno, text } => SizesErrV::InvalidSize {
                lineno: *lineno as int,
                text: text@,
            },
        }
    }
}

/// How the size file parses, read from line `i` on: each line must hold
/// exactly a name and an unsigned 32-bit size; the first bad line wins.
pub open spec fn parse_sizes_from(lines: Seq<Seq<char>>, i: int) -> Result<
    Seq<(Seq<char>, int)>,
    SizesErrV,
>
    decreases lines.len() - i,
{
    if !(0 <= i < lines.len()) {
        Ok(Seq::empty())
    } else {
        let cols = fields(lines[i]);
        if cols.len() != 2 {
            Err(SizesErrV::WrongFieldCount { lineno: i + 1, n_cols: cols.len() as int })
        } else if !u32_parses(cols[1]) {
            Err(SizesErrV::InvalidSize { lineno: i + 1, text: cols[1] })
        } else {
            match parse_sizes_from(lines, i + 1) {
                Err(e) => Err(e),
                Ok(rest) => Ok(seq![(cols[0], dec_val(num_body(cols[1])))] + rest),
            }
        }
    }
}

pub open spec fn parse_sizes(lines: Seq<Seq<char>>) -> Result<Seq<(Seq<char>, int)>, SizesErrV> {
    parse_sizes_from(lines, 0)
}

/// Name lookup in the entry list: the last entry for a name wins, as a
/// repeated name in the file replaces the earlier size.
pub open spec fn lookup(entries: Seq<(Seq<char>, int)>, name: Seq<char>) -> Option<int>
    decreases entries.len(),
{
    if entries.len() == 0 {
        None
    } else if entries.last().0 == name {
        Some(entries.last().1)
    } else {
        lookup(entries.drop_last(), name)
    }
}

/// Mathematical value of a `ChromSizes`.
pub ghost struct SizesV {
    pub filename: Seq<char>,
    pub entries: Seq<(Seq<char>, int)>,
}

/// A genome size table: each sequence name with its length, in file order.
#[derive(Debug)]
pub struct ChromSizes {
    pub filename: String,
    pub sizes: Vec<(String, u32)>,
}

pub open spec fn entries_of(sizes: Seq<(String, u32)>) -> Seq<(Seq<char>, int)> {
    Seq::new(sizes.len(), |i: int| (sizes[i].0@, sizes[i].1 as int))
}

impl View for ChromSizes {
    type V = SizesV;

    open spec fn view(&self) -> SizesV {
        SizesV { filename: self.filename@, entries: entries_of(self.sizes@) }
    }
}

impl ChromSizes {
    /// Parse a size table from the text lines of the named file, exactly
    /// as `parse_sizes` describes.
    pub fn new(filename: &str, lines: &Vec<String>) -> (r: Result<ChromSizes, SizesError>)
        ensures
            parse_sizes(lines.deep_view()) matches Ok(entries) ==> r matches Ok(t) && t@.entries
                == entries && t@.filename == filename@,
            parse_sizes(lines.deep_view()) matches Err(e) ==> r matches Err(se) && se@ == e,
    {
        let ghost dv = lines.deep_view();
        let mut sizes: Vec<(String, u32)> = Vec::new();
        let mut i: usize = 0;
        while i < lines.len()
            invariant
                i <= lines@.len(),
                dv == lines.deep_view(),
                dv.len() == lines@.len(),
                parse_sizes(dv) is Ok <==> parse_sizes_from(dv, i as int) is Ok,
                parse_sizes_from(dv, i as int) matches Err(e) ==> parse_sizes(dv) == Err::<
                    Seq<(Seq<char>, int)>,
                    SizesErrV,
                >(e),
                parse_sizes_from(dv, i as int) matches Ok(rest) ==> parse_sizes(dv) == Ok::<
                    Seq<(Seq<char>, int)>,
                    SizesErrV,
                >(entries_of(sizes@) + rest),
            decreases lines@.len() - i,
        {
            proof {
                assert(dv[i as int] == lines@[i as int]@);
            }
            let cols = split_fields(lines[i].as_str());
            let ghost cv = cols.deep_view();
            if cols.len() != 2 {
                return Err(SizesError::WrongFieldCount { lineno: i + 1, n_cols: cols.len() });
            }
            proof {
                assert(cv[1] == cols@[1]@);
            }
            let size = match parse_u32_str(cols[1].as_str()) {
                Some(v) => v,
                None => {
                    return Err(SizesError::InvalidSize { lineno: i + 1, text: cols[1].clone() });
                },
            };
            let name = cols[0].clone();
            let ghost old_entries = entries_of(sizes@);
            sizes.push((name, size));
            proof {
                assert(entries_of(sizes@) =~= old_entries.push((cv[0], size as int)));
                match parse_sizes_from(dv, i + 1) {
                    Ok(rest) => {
                        assert(old_entries + (seq![(cv[0], size as int)] + rest) =~= entries_of(
                            sizes@,
                        ) + rest);
                    },
                    Err(_) => {},
                }
            }
            i = i + 1;
        }
        proof {
            assert(parse_sizes_from(dv, i as int) == Ok::<Seq<(Seq<char>, int)>, SizesErrV>(
                Seq::empty(),
            ));
            assert(entries_of(sizes@) + Seq::<(Seq<char>, int)>::empty() =~= entries_of(sizes@));
        }
        Ok(ChromSizes { filename: String::from_str(filename), sizes })
    }

    /// Look a sequence name up; the last entry for the name wins.
    pub fn get(&self, name: &str) -> (r: Option<u32>)
        ensures
            r is Some <==> lookup(self@.entries, name@) is Some,
            r matches Some(v) ==> lookup(self@.entries, name@) == Some(v as int),
    {
        let ghost entries = self@.entries;
        let mut k: usize = self.sizes.len();
        proof {
            assert(entries.subrange(0, entries.len() as int) =~= entries);
        }
        while k > 0
            invariant
                k <= self.sizes@.len(),
                entries == entries_of(self.sizes@),
                entries.len() == self.sizes@.len(),
                lookup(entries, name@) == lookup(entries.subrange(0, k as int), name@),
            decreases k,
        {
            k = k - 1;
            let c = crate::chrom_geo::str_three_way(self.sizes[k].0.as_str(), name);
            proof {
                lemma_str_cmp_eq(self.sizes@[k as int].0@, name@);
                assert(entries.subrange(0, k + 1).last() == entries[k as int]);
                assert(entries.subrange(0, k + 1).drop_last() =~= entries.subrange(0, k as int));
            }
            match c {
                Ordering::Equal => {
                    return Some(self.sizes[k].1);
                },
                _ => {},
            }
        }
        proof {
            assert(entries.subrange(0, 0) =~= Seq::<(Seq<char>, int)>::empty());
        }
        None
    }

    /// How many entries the table holds.
    pub fn count(&self) -> (r: usize)
        ensures
            r == self@.entries.len(),
    {
        self.sizes.len()
    }

    /// The entry at `i`, in file order.
    pub fn pair(&self, i: usize) -> (r: (String, u32))
        requires
            i < self@.entries.len(),
        ensures
            r.0@ == self@.entries[i as int].0,
            r.1 as int == self@.entries[i as int].1,
    {
        let p = &self.sizes[i];
        (p.0.clone(), p.1)
    }
}

} // verus!
