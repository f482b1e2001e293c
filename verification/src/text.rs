//! Text utilities shared by the line parsers: whitespace field splitting,
//! decimal `u32` parsing, tab joining, and decimal formatting.

use vstd::prelude::*;

verus! {

/// ASCII whitespace, the separator recognised between fields.
pub open spec fn ws_char(c: char) -> bool {
    c == ' ' || c == '\t' || c == '\n' || c == '\r' || c == '\u{000B}' || c == '\u{000C}'
}

fn is_ws(c: char) -> (r: bool)
    ensures
        r == ws_char(c),
{
    c == ' ' || c == '\t' || c == '\n' || c == '\r' || c == '\u{000B}' || c == '\u{000C}'
}

/// The fields of `s`: maximal runs of non-whitespace characters, scanned
/// from index `i` with `cur` the partially read field.
pub open spec fn fields_from(s: Seq<char>, i: int, cur: Seq<char>) -> Seq<Seq<char>>
    decreases s.len() - i,
{
    if !(0 <= i < s.len()) {
        if cur.len() > 0 {
            seq![cur]
        } else {
            Seq::empty()
        }
    } else if ws_char(s[i]) {
        if cur.len() > 0 {
            seq![cur] + fields_from(s, i + 1, Seq::empty())
        } else {
            fields_from(s, i + 1, Seq::empty())
        }
    } else {
        fields_from(s, i + 1, cur.push(s[i]))
    }
}

/// The whitespace-separated fields of a line.
pub open spec fn fields(s: Seq<char>) -> Seq<Seq<char>> {
    fields_from(s, 0, Seq::empty())
}

/// Split a line into its whitespace-separated fields.
pub fn split_fields(s: &str) -> (r: Vec<String>)
    ensures
        r.deep_view() == fields(s@),
{
    let n = s.unicode_len();
    let mut out: Vec<String> = Vec::new();
    let mut i: usize = 0;
    let mut tok_start: usize = 0;
    let mut in_tok: bool = false;
    while i < n
        invariant
            i <= n,
            n == s@.len(),
            in_tok ==> tok_start < i,
            fields(s@) == out.deep_view() + fields_from(
                s@,
                i as int,
                if in_tok {
                    s@.subrange(tok_start as int, i as int)
                } else {
                    Seq::empty()
                },
            ),
        decreases n - i,
    {
        let ghost cur: Seq<char> = if in_tok {
            s@.subrange(tok_start as int, i as int)
        } else {
            Seq::empty()
        };
        let c = s.get_char(i);
        if is_ws(c) {
            if in_tok {
                let tok = String::from_str(s.substring_char(tok_start, i));
                let ghost old_dv = out.deep_view();
                out.push(tok);
                proof {
                    assert(out.deep_view() =~= old_dv.push(cur));
                    assert(old_dv.push(cur) =~= old_dv + seq![cur]);
                    assert(out.deep_view() + fields_from(s@, i + 1, Seq::empty()) =~= old_dv + (
                    seq![cur] + fields_from(s@, i + 1, Seq::empty())));
                }
                in_tok = false;
            }
        } else {
            if !in_tok {
                in_tok = true;
                tok_start = i;
                proof {
                    assert(s@.subrange(i as int, i + 1) =~= cur.push(s@[i as int]));
                }
            } else {
                proof {
                    assert(s@.subrange(tok_start as int, i + 1) =~= cur.push(s@[i as int]));
                }
            }
        }
        i = i + 1;
    }
    if in_tok {
        let ghost cur: Seq<char> = s@.subrange(tok_start as int, n as int);
        let tok = String::from_str(s.substring_char(tok_start, n));
        let ghost old_dv = out.deep_view();
        out.push(tok);
        proof {
            assert(out.deep_view() =~= old_dv.push(cur));
            assert(old_dv.push(cur) =~= old_dv + seq![cur]);
        }
    } else {
        proof {
            assert(out.deep_view() + Seq::<Seq<char>>::empty() =~= out.deep_view());
        }
    }
    out
}

/// Is `c` a decimal digit?
pub open spec fn digit(c: char) -> bool {
    '0' <= c && c <= '9'
}

/// Numeric value of a digit character.
pub open spec fn digit_val(c: char) -> int {
    c as int - '0' as int
}

/// Value of a digit string read in base ten.
pub open spec fn dec_val(s: Seq<char>) -> int
    decreases s.len(),
{
    if s.len() == 0 {
        0
    } else {
        dec_val(s.drop_last()) * 10 + digit_val(s.last())
    }
}

pub open spec fn all_digits(s: Seq<char>) -> bool {
    forall|i: int| 0 <= i < s.len() ==> digit(#[trigger] s[i])
}

/// The digits of a number, with an optional leading `+` sign stripped.
pub open spec fn num_body(s: Seq<char>) -> Seq<char> {
    if s.len() > 0 && s[0] == '+' {
        s.drop_first()
    } else {
        s
    }
}

/// Does `s` parse as an unsigned 32-bit decimal number?
pub open spec fn u32_parses(s: Seq<char>) -> bool {
    let b = num_body(s);
    b.len() > 0 && all_digits(b) && dec_val(b) <= u32::MAX
}

proof fn lemma_dec_val_nonneg(s: Seq<char>)
    requires
        all_digits(s),
    ensures
        dec_val(s) >= 0,
    decreases s.len(),
{
    if s.len() > 0 {
        assert(all_digits(s.drop_last())) by {
            assert(forall|i: int| 0 <= i < s.len() - 1 ==> s.drop_last()[i] == s[i]);
        }
        lemma_dec_val_nonneg(s.drop_last());
    }
}

/// A digit string's value only grows as more digits are read.
proof fn lemma_dec_val_prefix(s: Seq<char>, k: int)
    requires
        all_digits(s),
        0 <= k <= s.len(),
    ensures
        dec_val(s.subrange(0, k)) >= 0,
        dec_val(s) >= dec_val(s.subrange(0, k)),
    decreases s.len() - k,
{
    assert(all_digits(s.subrange(0, k)));
    lemma_dec_val_nonneg(s.subrange(0, k));
    if k < s.len() {
        lemma_dec_val_prefix(s, k + 1);
        assert(s.subrange(0, k + 1).drop_last() =~= s.subrange(0, k));
        assert(s.subrange(0, k + 1).last() == s[k]);
        assert(dec_val(s.subrange(0, k + 1)) == dec_val(s.subrange(0, k)) * 10 + digit_val(s[k]));
    } else {
        assert(s.subrange(0, k) =~= s);
    }
}

/// Parse a decimal unsigned 32-bit number, with an optional leading `+`;
/// rejects anything else, including values over `u32::MAX`.
pub fn parse_u32_str(s: &str) -> (r: Option<u32>)
    ensures
        r is Some <==> u32_parses(s@),
        r matches Some(v) ==> v == dec_val(num_body(s@)),
{
    let n = s.unicode_len();
    let ghost b = num_body(s@);
    let start: usize = if n > 0 && s.get_char(0) == '+' {
        1
    } else {
        0
    };
    proof {
        assert(b =~= s@.subrange(start as int, n as int));
    }
    if n == start {
        return None;
    }
    let mut acc: u32 = 0;
    let mut j: usize = start;
    while j < n
        invariant
            start <= j <= n,
            n == s@.len(),
            b == num_body(s@),
            b =~= s@.subrange(start as int, n as int),
            all_digits(b.subrange(0, j - start)),
            acc == dec_val(b.subrange(0, j - start)),
        decreases n - j,
    {
        let c = s.get_char(j);
        if c < '0' || c > '9' {
            proof {
                assert(b[j - start] == s@[j as int]);
                assert(!all_digits(b));
            }
            return None;
        }
        let d = (c as u32) - 48;
        proof {
            assert('0' as int == 48);
            assert(d == digit_val(s@[j as int]));
        }
        if acc > (u32::MAX - d) / 10 {
            proof {
                let k = j - start;
                assert(b.subrange(0, k + 1).drop_last() =~= b.subrange(0, k));
                assert(b.subrange(0, k + 1).last() == b[k]);
                assert(dec_val(b.subrange(0, k + 1)) == acc * 10 + d);
                assert(acc * 10 + d > u32::MAX) by (nonlinear_arith)
                    requires
                        acc > (u32::MAX - d) / 10,
                        d < 10,
                ;
                if all_digits(b) {
                    lemma_dec_val_prefix(b, k + 1);
                    assert(dec_val(b) > u32::MAX);
                }
            }
            return None;
        }
        proof {
            assert(acc * 10 + d <= u32::MAX) by (nonlinear_arith)
                requires
                    acc <= (u32::MAX - d) / 10,
                    d < 10,
            ;
            let k = j - start;
            assert(b.subrange(0, k + 1).drop_last() =~= b.subrange(0, k));
            assert(b.subrange(0, k + 1).last() == b[k]);
            assert(all_digits(b.subrange(0, k + 1)));
        }
        acc = acc * 10 + d;
        j = j + 1;
    }
    proof {
        assert(b.subrange(0, n - start) =~= b);
    }
    Some(acc)
}

/// Join character sequences with single tab characters between them.
pub open spec fn join_tab(parts: Seq<Seq<char>>) -> Seq<char>
    decreases parts.len(),
{
    if parts.len() == 0 {
        Seq::empty()
    } else if parts.len() == 1 {
        parts[0]
    } else {
        parts[0] + seq!['\t'] + join_tab(parts.drop_first())
    }
}

/// Appending one more part appends a tab and the part.
proof fn lemma_join_tab_push(parts: Seq<Seq<char>>, x: Seq<char>)
    ensures
        parts.len() == 0 ==> join_tab(parts.push(x)) == x,
        parts.len() > 0 ==> join_tab(parts.push(x)) =~= join_tab(parts) + seq!['\t'] + x,
    decreases parts.len(),
{
    if parts.len() == 0 {
        assert(parts.push(x)[0] == x);
    } else if parts.len() == 1 {
        assert(parts.push(x).drop_first() =~= seq![x]);
        assert(join_tab(seq![x]) == seq![x][0]);
    } else {
        lemma_join_tab_push(parts.drop_first(), x);
        assert(parts.push(x).drop_first() =~= parts.drop_first().push(x));
        assert(join_tab(parts.push(x)) == parts[0] + seq!['\t'] + join_tab(
            parts.drop_first().push(x),
        ));
    }
}

/// Join the fields of `v` from index `start` on, separated by tabs.
pub fn join_tab_from(v: &Vec<String>, start: usize) -> (r: String)
    requires
        start <= v@.len(),
    ensures
        r@ == join_tab(v.deep_view().skip(start as int)),
{
    let ghost dv = v.deep_view();
    let mut out = String::new();
    let mut k: usize = start;
    while k < v.len()
        invariant
            start <= k <= v@.len(),
            dv == v.deep_view(),
            dv.len() == v@.len(),
            out@ == join_tab(dv.subrange(start as int, k as int)),
        decreases v@.len() - k,
    {
        proof {
            lemma_join_tab_push(dv.subrange(start as int, k as int), dv[k as int]);
            assert(dv.subrange(start as int, k + 1) =~= dv.subrange(start as int, k as int).push(
                dv[k as int],
            ));
            assert(dv[k as int] == v@[k as int]@);
            reveal_strlit("\t");
            assert("\t"@ =~= seq!['\t']);
        }
        if k > start {
            out.append("\t");
        }
        out.append(v[k].as_str());
        proof {
            assert(out@ =~= join_tab(dv.subrange(start as int, k + 1)));
        }
        k = k + 1;
    }
    proof {
        assert(dv.subrange(start as int, dv.len() as int) =~= dv.skip(start as int));
    }
    out
}

/// Digit character for a value below ten.
pub open spec fn digit_char(d: int) -> char {
    if d == 0 {
        '0'
    } else if d == 1 {
        '1'
    } else if d == 2 {
        '2'
    } else if d == 3 {
        '3'
    } else if d == 4 {
        '4'
    } else if d == 5 {
        '5'
    } else if d == 6 {
        '6'
    } else if d == 7 {
        '7'
    } else if d == 8 {
        '8'
    } else {
        '9'
    }
}

/// Decimal digits of a non-negative number, most significant first.
pub open spec fn dec_str(n: int) -> Seq<char>
    decreases n,
{
    if n < 10 {
        seq![digit_char(n)]
    } else {
        dec_str(n / 10).push(digit_char(n % 10))
    }
}

fn digit_string(d: u32) -> (r: String)
    requires
        d < 10,
    ensures
        r@ == seq![digit_char(d as int)],
{
    let s: &str = if d == 0 {
        "0"
    } else if d == 1 {
        "1"
    } else if d == 2 {
        "2"
    } else if d == 3 {
        "3"
    } else if d == 4 {
        "4"
    } else if d == 5 {
        "5"
    } else if d == 6 {
        "6"
    } else if d == 7 {
        "7"
    } else if d == 8 {
        "8"
    } else {
        "9"
    };
    proof {
        reveal_strlit("0");
        reveal_strlit("1");
        reveal_strlit("2");
        reveal_strlit("3");
        reveal_strlit("4");
        reveal_strlit("5");
        reveal_strlit("6");
        reveal_strlit("7");
        reveal_strlit("8");
        reveal_strlit("9");
        assert(s@ =~= seq![digit_char(d as int)]);
    }
    String::from_str(s)
}

/// Format a number in decimal.
pub fn dec_string(n: u32) -> (r: String)
    ensures
        r@ == dec_str(n as int),
    decreases n,
{
    if n < 10 {
        digit_string(n)
    } else {
        let mut s = dec_string(n / 10);
        let d = digit_string(n % 10);
        s.append(d.as_str());
        proof {
            assert(s@ =~= dec_str((n / 10) as int).push(digit_char((n % 10) as int)));
        }
        s
    }
}

} // verus!
