//! Parsing one map row: space-separated integer tokens, where a negative
//! value denotes a blocked cell and a non-negative value a weighted cell.
//! Malformed tokens — empty, non-numeric, or out of the signed 64-bit range
//! the loader accepts — are silently skipped.

use vstd::prelude::*;
use crate::grid::Block;

verus! {

/// ASCII decimal digit.
pub open spec fn is_digit(b: u8) -> bool {
    48 <= b && b <= 57
}

/// The value of a digit string read in base ten.
pub open spec fn digits_val(s: Seq<u8>) -> int
    decreases s.len(),
{
    if s.len() == 0 {
        0
    } else {
        digits_val(s.drop_last()) * 10 + (s.last() - 48)
    }
}

/// Every byte is a decimal digit.
pub open spec fn all_digits(s: Seq<u8>) -> bool {
    forall|i: int| 0 <= i < s.len() ==> is_digit(#[trigger] s[i])
}

/// A digit string never reads below zero.
proof fn lemma_digits_val_nonneg(s: Seq<u8>)
    requires
        all_digits(s),
    ensures
        digits_val(s) >= 0,
    decreases s.len(),
{
    if s.len() > 0 {
        assert(all_digits(s.drop_last()));
        lemma_digits_val_nonneg(s.drop_last());
        assert(digits_val(s.drop_last()) * 10 >= 0) by (nonlinear_arith)
            requires
                digits_val(s.drop_last()) >= 0,
        ;
    }
}

/// The digit part of a token: what follows an optional leading sign.
pub open spec fn token_digits(t: Seq<u8>) -> Seq<u8> {
    if t.len() > 0 && (t[0] == 43 || t[0] == 45) {
        t.skip(1)
    } else {
        t
    }
}

/// The token carries a leading minus sign.
pub open spec fn token_negative(t: Seq<u8>) -> bool {
    t.len() > 0 && t[0] == 45
}

/// A token parses: an optional sign, at least one digit, nothing else, and a
/// magnitude within the signed 64-bit range (and, for a weight, within the
/// machine word that stores it).
pub open spec fn token_valid(t: Seq<u8>) -> bool {
    let d = token_digits(t);
    &&& d.len() > 0
    &&& all_digits(d)
    &&& (if token_negative(t) {
        digits_val(d) <= 0x8000000000000000
    } else {
        digits_val(d) <= 0x7fffffffffffffff && digits_val(d) <= usize::MAX
    })
}

/// The cell a valid token denotes: blocked for a strictly negative value,
/// otherwise weighted by the value, never flagged.
pub open spec fn token_cell(t: Seq<u8>) -> Block {
    if token_negative(t) && digits_val(token_digits(t)) > 0 {
        Block::Blocked
    } else {
        Block::Weighted { weight: digits_val(token_digits(t)) as usize, on_path: false }
    }
}

/// Index of the first space in `s`, or its length when none occurs.
pub open spec fn first_space(s: Seq<u8>) -> int
    decreases s.len(),
{
    if s.len() == 0 {
        0
    } else if s[0] == 32 {
        0
    } else {
        1 + first_space(s.skip(1))
    }
}

/// Pins `first_space` to a scanned position: no space before `j`, and a
/// space (or the end) at `j`.
proof fn lemma_first_space_at(s: Seq<u8>, j: int)
    requires
        0 <= j <= s.len(),
        forall|i: int| 0 <= i < j ==> s[i] != 32,
        j == s.len() || s[j] == 32,
    ensures
        first_space(s) == j,
    decreases s.len(),
{
    if s.len() == 0 {
    } else if s[0] == 32 {
        assert(j == 0);
    } else {
        assert(j >= 1);
        lemma_first_space_at(s.skip(1), j - 1);
    }
}

/// The cells a whole row of text denotes: tokens split on single spaces, in
/// order, valid ones kept and malformed ones skipped.
pub open spec fn chop_spec(s: Seq<u8>) -> Seq<Block>
    decreases s.len(),
{
    if s.len() == 0 {
        Seq::empty()
    } else {
        let i = first_space(s);
        let tok = s.take(i);
        let blocks = if token_valid(tok) {
            seq![token_cell(tok)]
        } else {
            Seq::empty()
        };
        if i < 0 || i >= s.len() {
            blocks
        } else {
            blocks + chop_spec(s.skip(i + 1))
        }
    }
}

/// Parses the token at `line[start..end]`, or `None` when it is malformed.
fn parse_token(line: &Vec<u8>, start: usize, end: usize) -> (r: Option<Block>)
    requires
        start <= end <= line@.len(),
    ensures
        ({
            let t = line@.subrange(start as int, end as int);
            r == if token_valid(t) {
                Some(token_cell(t))
            } else {
                None::<Block>
            }
        }),
{
    let ghost t = line@.subrange(start as int, end as int);
    if start == end {
        return None;
    }
    let first = line[start];
    let neg = first == 45;
    let ds: usize = if first == 43 || first == 45 {
        start + 1
    } else {
        start
    };
    proof {
        assert(token_digits(t) =~= line@.subrange(ds as int, end as int));
    }
    if ds == end {
        return None;
    }
    let bound: u64 = if neg {
        9223372036854775808
    } else {
        9223372036854775807
    };
    let mut acc: u64 = 0;
    let mut overflow = false;
    let mut i: usize = ds;
    proof {
        assert(line@.subrange(ds as int, ds as int) =~= Seq::<u8>::empty());
    }
    while i < end
        invariant
            start <= ds <= i <= end,
            end <= line@.len(),
            t == line@.subrange(start as int, end as int),
            token_digits(t) == line@.subrange(ds as int, end as int),
            neg == token_negative(t),
            bound == if neg {
                0x8000000000000000u64
            } else {
                0x7fffffffffffffffu64
            },
            all_digits(line@.subrange(ds as int, i as int)),
            !overflow ==> acc == digits_val(line@.subrange(ds as int, i as int)) && acc <= bound,
            overflow ==> digits_val(line@.subrange(ds as int, i as int)) > bound,
        decreases end - i,
    {
        let b = line[i];
        if b < 48 || b > 57 {
            proof {
                assert(line@.subrange(ds as int, end as int)[i - ds] == b);
                assert(!all_digits(line@.subrange(ds as int, end as int)));
            }
            return None;
        }
        let d = (b - 48) as u64;
        let ghost prefix = line@.subrange(ds as int, i as int);
        let ghost prefix1 = line@.subrange(ds as int, i + 1 as int);
        proof {
            assert(prefix1.drop_last() =~= prefix);
            assert(prefix1.last() == b);
            assert(digits_val(prefix1) == digits_val(prefix) * 10 + d);
            assert(all_digits(prefix1));
        }
        if overflow {
            proof {
                lemma_digits_val_nonneg(prefix);
                assert(digits_val(prefix1) > bound) by (nonlinear_arith)
                    requires
                        digits_val(prefix1) == digits_val(prefix) * 10 + d,
                        digits_val(prefix) > bound,
                        d >= 0,
                        bound >= 0,
                ;
            }
        } else {
            if acc > (bound - d) / 10 {
                overflow = true;
                proof {
                    assert(digits_val(prefix1) > bound) by (nonlinear_arith)
                        requires
                            digits_val(prefix1) == digits_val(prefix) * 10 + d,
                            digits_val(prefix) == acc,
                            acc > (bound - d) / 10,
                            0 <= d <= 9,
                            d <= bound,
                    ;
                }
            } else {
                proof {
                    assert(acc * 10 + d <= bound) by (nonlinear_arith)
                        requires
                            acc <= (bound - d) / 10,
                            0 <= d <= 9,
                            d <= bound,
                            acc >= 0,
                    ;
                }
                acc = acc * 10 + d;
            }
        }
        i = i + 1;
    }
    if overflow {
        return None;
    }
    if neg {
        if acc > 0 {
            Some(Block::Blocked)
        } else {
            Some(Block::Weighted { weight: 0, on_path: false })
        }
    } else {
        if acc <= usize::MAX as u64 {
            Some(Block::Weighted { weight: acc as usize, on_path: false })
        } else {
            None
        }
    }
}

/// Parses one row of map text into its cells, skipping malformed tokens, as
/// the map loader does.
pub fn chop_line(line: &Vec<u8>) -> (r: Vec<Block>)
    ensures
        r@ == chop_spec(line@),
{
    let len = line.len();
    let mut res: Vec<Block> = Vec::new();
    let mut start: usize = 0;
    let mut done = false;
    proof {
        assert(line@.skip(0) =~= line@);
    }
    while !done
        invariant
            len == line@.len(),
            start <= len,
            chop_spec(line@) =~= res@ + if !done {
                chop_spec(line@.skip(start as int))
            } else {
                Seq::<Block>::empty()
            },
        decreases len - start, if done {
            0int
        } else {
            1int
        },
    {
        let ghost rem = line@.skip(start as int);
        let mut end: usize = start;
        while end < len && line[end] != 32
            invariant
                start <= end <= len,
                len == line@.len(),
                forall|i: int| start <= i < end ==> line@[i] != 32,
            decreases len - end,
        {
            end = end + 1;
        }
        proof {
            assert forall|i: int| 0 <= i < end - start implies rem[i] != 32 by {
                assert(rem[i] == line@[start + i]);
            }
            if (end as int) < len {
                assert(rem[end - start] == line@[end as int]);
            }
            lemma_first_space_at(rem, end - start as int);
            assert(rem.take(end - start as int) =~= line@.subrange(start as int, end as int));
        }
        let cell = parse_token(line, start, end);
        match cell {
            Some(c) => {
                res.push(c);
            },
            None => {},
        }
        if end == len {
            done = true;
        } else {
            proof {
                assert(rem.skip(end - start + 1 as int) =~= line@.skip(end + 1 as int));
            }
            start = end + 1;
        }
    }
        res
}

} // verus!
