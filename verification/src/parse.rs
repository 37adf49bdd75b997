//! Byte-level parsing of the partition input format.
//!
//! The input is a text file: one line per node, columns separated by
//! whitespace. The first column is the node identifier, and every further
//! column names the module path (colon-separated, such as `1:2:3`) that one
//! partition assigns to the node. Lines starting with `#` are comments.
//!
//! Text is handled as bytes: lines end at a line feed (an immediately
//! preceding carriage return is dropped), and columns are separated by runs
//! of ASCII whitespace.

use vstd::prelude::*;

verus! {

/// ASCII whitespace: space, tab, line feed, vertical tab, form feed,
/// carriage return.
pub open spec fn is_space(b: u8) -> bool {
    b == 32 || b == 9 || b == 10 || b == 11 || b == 12 || b == 13
}

/// The position of the first byte satisfying `pred`, or `-1` if none does.
pub open spec fn first_in(s: Seq<u8>, pred: spec_fn(u8) -> bool) -> int
    decreases s.len(),
{
    if s.len() == 0 {
        -1
    } else if pred(s[0]) {
        0
    } else {
        let r = first_in(s.drop_first(), pred);
        if r < 0 {
            -1
        } else {
            r + 1
        }
    }
}

/// The first hit lies within the sequence, at a hit position.
pub proof fn lemma_first_in_range(s: Seq<u8>, pred: spec_fn(u8) -> bool)
    ensures
        -1 <= first_in(s, pred) < s.len() || (s.len() == 0 && first_in(s, pred) == -1),
        first_in(s, pred) >= 0 ==> pred(s[first_in(s, pred)]),
    decreases s.len(),
{
    if s.len() == 0 {
    } else if pred(s[0]) {
    } else {
        lemma_first_in_range(s.drop_first(), pred);
    }
}

/// A scan that saw no hit below `d` and one at `d` (or ran out) finds the
/// first hit there.
pub proof fn lemma_first_in(s: Seq<u8>, pred: spec_fn(u8) -> bool, d: int)
    requires
        0 <= d <= s.len(),
        forall|k: int| 0 <= k < d ==> !pred(s[k]),
        d == s.len() || pred(s[d]),
    ensures
        first_in(s, pred) == if d == s.len() {
            -1int
        } else {
            d
        },
    decreases s.len(),
{
    if s.len() == 0 {
    } else if pred(s[0]) {
        assert(d == 0);
    } else {
        assert(d > 0 || d < s.len());
        assert(d >= 1);
        lemma_first_in(s.drop_first(), pred, d - 1);
    }
}

/// A line with its trailing carriage return dropped.
pub open spec fn strip_cr(l: Seq<u8>) -> Seq<u8> {
    if l.len() > 0 && l.last() == 13 {
        l.drop_last()
    } else {
        l
    }
}

/// The lines of `s`: split at line feeds, a carriage return before the line
/// feed dropped, and no final empty line when `s` ends with a line feed.
pub open spec fn spec_lines(s: Seq<u8>) -> Seq<Seq<u8>>
    decreases s.len(),
    via spec_lines_decreases
{
    if s.len() == 0 {
        Seq::empty()
    } else {
        let i = first_in(s, |b: u8| b == 10);
        if i < 0 {
            seq![s]
        } else {
            seq![strip_cr(s.take(i))] + spec_lines(s.skip(i + 1))
        }
    }
}

#[via_fn]
proof fn spec_lines_decreases(s: Seq<u8>) {
    if s.len() != 0 {
        lemma_first_in_range(s, |b: u8| b == 10);
    }
}

/// The whitespace-separated columns of `s`, none of them empty.
pub open spec fn spec_cols(s: Seq<u8>) -> Seq<Seq<u8>>
    decreases s.len(),
    via spec_cols_decreases
{
    if s.len() == 0 {
        Seq::empty()
    } else if is_space(s[0]) {
        spec_cols(s.drop_first())
    } else {
        let d = first_in(s, |b: u8| is_space(b));
        if d < 0 {
            seq![s]
        } else {
            seq![s.take(d)] + spec_cols(s.skip(d))
        }
    }
}

#[via_fn]
proof fn spec_cols_decreases(s: Seq<u8>) {
    if s.len() != 0 && !is_space(s[0]) {
        lemma_first_in_range(s, |b: u8| is_space(b));
    }
}

/// Whether every byte of `s` is a decimal digit.
pub open spec fn all_digits(s: Seq<u8>) -> bool {
    forall|k: int| 0 <= k < s.len() ==> 48 <= #[trigger] s[k] <= 57
}

/// The value of a digit string.
pub open spec fn digits_val(s: Seq<u8>) -> int
    decreases s.len(),
{
    if s.len() == 0 {
        0
    } else {
        10 * digits_val(s.drop_last()) + (s.last() - 48)
    }
}

/// What Rust's `u32` parsing accepts: an optional leading `+`, then at least
/// one digit, valued within `u32`.
pub open spec fn spec_parse_u32(s: Seq<u8>) -> Option<u32> {
    let t = if s.len() > 0 && s[0] == 43 {
        s.drop_first()
    } else {
        s
    };
    if t.len() > 0 && all_digits(t) && digits_val(t) <= u32::MAX {
        Option::Some(digits_val(t) as u32)
    } else {
        Option::None
    }
}

/// Digit strings have non-negative values.
proof fn lemma_digits_val_nonneg(s: Seq<u8>)
    requires
        all_digits(s),
    ensures
        digits_val(s) >= 0,
    decreases s.len(),
{
    if s.len() == 0 {
    } else {
        lemma_digits_val_nonneg(s.drop_last());
        assert(10 * digits_val(s.drop_last()) >= 0) by (nonlinear_arith)
            requires
                digits_val(s.drop_last()) >= 0,
        ;
    }
}

/// Extending a digit string never lowers its value.
proof fn lemma_digits_val_monotone(s: Seq<u8>, i: int)
    requires
        all_digits(s),
        0 <= i <= s.len(),
    ensures
        digits_val(s.take(i)) <= digits_val(s),
    decreases s.len() - i,
{
    if i == s.len() {
        assert(s.take(i) =~= s);
    } else {
        lemma_digits_val_monotone(s, i + 1);
        assert(s.take(i + 1).drop_last() =~= s.take(i));
        assert(all_digits(s.take(i)));
        lemma_digits_val_nonneg(s.take(i));
        assert(digits_val(s.take(i)) <= 10 * digits_val(s.take(i)) + (s[i] - 48))
            by (nonlinear_arith)
            requires
                digits_val(s.take(i)) >= 0,
                48 <= s[i] <= 57,
        ;
    }
}

/// Parses a decimal `u32` exactly as Rust's `str::parse::<u32>` does.
pub fn parse_u32(col: &[u8]) -> (r: Option<u32>)
    ensures
        r == spec_parse_u32(col@),
{
    let n = col.len();
    let start: usize = if n > 0 && col[0] == 43 {
        1
    } else {
        0
    };
    let ghost t = if col@.len() > 0 && col@[0] == 43 {
        col@.drop_first()
    } else {
        col@
    };
    proof {
        assert(t =~= col@.skip(start as int));
    }
    if start == n {
        return Option::None;
    }
    let mut val: u32 = 0;
    let mut j = start;
    proof {
        assert(t.take(0) =~= Seq::<u8>::empty());
    }
    while j < n
        invariant
            start <= j <= n,
            n == col@.len(),
            t == col@.skip(start as int),
            t == (if col@.len() > 0 && col@[0] == 43 {
                col@.drop_first()
            } else {
                col@
            }),
            t.len() == n - start,
            forall|k: int| 0 <= k < j - start ==> t[k] == col@[k + start],
            all_digits(t.take(j - start)),
            val == digits_val(t.take(j - start)),
        decreases n - j,
    {
        let b = col[j];
        proof {
            assert(t[j - start] == col@[j as int]);
        }
        if b < 48 || b > 57 {
            proof {
                assert(!all_digits(t));
            }
            return Option::None;
        }
        let d = (b - 48) as u32;
        proof {
            assert(t.take(j - start + 1).drop_last() =~= t.take(j - start));
            assert(digits_val(t.take(j - start + 1)) == 10 * (val as int) + d);
        }
        if val > (u32::MAX - d) / 10 {
            proof {
                lemma_digits_val_nonneg(t.take(j - start));
                assert(10 * (val as int) + d > u32::MAX) by (nonlinear_arith)
                    requires
                        val > (0xFFFF_FFFFu32 - d) / 10,
                        0 <= d <= 9,
                        val >= 0,
                ;
                if all_digits(t) && digits_val(t) <= u32::MAX {
                    lemma_digits_val_monotone(t, j - start + 1);
                    assert(all_digits(t.take(j - start + 1)));
                    assert(false);
                }
            }
            return Option::None;
        }
        proof {
            assert(10 * (val as int) + d <= u32::MAX) by (nonlinear_arith)
                requires
                    val <= (0xFFFF_FFFFu32 - d) / 10,
                    0 <= d <= 9,
                    val >= 0,
            ;
        }
        val = val * 10 + d;
        j = j + 1;
    }
    proof {
        assert(t.take(n - start) =~= t);
        lemma_digits_val_nonneg(t);
    }
    Option::Some(val)
}

/// Copies `s[from..to]` into a fresh vector.
pub fn sub_slice(s: &[u8], from: usize, to: usize) -> (r: Vec<u8>)
    requires
        from <= to <= s@.len(),
    ensures
        r@ == s@.subrange(from as int, to as int),
{
    let mut r: Vec<u8> = Vec::new();
    let mut i = from;
    while i < to
        invariant
            from <= i <= to <= s@.len(),
            r@ =~= s@.subrange(from as int, i as int),
        decreases to - i,
    {
        r.push(s[i]);
        proof {
            assert(r@ =~= s@.subrange(from as int, i + 1));
        }
        i = i + 1;
    }
    r
}

/// The byte views of a list of byte vectors.
pub open spec fn views_of_bytes(v: Seq<Vec<u8>>) -> Seq<Seq<u8>> {
    v.map_values(|b: Vec<u8>| b@)
}

/// Splits the input into lines, as [`spec_lines`] describes.
pub fn split_lines(s: &[u8]) -> (r: Vec<Vec<u8>>)
    ensures
        views_of_bytes(r@) == spec_lines(s@),
{
    let n = s.len();
    let mut r: Vec<Vec<u8>> = Vec::new();
    let mut start: usize = 0;
    proof {
        assert(views_of_bytes(r@) =~= Seq::<Seq<u8>>::empty());
        assert(s@.skip(0) =~= s@);
    }
    while start < n
        invariant
            start <= n,
            n == s@.len(),
            views_of_bytes(r@) + spec_lines(s@.skip(start as int)) =~= spec_lines(s@),
        decreases n - start,
    {
        let ghost rest = s@.skip(start as int);
        let mut j = start;
        while j < n && s[j] != 10
            invariant
                start <= j <= n,
                n == s@.len(),
                forall|k: int| start <= k < j ==> s@[k] != 10,
            decreases n - j,
        {
            j = j + 1;
        }
        proof {
            assert forall|k: int| 0 <= k < j - start implies !((|b: u8| b == 10)(rest[k])) by {
                assert(rest[k] == s@[k + start]);
            }
            if j < n {
                assert((|b: u8| b == 10)(rest[j - start]));
            }
            lemma_first_in(rest, |b: u8| b == 10, j - start);
        }
        // the line body, with a carriage return before the line feed dropped
        let end = if j < n && j > start && s[j - 1] == 13 {
            j - 1
        } else {
            j
        };
        let line = sub_slice(s, start, end);
        r.push(line);
        if j == n {
            proof {
                assert(line@ =~= rest);
                assert(spec_lines(rest) =~= seq![rest]);
                assert(views_of_bytes(r@) =~= views_of_bytes(r@.drop_last()) + seq![line@]);
            }
            start = n;
        } else {
            proof {
                assert(rest.take(j - start) =~= s@.subrange(start as int, j as int));
                assert(line@ =~= strip_cr(rest.take(j - start))) by {
                    if j > start && s@[j - 1] == 13 {
                        assert(rest.take(j - start).last() == 13);
                        assert(line@ =~= rest.take(j - start).drop_last());
                    } else {
                    }
                }
                assert(spec_lines(rest) =~= seq![strip_cr(rest.take(j - start))] + spec_lines(
                    rest.skip(j - start + 1),
                ));
                assert(rest.skip(j - start + 1) =~= s@.skip(j + 1));
                assert(views_of_bytes(r@) =~= views_of_bytes(r@.drop_last()) + seq![line@]);
            }
            start = j + 1;
        }
    }
    proof {
        assert(spec_lines(s@.skip(n as int)) =~= Seq::<Seq<u8>>::empty()) by {
            assert(s@.skip(n as int) =~= Seq::<u8>::empty());
        }
        assert(views_of_bytes(r@) + Seq::<Seq<u8>>::empty() =~= views_of_bytes(r@));
    }
    r
}

/// Splits a line into whitespace-separated columns, as [`spec_cols`]
/// describes.
pub fn split_columns(s: &[u8]) -> (r: Vec<Vec<u8>>)
    ensures
        views_of_bytes(r@) == spec_cols(s@),
{
    let n = s.len();
    let mut r: Vec<Vec<u8>> = Vec::new();
    let mut i: usize = 0;
    proof {
        assert(views_of_bytes(r@) =~= Seq::<Seq<u8>>::empty());
        assert(s@.skip(0) =~= s@);
    }
    while i < n
        invariant
            i <= n,
            n == s@.len(),
            views_of_bytes(r@) + spec_cols(s@.skip(i as int)) =~= spec_cols(s@),
        decreases n - i,
    {
        let b = s[i];
        if b == 32 || b == 9 || b == 10 || b == 11 || b == 12 || b == 13 {
            proof {
                assert(s@.skip(i as int).drop_first() =~= s@.skip(i + 1));
            }
            i = i + 1;
        } else {
            let ghost rest = s@.skip(i as int);
            let mut j = i + 1;
            while j < n && !(s[j] == 32 || s[j] == 9 || s[j] == 10 || s[j] == 11 || s[j] == 12
                || s[j] == 13)
                invariant
                    i < j <= n,
                    n == s@.len(),
                    forall|k: int| i <= k < j ==> !is_space(s@[k]),
                decreases n - j,
            {
                j = j + 1;
            }
            proof {
                assert forall|k: int| 0 <= k < j - i implies !((|bb: u8| is_space(bb))(rest[k])) by {
                    assert(rest[k] == s@[k + i]);
                }
                if j < n {
                    assert((|bb: u8| is_space(bb))(rest[j - i]));
                }
                lemma_first_in(rest, |bb: u8| is_space(bb), j - i);
            }
            let col = sub_slice(s, i, j);
            r.push(col);
            proof {
                assert(col@ =~= rest.take(j - i));
                assert(views_of_bytes(r@) =~= views_of_bytes(r@.drop_last()) + seq![col@]);
                if j == n {
                    assert(rest.take(j - i) =~= rest);
                    assert(spec_cols(rest) =~= seq![rest]);
                    assert(s@.skip(n as int) =~= Seq::<u8>::empty());
                } else {
                    assert(spec_cols(rest) =~= seq![rest.take(j - i)] + spec_cols(
                        rest.skip(j - i),
                    ));
                    assert(rest.skip(j - i) =~= s@.skip(j as int));
                }
            }
            i = j;
        }
    }
    proof {
        assert(spec_cols(s@.skip(n as int)) =~= Seq::<Seq<u8>>::empty()) by {
            assert(s@.skip(n as int) =~= Seq::<u8>::empty());
        }
        assert(views_of_bytes(r@) + Seq::<Seq<u8>>::empty() =~= views_of_bytes(r@));
    }
    r
}

/// The prefixes of a module path that end just before each colon.
pub open spec fn colon_prefixes(s: Seq<u8>) -> Seq<Seq<u8>>
    decreases s.len(),
{
    if s.len() == 0 {
        Seq::empty()
    } else {
        let r = colon_prefixes(s.drop_last());
        if s.last() == 58 {
            r.push(s.drop_last())
        } else {
            r
        }
    }
}

/// Every hierarchy level a module path names: for `1:2:3` the paths `1`,
/// `1:2` and `1:2:3`, in that order.
pub open spec fn spec_path_prefixes(s: Seq<u8>) -> Seq<Seq<u8>> {
    colon_prefixes(s).push(s)
}

/// Lists the path of every hierarchy level of a module path, as
/// [`spec_path_prefixes`] describes.
pub fn path_prefixes(s: &[u8]) -> (r: Vec<Vec<u8>>)
    ensures
        views_of_bytes(r@) == spec_path_prefixes(s@),
{
    let n = s.len();
    let mut r: Vec<Vec<u8>> = Vec::new();
    proof {
        assert(s@.take(0) =~= Seq::<u8>::empty());
        assert(views_of_bytes(r@) =~= colon_prefixes(s@.take(0)));
    }
    for p in 0..n
        invariant
            n == s@.len(),
            views_of_bytes(r@) == colon_prefixes(s@.take(p as int)),
    {
        proof {
            assert(s@.take(p + 1).drop_last() =~= s@.take(p as int));
            assert(s@.take(p + 1).last() == s@[p as int]);
        }
        if s[p] == 58 {
            let pre = sub_slice(s, 0, p);
            proof {
                assert(pre@ =~= s@.take(p as int));
            }
            r.push(pre);
            proof {
                assert(views_of_bytes(r@) =~= views_of_bytes(r@.drop_last()).push(pre@));
            }
        }
    }
    let whole = sub_slice(s, 0, n);
    proof {
        assert(whole@ =~= s@);
        assert(s@.take(n as int) =~= s@);
    }
    r.push(whole);
    proof {
        assert(views_of_bytes(r@) =~= views_of_bytes(r@.drop_last()).push(s@));
    }
    r
}

} // verus!
