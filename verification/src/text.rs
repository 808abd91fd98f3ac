//! Character-sequence utilities: locating a character, comparing a range
//! against a literal, and splitting a text into its lines.

use vstd::prelude::*;
use vstd::string::StrSliceExecFns;

verus! {

/// Index of the first occurrence of `c` in `s`, or `s.len()` when `c` does
/// not occur.
pub open spec fn find_ch(s: Seq<char>, c: char) -> int
    decreases s.len(),
{
    if s.len() == 0 {
        0
    } else if s[0] == c {
        0
    } else {
        1 + find_ch(s.drop_first(), c)
    }
}

/// A position with no match before it, and a match at it or the end behind
/// it, is exactly `find_ch`.
pub proof fn lemma_find_ch_is(s: Seq<char>, c: char, k: int)
    requires
        0 <= k <= s.len(),
        forall|j: int| 0 <= j < k ==> s[j] != c,
        k < s.len() ==> s[k] == c,
    ensures
        find_ch(s, c) == k,
    decreases s.len(),
{
    if s.len() == 0 {
    } else if s[0] == c {
        assert(k == 0);
    } else {
        assert(s[0] != c);
        assert(k > 0) by {
            if k == 0 {
                assert(s[0] == c);
            }
        }
        assert forall|j: int| 0 <= j < k - 1 implies s.drop_first()[j] != c by {
            assert(s[j + 1] != c);
        }
        lemma_find_ch_is(s.drop_first(), c, k - 1);
    }
}

/// The characters of `s`, in order, as a vector.
pub fn to_chars(s: &str) -> (cs: Vec<char>)
    ensures
        cs@ == s@,
{
    let n = s.unicode_len();
    let mut cs: Vec<char> = Vec::new();
    let mut i: usize = 0;
    while i < n
        invariant
            n == s@.len(),
            i <= n,
            cs@ == s@.subrange(0, i as int),
        decreases n - i,
    {
        let c = s.get_char(i);
        cs.push(c);
        i = i + 1;
        proof {
            assert(cs@ =~= s@.subrange(0, i as int));
        }
    }
    proof {
        assert(cs@ =~= s@);
    }
    cs
}

/// Whether the characters of `cs` in `[from, to)` are exactly the characters
/// of `lit`.
pub fn range_eq_lit(cs: &Vec<char>, from: usize, to: usize, lit: &str) -> (r: bool)
    requires
        from <= to <= cs@.len(),
    ensures
        r == (cs@.subrange(from as int, to as int) == lit@),
{
    let ghost sub = cs@.subrange(from as int, to as int);
    let m = lit.unicode_len();
    if to - from != m {
        proof {
            assert(sub.len() != lit@.len());
        }
        return false;
    }
    let mut j: usize = 0;
    while j < m
        invariant
            m == lit@.len(),
            j <= m,
            from <= to <= cs@.len(),
            to - from == m,
            sub == cs@.subrange(from as int, to as int),
            forall|t: int| 0 <= t < j ==> sub[t] == lit@[t],
        decreases m - j,
    {
        let c = cs[from + j];
        if c != lit.get_char(j) {
            proof {
                assert(sub[j as int] != lit@[j as int]);
            }
            return false;
        }
        j = j + 1;
    }
    proof {
        assert(sub =~= lit@);
    }
    true
}

/// First position of `c` in `cs` within `[from, to)`, or `to` when `c` does
/// not occur there, stated through `find_ch` on that range.
pub fn find_in_range(cs: &Vec<char>, from: usize, to: usize, c: char) -> (r: usize)
    requires
        from <= to <= cs@.len(),
    ensures
        from <= r <= to,
        r - from == find_ch(cs@.subrange(from as int, to as int), c),
{
    let ghost sub = cs@.subrange(from as int, to as int);
    let mut j: usize = from;
    while j < to
        invariant
            from <= j <= to <= cs@.len(),
            sub == cs@.subrange(from as int, to as int),
            forall|t: int| from <= t < j ==> cs@[t] != c,
        decreases to - j,
    {
        if cs[j] == c {
            proof {
                assert forall|t: int| 0 <= t < j - from implies sub[t] != c by {
                    assert(sub[t] == cs@[from + t]);
                }
                assert(sub[j - from] == c);
                lemma_find_ch_is(sub, c, j - from);
            }
            return j;
        }
        j = j + 1;
    }
    proof {
        assert forall|t: int| 0 <= t < to - from implies sub[t] != c by {
            assert(sub[t] == cs@[from + t]);
        }
        lemma_find_ch_is(sub, c, (to - from) as int);
    }
    to
}

/// The lines of `s`: the maximal runs of characters separated by `'\n'`.
/// A text with no `'\n'` is one line; each `'\n'` ends a line, so a trailing
/// `'\n'` is followed by one final empty line.
pub open spec fn spec_lines(s: Seq<char>) -> Seq<Seq<char>>
    decreases s.len(),
{
    if s.len() == 0 {
        seq![s]
    } else if s[0] == '\n' {
        seq![Seq::<char>::empty()] + spec_lines(s.drop_first())
    } else {
        let rest = spec_lines(s.drop_first());
        seq![seq![s[0]] + rest[0]] + rest.drop_first()
    }
}

/// There is always at least one line.
pub proof fn lemma_lines_nonempty(s: Seq<char>)
    ensures
        spec_lines(s).len() >= 1,
    decreases s.len(),
{
    if s.len() > 0 {
        lemma_lines_nonempty(s.drop_first());
    }
}

/// A text without `'\n'` is a single line: itself.
pub proof fn lemma_lines_single(s: Seq<char>)
    requires
        forall|j: int| 0 <= j < s.len() ==> s[j] != '\n',
    ensures
        spec_lines(s) == seq![s],
    decreases s.len(),
{
    if s.len() == 0 {
        assert(spec_lines(s) =~= seq![s]);
    } else {
        assert forall|j: int| 0 <= j < s.drop_first().len() implies s.drop_first()[j] != '\n' by {
            assert(s[j + 1] != '\n');
        }
        lemma_lines_single(s.drop_first());
        lemma_lines_nonempty(s.drop_first());
        assert(seq![s[0]] + spec_lines(s.drop_first())[0] =~= s);
        assert(spec_lines(s) =~= seq![s]);
    }
}

/// Splitting at the first `'\n'`: the text up to it is the first line, and
/// the lines of the rest follow.
pub proof fn lemma_lines_split(s: Seq<char>, k: int)
    requires
        0 <= k < s.len(),
        s[k] == '\n',
        forall|j: int| 0 <= j < k ==> s[j] != '\n',
    ensures
        spec_lines(s) == seq![s.subrange(0, k)] + spec_lines(s.subrange(k + 1, s.len() as int)),
    decreases s.len(),
{
    if k == 0 {
        assert(s.drop_first() =~= s.subrange(1, s.len() as int));
        assert(s.subrange(0, 0) =~= Seq::<char>::empty());
        assert(spec_lines(s) =~= seq![s.subrange(0, k)] + spec_lines(
            s.subrange(k + 1, s.len() as int),
        ));
    } else {
        let t = s.drop_first();
        assert forall|j: int| 0 <= j < k - 1 implies t[j] != '\n' by {
            assert(s[j + 1] != '\n');
        }
        assert(t[k - 1] == '\n');
        lemma_lines_split(t, k - 1);
        let rest = spec_lines(t);
        assert(rest == seq![t.subrange(0, k - 1)] + spec_lines(t.subrange(k - 1 + 1, t.len() as int)));
        assert(seq![s[0]] + rest[0] =~= s.subrange(0, k));
        assert(rest.drop_first() =~= spec_lines(t.subrange(k, t.len() as int)));
        assert(t.subrange(k, t.len() as int) =~= s.subrange(k + 1, s.len() as int));
        assert(spec_lines(s) =~= seq![s.subrange(0, k)] + spec_lines(
            s.subrange(k + 1, s.len() as int),
        ));
    }
}

/// The line ranges of `bs`, read back as subranges of `s`.
pub open spec fn bound_lines(s: Seq<char>, bs: Seq<(usize, usize)>) -> Seq<Seq<char>> {
    Seq::new(bs.len(), |k: int| s.subrange(bs[k].0 as int, bs[k].1 as int))
}

/// The start and end position of every line of `cs`, in order: line `k` of
/// `spec_lines(cs@)` is `cs` between the `k`-th pair of positions.
pub fn split_lines(cs: &Vec<char>) -> (bounds: Vec<(usize, usize)>)
    ensures
        bounds@.len() == spec_lines(cs@).len(),
        forall|k: int|
            0 <= k < bounds@.len() ==> (#[trigger] bounds@[k]).0 <= bounds@[k].1 <= cs@.len(),
        forall|k: int|
            0 <= k < bounds@.len() ==> #[trigger] spec_lines(cs@)[k] == cs@.subrange(
                bounds@[k].0 as int,
                bounds@[k].1 as int,
            ),
{
    let n = cs.len();
    let mut bounds: Vec<(usize, usize)> = Vec::new();
    let mut start: usize = 0;
    let mut i: usize = 0;
    proof {
        assert(cs@.subrange(0, n as int) =~= cs@);
        assert(spec_lines(cs@) =~= bound_lines(cs@, bounds@) + spec_lines(
            cs@.subrange(0, n as int),
        ));
    }
    while i < n
        invariant
            n == cs@.len(),
            start <= i <= n,
            forall|t: int| start <= t < i ==> cs@[t] != '\n',
            forall|k: int|
                0 <= k < bounds@.len() ==> (#[trigger] bounds@[k]).0 <= bounds@[k].1 <= cs@.len(),
            spec_lines(cs@) == bound_lines(cs@, bounds@) + spec_lines(
                cs@.subrange(start as int, n as int),
            ),
        decreases n - i,
    {
        if cs[i] == '\n' {
            proof {
                let suffix = cs@.subrange(start as int, n as int);
                assert forall|j: int| 0 <= j < i - start implies suffix[j] != '\n' by {
                    assert(suffix[j] == cs@[start + j]);
                }
                assert(suffix[i - start] == '\n');
                lemma_lines_split(suffix, i - start);
                assert(suffix.subrange(0, i - start) =~= cs@.subrange(start as int, i as int));
                assert(suffix.subrange(i - start + 1, suffix.len() as int) =~= cs@.subrange(
                    i + 1,
                    n as int,
                ));
                assert(bound_lines(cs@, bounds@.push((start, i))) =~= bound_lines(cs@, bounds@)
                    + seq![cs@.subrange(start as int, i as int)]);
                assert(spec_lines(cs@) =~= bound_lines(cs@, bounds@.push((start, i)))
                    + spec_lines(cs@.subrange(i + 1, n as int)));
            }
            bounds.push((start, i));
            start = i + 1;
        }
        i = i + 1;
    }
    proof {
        let suffix = cs@.subrange(start as int, n as int);
        assert forall|j: int| 0 <= j < suffix.len() implies suffix[j] != '\n' by {
            assert(suffix[j] == cs@[start + j]);
        }
        lemma_lines_single(suffix);
        assert(bound_lines(cs@, bounds@.push((start, n))) =~= bound_lines(cs@, bounds@) + seq![
            suffix,
        ]);
        assert(spec_lines(cs@) =~= bound_lines(cs@, bounds@.push((start, n))));
    }
    bounds.push((start, n));
    proof {
        assert forall|k: int| 0 <= k < bounds@.len() implies #[trigger] spec_lines(cs@)[k]
            == cs@.subrange(bounds@[k].0 as int, bounds@[k].1 as int) by {
            assert(spec_lines(cs@)[k] == bound_lines(cs@, bounds@)[k]);
        }
    }
    bounds
}

} // verus!
