//! Patterns as the tables compare keys with them: `*` stands for any characters, `?` for any one,
//! and `[...]` for one of a set, which `^` inverts and `-` gives ranges in.
use vstd::prelude::*;

use crate::chars::chars_of;
use crate::projection::starts_with;

verus! {

/// A text up to its first null character, where it ends for a comparison.
pub open spec fn until_null(s: Seq<char>) -> Seq<char>
    decreases s.len(),
{
    if s.len() == 0 || s[0] == '\0' {
        Seq::empty()
    } else {
        seq![s[0]] + until_null(s.skip(1))
    }
}

/// What a set says of a character, from a place in the pattern on, and where the set ends: at the
/// next `]`. A `-` makes a range of the characters on its two sides; it stands for itself where
/// there is none before it or where it is the last of the set.
pub open spec fn set_scan(p: Seq<char>, at: int, before: Option<char>, c: char, seen: bool) -> Option<
    (bool, int),
>
    decreases p.len() - at,
{
    if at < 0 || at >= p.len() {
        None
    } else if p[at] == ']' {
        Some((seen, at + 1))
    } else if p[at] == '-' && at + 1 < p.len() && p[at + 1] != ']' && before is Some {
        set_scan(p, at + 2, None, c, seen || (before->0 <= c && c <= p[at + 1]))
    } else {
        set_scan(p, at + 1, Some(p[at]), c, seen || c == p[at])
    }
}

/// The set that opens at a place in the pattern is inverted.
pub open spec fn set_inverted(p: Seq<char>, at: int) -> bool {
    at + 1 < p.len() && p[at + 1] == '^'
}

/// Whether the set that opens at a place in the pattern holds a character, and where it ends; none
/// where it is not closed. A `]` that comes first belongs to the set.
pub open spec fn set_holds(p: Seq<char>, at: int, c: char) -> Option<(bool, int)> {
    let first = if set_inverted(p, at) {
        at + 2
    } else {
        at + 1
    };
    let found = if first < p.len() && p[first] == ']' {
        set_scan(p, first + 1, None, c, c == ']')
    } else {
        set_scan(p, first, None, c, false)
    };
    match found {
        Some((seen, end)) => Some((seen != set_inverted(p, at), end)),
        None => None,
    }
}

/// The rest of a pattern stands for the rest of a text.
pub open spec fn glob_from(p: Seq<char>, i: int, s: Seq<char>, j: int) -> bool
    decreases p.len() - i, s.len() - j,
{
    if i < 0 || i >= p.len() {
        j >= s.len()
    } else if p[i] == '*' {
        glob_from(p, i + 1, s, j) || (j < s.len() && glob_from(p, i, s, j + 1))
    } else if j >= s.len() {
        false
    } else if p[i] == '[' {
        match set_holds(p, i, s[j]) {
            Some((held, end)) => held && i < end <= p.len() && glob_from(p, end, s, j + 1),
            None => false,
        }
    } else {
        (p[i] == '?' || p[i] == s[j]) && glob_from(p, i + 1, s, j + 1)
    }
}

/// A pattern stands for a text.
pub open spec fn glob(pattern: Seq<char>, text: Seq<char>) -> bool {
    glob_from(until_null(pattern), 0, until_null(text), 0)
}

// ---------------------------------------------------------------------------
// Comparing
// ---------------------------------------------------------------------------
proof fn lemma_set_scan_ends(p: Seq<char>, at: int, before: Option<char>, c: char, seen: bool)
    requires
        0 <= at,
    ensures
        set_scan(p, at, before, c, seen) matches Some((_, end)) ==> at < end <= p.len(),
    decreases p.len() - at,
{
    if at < p.len() && p[at] != ']' {
        if p[at] == '-' && at + 1 < p.len() && p[at + 1] != ']' && before is Some {
            lemma_set_scan_ends(
                p,
                at + 2,
                None,
                c,
                seen || (before->0 <= c && c <= p[at + 1]),
            );
        } else {
            lemma_set_scan_ends(p, at + 1, Some(p[at]), c, seen || c == p[at]);
        }
    }
}

/// The characters of a text up to its first null character.
fn chars_until_null(text: &str) -> (r: Vec<char>)
    ensures
        r@ == until_null(text@),
{
    let cs = chars_of(text);
    let mut out: Vec<char> = Vec::new();
    let mut i: usize = 0;
    proof {
        assert(cs@.skip(0) =~= cs@);
        assert(out@ + until_null(cs@) =~= until_null(cs@));
    }
    while i < cs.len() && cs[i] != '\0'
        invariant
            i <= cs@.len(),
            cs@ == text@,
            out@ + until_null(cs@.skip(i as int)) == until_null(cs@),
        decreases cs.len() - i,
    {
        proof {
            let rest = cs@.skip(i as int);
            assert(rest[0] == cs@[i as int]);
            assert(rest.skip(1) =~= cs@.skip(i as int + 1));
            assert(out@.push(cs@[i as int]) + until_null(rest.skip(1)) =~= out@ + (seq![rest[0]]
                + until_null(rest.skip(1))));
        }
        out.push(cs[i]);
        i += 1;
    }
    proof {
        assert(out@ + Seq::<char>::empty() =~= out@);
        assert(until_null(cs@.skip(i as int)) =~= Seq::<char>::empty());
    }
    out
}

/// Scans a set, from the place of its first member on.
fn scan_set(p: &Vec<char>, first: usize, c: char, start: bool) -> (r: Option<(bool, usize)>)
    requires
        first <= p@.len(),
    ensures
        match (r, set_scan(p@, first as int, None, c, start)) {
            (Some((seen, end)), Some((model, at))) => seen == model && end == at && first < end
                <= p@.len(),
            (None, None) => true,
            _ => false,
        },
{
    let mut at: usize = first;
    let mut before: Option<char> = None;
    let mut seen = start;
    proof {
        lemma_set_scan_ends(p@, first as int, None, c, start);
    }
    while at < p.len() && p[at] != ']'
        invariant
            first <= at <= p@.len(),
            set_scan(p@, first as int, None, c, start) == set_scan(p@, at as int, before, c, seen),
        decreases p.len() - at,
    {
        let here = p[at];
        let low: Option<char> = if here == '-' && at + 1 < p.len() && p[at + 1] != ']' {
            before
        } else {
            None
        };
        match low {
            Some(low) => {
                seen = seen || (low <= c && c <= p[at + 1]);
                before = None;
                at += 2;
            },
            None => {
                seen = seen || c == here;
                before = Some(here);
                at += 1;
            },
        }
    }
    if at < p.len() {
        Some((seen, at + 1))
    } else {
        None
    }
}

fn look_up_in_set(p: &Vec<char>, at: usize, c: char) -> (r: Option<(bool, usize)>)
    requires
        at < p@.len(),
    ensures
        match (r, set_holds(p@, at as int, c)) {
            (Some((held, end)), Some((model, place))) => held == model && end == place && at < end
                <= p@.len(),
            (None, None) => true,
            _ => false,
        },
{
    let n: usize = p.len();
    let inverted = at + 1 < n && p[at + 1] == '^';
    let first: usize = if inverted {
        at + 2
    } else {
        at + 1
    };
    let found = if first < p.len() && p[first] == ']' {
        scan_set(p, first + 1, c, c == ']')
    } else {
        scan_set(p, first, c, false)
    };
    match found {
        Some((seen, end)) => Some((seen != inverted, end)),
        None => None,
    }
}

/// What the rests of a text are for the rests of a pattern, both counted from the end.
spec fn rests_told(rows: Seq<Vec<bool>>, p: Seq<char>, s: Seq<char>) -> bool {
    &&& forall|a: int| 0 <= a < rows.len() ==> (#[trigger] rows[a])@.len() == s.len() + 1
    &&& forall|a: int, b: int|
        0 <= a < rows.len() && 0 <= b <= s.len() ==> #[trigger] rows[a]@[b] == glob_from(
            p,
            p.len() - a,
            s,
            s.len() - b,
        )
}

/// Whether a rest of the pattern stands for a rest of the text, given the same of shorter ones.
fn rest_told(
    p: &Vec<char>,
    s: &Vec<char>,
    rows: &Vec<Vec<bool>>,
    row: &Vec<bool>,
    b: usize,
) -> (r: bool)
    requires
        0 < rows@.len() <= p@.len(),
        rests_told(rows@, p@, s@),
        b <= s@.len(),
        row@.len() == b,
        b > 0 ==> row@[b - 1] == glob_from(
            p@,
            p@.len() - rows@.len(),
            s@,
            s@.len() - (b - 1),
        ),
    ensures
        r == glob_from(p@, p@.len() - rows@.len(), s@, s@.len() - b),
{
    let a: usize = rows.len();
    let i: usize = p.len() - a;
    proof {
        assert(rows@[a - 1]@[b as int] == glob_from(p@, p@.len() - (a - 1), s@, s@.len() - b));
    }
    if p[i] == '*' {
        return rows[a - 1][b] || (b > 0 && row[b - 1]);
    }
    if b == 0 {
        return false;
    }
    proof {
        assert(rows@[a - 1]@[b - 1] == glob_from(
            p@,
            p@.len() - (a - 1),
            s@,
            s@.len() - (b - 1),
        ));
    }
    let c = s[s.len() - b];
    if p[i] != '[' {
        return (p[i] == '?' || p[i] == c) && rows[a - 1][b - 1];
    }
    match look_up_in_set(p, i, c) {
        Some((held, end)) => {
            let rest: usize = p.len() - end;
            proof {
                assert(rows@[rest as int]@[b - 1] == glob_from(
                    p@,
                    p@.len() - rest,
                    s@,
                    s@.len() - (b - 1),
                ));
            }
            held && rows[rest][b - 1]
        },
        None => false,
    }
}

/// The row of a rest of the pattern, given those of the shorter rests.
fn next_row(p: &Vec<char>, s: &Vec<char>, rows: &Vec<Vec<bool>>) -> (r: Vec<bool>)
    requires
        0 < rows@.len() <= p@.len(),
        rests_told(rows@, p@, s@),
    ensures
        r@.len() == s@.len() + 1,
        forall|b: int|
            0 <= b <= s@.len() ==> #[trigger] r@[b] == glob_from(
                p@,
                p@.len() - rows@.len(),
                s@,
                s@.len() - b,
            ),
{
    let mut row: Vec<bool> = Vec::new();
    let first = rest_told(p, s, rows, &row, 0);
    row.push(first);
    let mut b: usize = 0;
    while b < s.len()
        invariant
            0 < rows@.len() <= p@.len(),
            rests_told(rows@, p@, s@),
            b <= s@.len(),
            row@.len() == b + 1,
            forall|k: int|
                0 <= k <= b ==> #[trigger] row@[k] == glob_from(
                    p@,
                    p@.len() - rows@.len(),
                    s@,
                    s@.len() - k,
                ),
        decreases s.len() - b,
    {
        b += 1;
        let told = rest_told(p, s, rows, &row, b);
        row.push(told);
    }
    row
}

/// Whether a pattern stands for a text.
pub fn matches_pattern(pattern: &str, text: &str) -> (r: bool)
    ensures
        r == glob(pattern@, text@),
{
    let p = chars_until_null(pattern);
    let s = chars_until_null(text);
    let mut last: Vec<bool> = Vec::new();
    last.push(true);
    let mut b: usize = 0;
    while b < s.len()
        invariant
            b <= s@.len(),
            last@.len() == b + 1,
            forall|k: int|
                0 <= k <= b ==> #[trigger] last@[k] == glob_from(
                    p@,
                    p@.len() as int,
                    s@,
                    s@.len() - k,
                ),
        decreases s.len() - b,
    {
        last.push(false);
        b += 1;
    }
    let mut rows: Vec<Vec<bool>> = Vec::new();
    rows.push(last);
    while rows.len() <= p.len()
        invariant
            0 < rows@.len() <= p@.len() + 1,
            rests_told(rows@, p@, s@),
        decreases p@.len() + 1 - rows@.len(),
    {
        let row = next_row(&p, &s, &rows);
        let ghost before = rows@;
        rows.push(row);
        proof {
            assert forall|a: int| 0 <= a < rows@.len() implies (#[trigger] rows@[a])@.len()
                == s@.len() + 1 by {
                if a < before.len() {
                    assert(rows@[a] == before[a]);
                }
            }
            assert forall|a: int, b: int|
                0 <= a < rows@.len() && 0 <= b <= s@.len() implies #[trigger] rows@[a]@[b]
                == glob_from(p@, p@.len() - a, s@, s@.len() - b) by {
                if a < before.len() {
                    assert(before[a]@[b] == glob_from(p@, p@.len() - a, s@, s@.len() - b));
                } else {
                    assert(row@[b] == glob_from(p@, p@.len() - a, s@, s@.len() - b));
                }
            }
        }
    }
    proof {
        assert(rows@[p@.len() as int]@[s@.len() as int] == glob_from(p@, 0, s@, 0));
    }
    rows[p.len()][s.len()]
}

// ---------------------------------------------------------------------------
// Plain patterns
// ---------------------------------------------------------------------------
/// A text that stands for itself in a pattern.
pub open spec fn plain(s: Seq<char>) -> bool {
    forall|i: int|
        0 <= i < s.len() ==> #[trigger] s[i] != '*' && s[i] != '?' && s[i] != '[' && s[i] != '\0'
}

/// Whether a text stands for itself in a pattern.
pub fn is_plain(s: &str) -> (r: bool)
    ensures
        r == plain(s@),
{
    let cs = chars_of(s);
    let mut i: usize = 0;
    while i < cs.len()
        invariant
            i <= cs@.len(),
            cs@ == s@,
            forall|k: int|
                0 <= k < i ==> #[trigger] s@[k] != '*' && s@[k] != '?' && s@[k] != '[' && s@[k]
                    != '\0',
        decreases cs.len() - i,
    {
        if cs[i] == '*' || cs[i] == '?' || cs[i] == '[' || cs[i] == '\0' {
            return false;
        }
        i += 1;
    }
    true
}

proof fn lemma_until_null_plain(s: Seq<char>)
    requires
        forall|i: int| 0 <= i < s.len() ==> #[trigger] s[i] != '\0',
    ensures
        until_null(s) == s,
    decreases s.len(),
{
    if s.len() > 0 {
        let rest = s.skip(1);
        assert forall|i: int| 0 <= i < rest.len() implies #[trigger] rest[i] != '\0' by {
            assert(rest[i] == s[i + 1]);
        }
        lemma_until_null_plain(rest);
        assert(seq![s[0]] + rest =~= s);
    } else {
        assert(s =~= Seq::empty());
    }
}

/// A text up to its first null character keeps its beginning.
proof fn lemma_until_null_keeps(s: Seq<char>, k: int)
    requires
        0 <= k <= s.len(),
    ensures
        until_null(s).len() <= s.len(),
        (forall|i: int| 0 <= i < k ==> #[trigger] s[i] != '\0') ==> until_null(s).len() >= k,
        forall|i: int| 0 <= i < until_null(s).len() ==> #[trigger] until_null(s)[i] == s[i],
    decreases s.len(),
{
    if s.len() > 0 && s[0] != '\0' {
        let rest = s.skip(1);
        if k > 0 {
            lemma_until_null_keeps(rest, k - 1);
            if forall|i: int| 0 <= i < k ==> #[trigger] s[i] != '\0' {
                assert forall|i: int| 0 <= i < k - 1 implies #[trigger] rest[i] != '\0' by {
                    assert(rest[i] == s[i + 1]);
                }
            }
        } else {
            lemma_until_null_keeps(rest, 0);
        }
    } else if s.len() > 0 && k > 0 {
        assert(s[0] == '\0');
    }
}

proof fn lemma_star_takes_the_rest(p: Seq<char>, i: int, s: Seq<char>, j: int)
    requires
        i == p.len() - 1,
        0 <= i,
        p[i] == '*',
        0 <= j <= s.len(),
    ensures
        glob_from(p, i, s, j),
    decreases s.len() - j,
{
    if j < s.len() {
        lemma_star_takes_the_rest(p, i, s, j + 1);
    } else {
        assert(glob_from(p, i + 1, s, j));
    }
}

proof fn lemma_plain_from(p: Seq<char>, s: Seq<char>, i: int)
    requires
        p.len() > 0,
        p.last() == '*',
        plain(p.drop_last()),
        0 <= i < p.len(),
        i <= s.len(),
    ensures
        glob_from(p, i, s, i) == (p.len() - 1 <= s.len() && forall|k: int|
            i <= k < p.len() - 1 ==> #[trigger] p[k] == s[k]),
    decreases p.len() - i,
{
    if i == p.len() - 1 {
        lemma_star_takes_the_rest(p, i, s, i);
    } else {
        assert(p.drop_last()[i] == p[i]);
        if i < s.len() {
            lemma_plain_from(p, s, i + 1);
        }
    }
}

/// A plain text with `*` behind it stands for the texts that begin with it.
pub proof fn plain_patterns_are_prefixes(prefix: Seq<char>, text: Seq<char>)
    requires
        plain(prefix),
    ensures
        glob(prefix + "*"@, text) == starts_with(text, prefix),
{
    reveal_strlit("*");
    let p = prefix + "*"@;
    assert(p =~= prefix.push('*'));
    assert(p.drop_last() =~= prefix);
    assert forall|i: int| 0 <= i < p.len() implies #[trigger] p[i] != '\0' by {
        if i < prefix.len() {
            assert(p[i] == prefix[i]);
        }
    }
    lemma_until_null_plain(p);
    let s = until_null(text);
    lemma_until_null_keeps(text, 0);
    lemma_plain_from(p, s, 0);
    let n = prefix.len() as int;
    if starts_with(text, prefix) {
        assert forall|i: int| 0 <= i < n implies #[trigger] text[i] != '\0' by {
            assert(text.take(n)[i] == text[i]);
            assert(prefix[i] != '\0');
        }
        lemma_until_null_keeps(text, n);
        assert forall|k: int| 0 <= k < n implies #[trigger] p[k] == s[k] by {
            assert(text.take(n)[k] == text[k]);
        }
    }
    if glob(p, text) {
        assert(text.take(n) =~= prefix) by {
            assert forall|k: int| 0 <= k < n implies text[k] == prefix[k] by {
                assert(p[k] == s[k]);
            }
        }
    }
}

} // verus!
