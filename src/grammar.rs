use vstd::prelude::*;

use crate::validate::{
    digits_end, is_code_letter, is_digit, is_hspace, last_close_before, line_ok, token_end,
    tokens_from,
};

verus! {

/// An optional sign, one or more digits, then optionally `.` and digits.
pub open spec fn number_shape(n: Seq<char>) -> bool {
    let a: int = if n.len() > 0 && (n[0] == '+' || n[0] == '-') {
        1
    } else {
        0
    };
    &&& a < n.len() && is_digit(n[a])
    &&& forall|k: int| a <= k < n.len() ==> is_digit(#[trigger] n[k]) || n[k] == '.'
    &&& forall|k1: int, k2: int|
        a <= k1 < k2 < n.len() && #[trigger] n[k1] == '.' ==> #[trigger] n[k2] != '.'
}

/// One token: `%`; a comment, `(` then any characters then `)`; or a code
/// letter followed by a number.
#[verifier::opaque]
pub open spec fn is_token(w: Seq<char>) -> bool {
    ||| w == seq!['%']
    ||| (w.len() >= 2 && w[0] == '(' && w.last() == ')')
    ||| (w.len() >= 2 && is_code_letter(w[0]) && number_shape(w.drop_first()))
}

pub open spec fn all_space(s: Seq<char>, i: int, j: int) -> bool {
    forall|k: int| i <= k < j ==> is_hspace(#[trigger] s[k])
}

/// Span `k` of `t` holds a token of `s`.
pub open spec fn span_ok(s: Seq<char>, t: Seq<(int, int)>, k: int) -> bool {
    0 <= t[k].0 < t[k].1 <= s.len() && is_token(s.subrange(t[k].0, t[k].1))
}

/// Only white space stands between spans `k` and `k + 1` of `t`.
pub open spec fn gap_ok(s: Seq<char>, t: Seq<(int, int)>, k: int) -> bool {
    t[k].1 <= t[k + 1].0 && all_space(s, t[k].1, t[k + 1].0)
}

/// The spans `t`, in order, are the tokens of `s` from `i` on: only white
/// space stands between two of them and after the last, and before the
/// first only when `after` allows it.
pub open spec fn parse_from(s: Seq<char>, i: int, t: Seq<(int, int)>, after: bool) -> bool {
    &&& 0 <= i <= s.len()
    &&& if t.len() == 0 {
        if after {
            all_space(s, i, s.len() as int)
        } else {
            i == s.len()
        }
    } else {
        &&& if after {
            i <= t[0].0 && all_space(s, i, t[0].0)
        } else {
            t[0].0 == i
        }
        &&& forall|k: int| 0 <= k < t.len() ==> #[trigger] span_ok(s, t, k)
        &&& forall|k: int| 0 <= k < t.len() - 1 ==> #[trigger] gap_ok(s, t, k)
        &&& all_space(s, t.last().1, s.len() as int)
    }
}

/// A line of the grammar: tokens, each followed by any amount of white
/// space, with none before the first.
pub open spec fn grammar_line(s: Seq<char>) -> bool {
    exists|t: Seq<(int, int)>| parse_from(s, 0, t, false)
}

proof fn lemma_digits_end_digits(s: Seq<char>, i: int)
    requires
        0 <= i <= s.len(),
    ensures
        i <= digits_end(s, i) <= s.len(),
        forall|k: int| i <= k < digits_end(s, i) ==> is_digit(#[trigger] s[k]),
        digits_end(s, i) < s.len() ==> !is_digit(s[digits_end(s, i)]),
    decreases s.len() - i,
{
    if i < s.len() && is_digit(s[i]) {
        lemma_digits_end_digits(s, i + 1);
    }
}

proof fn lemma_last_close(s: Seq<char>, n: int)
    requires
        0 <= n <= s.len(),
    ensures
        -1 <= last_close_before(s, n) < n,
        last_close_before(s, n) >= 0 ==> s[last_close_before(s, n)] == ')',
        forall|k: int| 0 <= k < n && s[k] == ')' ==> k <= last_close_before(s, n),
    decreases n,
{
    if n > 0 && s[n - 1] != ')' {
        lemma_last_close(s, n - 1);
    }
}

/// The scanner's token is a token of the grammar.
proof fn lemma_scanned_token(s: Seq<char>, i: int)
    requires
        0 <= i < s.len(),
        i < token_end(s, i) <= s.len(),
    ensures
        is_token(s.subrange(i, token_end(s, i))),
{
    reveal(is_token);
    let e = token_end(s, i);
    let w = s.subrange(i, e);
    if s[i] == '%' {
        assert(w =~= seq!['%']);
    } else if s[i] == '(' {
        lemma_last_close(s, s.len() as int);
    } else {
        let a = if i + 1 < s.len() && (s[i + 1] == '+' || s[i + 1] == '-') {
            i + 2
        } else {
            i + 1
        };
        lemma_digits_end_digits(s, a);
        let b = digits_end(s, a);
        if b < s.len() && s[b] == '.' {
            lemma_digits_end_digits(s, b + 1);
        }
        let n = w.drop_first();
        let na: int = a - i - 1;
        assert(n.len() > 0 && (n[0] == '+' || n[0] == '-') <==> na == 1);
        assert forall|k: int| na <= k < n.len() implies is_digit(#[trigger] n[k]) || n[k] == '.' by {
            assert(n[k] == s[i + 1 + k]);
        }
        assert forall|k1: int, k2: int|
            na <= k1 < k2 < n.len() && #[trigger] n[k1] == '.' implies #[trigger] n[k2] != '.' by {
            assert(n[k1] == s[i + 1 + k1]);
            assert(n[k2] == s[i + 1 + k2]);
        }
        assert(n[na] == s[a]);
    }
}

/// What the scanner accepts from `i` on splits into tokens.
proof fn lemma_scan_parses(s: Seq<char>, i: int, after: bool) -> (t: Seq<(int, int)>)
    requires
        0 <= i <= s.len(),
        tokens_from(s, i, after),
    ensures
        parse_from(s, i, t, after),
    decreases s.len() - i,
{
    if i >= s.len() {
        Seq::empty()
    } else if after && is_hspace(s[i]) {
        let t = lemma_scan_parses(s, i + 1, true);
        t
    } else {
        let e = token_end(s, i);
        lemma_scanned_token(s, i);
        let t2 = lemma_scan_parses(s, e, true);
        let t = seq![(i, e)] + t2;
        assert forall|k: int| 0 <= k < t.len() implies #[trigger] span_ok(s, t, k) by {
            if k > 0 {
                assert(t[k] == t2[k - 1]);
                assert(span_ok(s, t2, k - 1));
            }
        }
        assert forall|k: int| 0 <= k < t.len() - 1 implies #[trigger] gap_ok(s, t, k) by {
            if k > 0 {
                assert(t[k] == t2[k - 1]);
                assert(gap_ok(s, t2, k - 1));
            }
            assert(t[k + 1] == t2[k]);
        }
        if t2.len() > 0 {
            assert(t.last() == t2.last());
        }
        t
    }
}

proof fn lemma_token_kinds(w: Seq<char>)
    requires
        is_token(w),
    ensures
        w == seq!['%'] || (w.len() >= 2 && w[0] == '(' && w.last() == ')') || (w.len() >= 2
            && is_code_letter(w[0]) && number_shape(w.drop_first())),
        w.len() >= 1,
        !is_hspace(w[0]) && !is_digit(w[0]) && w[0] != '.',
{
    reveal(is_token);
}

#[verifier::rlimit(50)]
proof fn lemma_parse_tail(s: Seq<char>, i: int, t: Seq<(int, int)>, after: bool, m: int)
    requires
        parse_from(s, i, t, after),
        0 <= m < t.len(),
    ensures
        parse_from(s, t[m].1, t.skip(m + 1), true),
{
    let u = t.skip(m + 1);
    assert(span_ok(s, t, m));
    if u.len() > 0 {
        assert(u[0] == t[m + 1]);
        assert(gap_ok(s, t, m));
        assert forall|k: int| 0 <= k < u.len() implies #[trigger] span_ok(s, u, k) by {
            assert(u[k] == t[m + 1 + k]);
            assert(span_ok(s, t, m + 1 + k));
        }
        assert forall|k: int| 0 <= k < u.len() - 1 implies #[trigger] gap_ok(s, u, k) by {
            assert(u[k] == t[m + 1 + k]);
            assert(u[k + 1] == t[m + 1 + k + 1]);
            assert(gap_ok(s, t, m + 1 + k));
        }
        assert(u.last() == t.last());
    } else {
        assert(t.last() == t[m]);
    }
}

/// The last `)` of the line, past the first token, ends a comment token.
proof fn lemma_comment_skip(s: Seq<char>, q: int, t1: Seq<(int, int)>, k: int) -> (m: int)
    requires
        parse_from(s, q, t1, true),
        q <= k < s.len(),
        s[k] == ')',
        forall|j: int| 0 <= j < s.len() && s[j] == ')' ==> j <= k,
    ensures
        0 <= m < t1.len(),
        t1[m].1 == k + 1,
{
    let m = lemma_cover(s, q, t1, true, k);
    assert(span_ok(s, t1, m));
    let pm = t1[m].0;
    let qm = t1[m].1;
    let wm = s.subrange(pm, qm);
    assert(pm <= k < qm);
    assert(wm[k - pm] == s[k]);
    lemma_close_in_token(wm, k - pm);
    assert(s[qm - 1] == wm.last());
    m
}

/// A token holds `)` only when it is a comment.
proof fn lemma_close_in_token(w: Seq<char>, k: int)
    requires
        is_token(w),
        0 <= k < w.len(),
        w[k] == ')',
    ensures
        w[0] == '(' && w.last() == ')',
{
    reveal(is_token);
    if w.len() >= 2 && is_code_letter(w[0]) && number_shape(w.drop_first()) {
        let n = w.drop_first();
        if k > 0 {
            assert(n[k - 1] == w[k]);
        }
    }
}

/// A non-blank character after `i` lies inside one of the tokens.
proof fn lemma_cover(s: Seq<char>, i: int, t: Seq<(int, int)>, after: bool, x: int) -> (m: int)
    requires
        parse_from(s, i, t, after),
        i <= x < s.len(),
        !is_hspace(s[x]),
    ensures
        0 <= m < t.len(),
        t[m].0 <= x < t[m].1,
    decreases t.len(),
{
    if t.len() == 0 {
        assert(is_hspace(s[x]));
        0
    } else if x < t[0].0 {
        assert(is_hspace(s[x]));
        0
    } else if x < t[0].1 {
        0
    } else {
        assert(span_ok(s, t, 0));
        lemma_parse_tail(s, i, t, after, 0);
        let m = lemma_cover(s, t[0].1, t.skip(1), true, x);
        assert(t.skip(1)[m] == t[m + 1]);
        m + 1
    }
}

/// A letter token followed by no digit and no `.` is read whole.
proof fn lemma_letter_end(s: Seq<char>, p: int, q: int)
    requires
        0 <= p < q <= s.len(),
        q - p >= 2,
        is_code_letter(s[p]),
        number_shape(s.subrange(p + 1, q)),
        q == s.len() || (!is_digit(s[q]) && s[q] != '.'),
    ensures
        token_end(s, p) == q,
{
    let n = s.subrange(p + 1, q);
    assert(n[0] == s[p + 1]);
    let na: int = if n.len() > 0 && (n[0] == '+' || n[0] == '-') {
        1
    } else {
        0
    };
    let a = p + 1 + na;
    assert(n[na] == s[a]);
    if exists|d: int| a <= d < q && s[d] == '.' {
        let d = choose|d: int| a <= d < q && s[d] == '.';
        assert(n[d - p - 1] == s[d]);
        assert forall|k: int| a <= k < d implies is_digit(#[trigger] s[k]) by {
            assert(n[k - p - 1] == s[k]);
            assert(n[d - p - 1] == '.');
        }
        crate::conformance::lemma_digits_end_run(s, a, d);
        assert forall|k: int| d + 1 <= k < q implies is_digit(#[trigger] s[k]) by {
            assert(n[k - p - 1] == s[k]);
            assert(n[d - p - 1] == '.');
        }
        crate::conformance::lemma_digits_end_run(s, d + 1, q);
    } else {
        assert forall|k: int| a <= k < q implies is_digit(#[trigger] s[k]) by {
            assert(n[k - p - 1] == s[k]);
        }
        crate::conformance::lemma_digits_end_run(s, a, q);
    }
}

/// Any split into tokens is one the scanner accepts.
#[verifier::rlimit(80)]
proof fn lemma_parse_scans(s: Seq<char>, i: int, t: Seq<(int, int)>, after: bool)
    requires
        parse_from(s, i, t, after),
    ensures
        tokens_from(s, i, after),
    decreases t.len(), s.len() - i,
{
    if i >= s.len() {
    } else if t.len() == 0 {
        assert(is_hspace(s[i]));
        lemma_parse_scans(s, i + 1, t, true);
    } else if i < t[0].0 {
        assert(is_hspace(s[i]));
        assert(all_space(s, i + 1, t[0].0));
        lemma_parse_scans(s, i + 1, t, true);
    } else {
        let q = t[0].1;
        let w = s.subrange(i, q);
        assert(span_ok(s, t, 0));
        lemma_token_kinds(w);
        assert(w[0] == s[i]);
        lemma_parse_tail(s, i, t, after, 0);
        if q < s.len() {
            if t.len() > 1 {
                assert(gap_ok(s, t, 0));
                assert(span_ok(s, t, 1));
                lemma_token_kinds(s.subrange(t[1].0, t[1].1));
                assert(s.subrange(t[1].0, t[1].1)[0] == s[t[1].0]);
            } else {
                assert(is_hspace(s[q]));
            }
        }
        if w == seq!['%'] {
            lemma_parse_scans(s, q, t.skip(1), true);
        } else if w.len() >= 2 && w[0] == '(' && w.last() == ')' {
            lemma_last_close(s, s.len() as int);
            assert(s[q - 1] == w.last());
            let k = last_close_before(s, s.len() as int);
            if k == q - 1 {
                lemma_parse_scans(s, q, t.skip(1), true);
            } else {
                let t1 = t.skip(1);
                let m = lemma_comment_skip(s, q, t1, k);
                let qm = t1[m].1;
                lemma_parse_tail(s, q, t1, true, m);
                lemma_parse_scans(s, qm, t1.skip(m + 1), true);
            }
        } else {
            assert(w.drop_first() =~= s.subrange(i + 1, q));
            lemma_letter_end(s, i, q);
            lemma_parse_scans(s, q, t.skip(1), true);
        }
    }
}

/// The scanner accepts a line exactly when the line splits into tokens of
/// the grammar.
pub proof fn lemma_scanner_matches_grammar(s: Seq<char>)
    ensures
        line_ok(s) == grammar_line(s),
{
    if line_ok(s) {
        let t = lemma_scan_parses(s, 0, false);
        assert(parse_from(s, 0, t, false));
    }
    if grammar_line(s) {
        let t = choose|t: Seq<(int, int)>| parse_from(s, 0, t, false);
        lemma_parse_scans(s, 0, t, false);
    }
}

} // verus!
