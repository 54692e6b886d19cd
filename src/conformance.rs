use vstd::prelude::*;

use crate::number::{digit_char, digits, fixed_digits, Number};
use crate::program::{Direction, Distance, GCode};
use crate::render::{code_line, feed_step, field, linear_line, render_from};
use crate::validate::{
    digits_end, is_code_letter, is_digit, is_hspace, last_close_before, line_ok, lines_ok_from,
    strip_cr, text_ok, token_end, tokens_from,
};

verus! {

proof fn lemma_digit_char(d: nat)
    requires
        d < 10,
    ensures
        is_digit(digit_char(d)),
{
}

proof fn lemma_digits_are_digits(n: nat)
    ensures
        digits(n).len() >= 1,
        forall|k: int| 0 <= k < digits(n).len() ==> is_digit(#[trigger] digits(n)[k]),
    decreases n,
{
    lemma_digit_char(n % 10);
    if n >= 10 {
        lemma_digits_are_digits(n / 10);
    }
}

proof fn lemma_fixed_are_digits(n: nat, w: nat)
    ensures
        fixed_digits(n, w).len() == w,
        forall|k: int| 0 <= k < w ==> is_digit(#[trigger] fixed_digits(n, w)[k]),
    decreases w,
{
    if w > 0 {
        lemma_digit_char(n % 10);
        lemma_fixed_are_digits(n / 10, (w - 1) as nat);
    }
}

pub(crate) proof fn lemma_digits_end_run(s: Seq<char>, i: int, j: int)
    requires
        0 <= i <= j <= s.len(),
        forall|k: int| i <= k < j ==> is_digit(#[trigger] s[k]),
        j == s.len() || !is_digit(s[j]),
    ensures
        digits_end(s, i) == j,
    decreases j - i,
{
    if i < j {
        lemma_digits_end_run(s, i + 1, j);
    }
}

proof fn lemma_digits_end_shift(p: Seq<char>, q: Seq<char>, j: int)
    requires
        0 <= j <= q.len(),
    ensures
        digits_end(p + q, p.len() + j) == p.len() + digits_end(q, j),
    decreases q.len() - j,
{
    let s = p + q;
    if j < q.len() {
        assert(s[p.len() + j] == q[j]);
        lemma_digits_end_shift(p, q, j + 1);
    }
}

proof fn lemma_last_close_bound(s: Seq<char>, n: int)
    ensures
        -1 <= last_close_before(s, n) < n || (n <= 0 && last_close_before(s, n) == -1),
        last_close_before(s, n) >= 0 ==> s[last_close_before(s, n)] == ')',
    decreases n,
{
    if n > 0 && s[n - 1] != ')' {
        lemma_last_close_bound(s, n - 1);
    }
}

proof fn lemma_last_close_shift(p: Seq<char>, q: Seq<char>, n: int)
    requires
        0 <= n <= q.len(),
    ensures
        last_close_before(q, n) >= 0 ==> last_close_before(p + q, p.len() + n) == p.len()
            + last_close_before(q, n),
        last_close_before(q, n) < 0 ==> last_close_before(p + q, p.len() + n) < p.len(),
    decreases n,
{
    let s = p + q;
    if n == 0 {
        lemma_last_close_bound(s, p.len() as int);
    } else {
        assert(s[p.len() + n - 1] == q[n - 1]);
        if q[n - 1] != ')' {
            lemma_last_close_shift(p, q, n - 1);
        }
    }
}

/// Where a token ends, moved right by `k`; no token stays no token.
spec fn moved(e: int, k: int) -> int {
    if e == -1 {
        -1
    } else {
        e + k
    }
}

proof fn lemma_token_end_shift(p: Seq<char>, q: Seq<char>, j: int)
    requires
        0 <= j < q.len(),
    ensures
        token_end(p + q, p.len() + j) == moved(token_end(q, j), p.len() as int),
        token_end(q, j) == -1 || token_end(q, j) > j,
{
    let s = p + q;
    let i = p.len() + j;
    assert(s[i] == q[j]);
    if q[j] == '(' {
        lemma_last_close_shift(p, q, q.len() as int);
        lemma_last_close_bound(q, q.len() as int);
        assert(s.len() == p.len() + q.len());
    } else if is_code_letter(q[j]) {
        if j + 1 < q.len() {
            assert(s[i + 1] == q[j + 1]);
        }
        let a = if j + 1 < q.len() && (q[j + 1] == '+' || q[j + 1] == '-') {
            j + 2
        } else {
            j + 1
        };
        lemma_digits_end_shift(p, q, a);
        let b = digits_end(q, a);
        lemma_digits_end_bound(q, a);
        if b != a && b < q.len() && q[b] == '.' {
            assert(s[p.len() + b] == q[b]);
            lemma_digits_end_shift(p, q, b + 1);
            lemma_digits_end_bound(q, b + 1);
        }
    }
}

proof fn lemma_digits_end_bound(s: Seq<char>, i: int)
    requires
        0 <= i <= s.len(),
    ensures
        i <= digits_end(s, i) <= s.len(),
    decreases s.len() - i,
{
    if i < s.len() && is_digit(s[i]) {
        lemma_digits_end_bound(s, i + 1);
    }
}

/// Tokens read the same after any prefix.
proof fn lemma_tokens_shift(p: Seq<char>, q: Seq<char>, j: int, after: bool)
    requires
        0 <= j <= q.len(),
    ensures
        tokens_from(p + q, p.len() + j, after) == tokens_from(q, j, after),
    decreases q.len() - j,
{
    let s = p + q;
    if j < q.len() {
        assert(s[p.len() + j] == q[j]);
        if after && is_hspace(q[j]) {
            lemma_tokens_shift(p, q, j + 1, true);
        } else {
            lemma_token_end_shift(p, q, j);
            let e = token_end(q, j);
            if j < e && e <= q.len() {
                lemma_tokens_shift(p, q, e, true);
            }
        }
    }
}

/// No line break in `x`.
pub open spec fn no_break(x: Seq<char>) -> bool {
    forall|k: int| 0 <= k < x.len() ==> x[k] != '\n'
}

/// Non-empty and ending in a digit.
spec fn ends_in_digit(x: Seq<char>) -> bool {
    x.len() > 0 && is_digit(x.last())
}

/// `rest` is empty or starts with a space.
spec fn space_or_end(rest: Seq<char>) -> bool {
    rest.len() == 0 || rest[0] == ' '
}

proof fn lemma_concat_facts(a: Seq<char>, b: Seq<char>)
    ensures
        no_break(a) && no_break(b) ==> no_break(a + b),
        ends_in_digit(b) ==> ends_in_digit(a + b),
        b.len() == 0 ==> a + b == a,
        a.len() == 0 ==> a + b == b,
        a.len() > 0 ==> (a + b)[0] == a[0],
{
    if b.len() == 0 {
        assert(a + b =~= a);
    }
    if a.len() == 0 {
        assert(a + b =~= b);
    }
    if no_break(a) && no_break(b) {
        assert forall|k: int| 0 <= k < (a + b).len() implies (a + b)[k] != '\n' by {
            if k < a.len() {
                assert((a + b)[k] == a[k]);
            } else {
                assert((a + b)[k] == b[k - a.len()]);
            }
        }
    }
    if ends_in_digit(b) {
        assert((a + b).last() == b.last());
    }
}

/// A word: a code letter, an optional minus, digits, and an optional `.`
/// with digits, followed by the end or a space.
proof fn lemma_word_end(
    l: char,
    sign: Seq<char>,
    d1: Seq<char>,
    frac: Seq<char>,
    rest: Seq<char>,
)
    requires
        is_code_letter(l),
        sign == Seq::<char>::empty() || sign == seq!['-'],
        d1.len() >= 1,
        forall|k: int| 0 <= k < d1.len() ==> is_digit(#[trigger] d1[k]),
        frac.len() == 0 || (frac[0] == '.' && forall|k: int|
            1 <= k < frac.len() ==> is_digit(#[trigger] frac[k])),
        space_or_end(rest),
    ensures
        token_end(seq![l] + sign + d1 + frac + rest, 0) == 1 + sign.len() + d1.len()
            + frac.len(),
{
    let s = seq![l] + sign + d1 + frac + rest;
    let a: int = 1 + sign.len() as int;
    let b: int = a + d1.len();
    let e: int = b + frac.len();
    assert(s[0] == l);
    if sign.len() == 1 {
        assert(s[1] == '-');
    } else {
        assert(s[1] == d1[0]);
    }
    assert forall|k: int| a <= k < b implies is_digit(#[trigger] s[k]) by {
        assert(s[k] == d1[k - a]);
    }
    if frac.len() > 0 {
        assert(s[b] == '.');
        lemma_digits_end_run(s, a, b);
        assert forall|k: int| b + 1 <= k < e implies is_digit(#[trigger] s[k]) by {
            assert(s[k] == frac[k - b]);
        }
        if e < s.len() {
            assert(s[e] == rest[0]);
        }
        lemma_digits_end_run(s, b + 1, e);
    } else {
        if b < s.len() {
            assert(s[b] == rest[0]);
        }
        lemma_digits_end_run(s, a, b);
    }
}

proof fn lemma_word_tokens(w: Seq<char>, rest: Seq<char>, after: bool)
    requires
        w.len() > 0,
        !is_hspace(w[0]),
        token_end(w + rest, 0) == w.len(),
    ensures
        tokens_from(w + rest, 0, after) == tokens_from(rest, 0, true),
{
    assert((w + rest)[0] == w[0]);
    lemma_tokens_shift(w, rest, 0, true);
}

/// Facts on the text of a number: its pieces, its characters, its end.
proof fn lemma_number_word(l: char, n: Number, rest: Seq<char>, after: bool)
    requires
        is_code_letter(l),
        space_or_end(rest),
    ensures
        tokens_from(seq![l] + n.text() + rest, 0, after) == tokens_from(rest, 0, true),
        no_break(n.text()),
        ends_in_digit(n.text()),
{
    let (u, s) = crate::number::trimmed(n.magnitude(), n.scale as nat);
    let sign = if n.mantissa < 0 {
        seq!['-']
    } else {
        Seq::<char>::empty()
    };
    let d1 = digits(u / crate::number::pow10(s));
    let frac = if s == 0 {
        Seq::<char>::empty()
    } else {
        seq!['.'] + fixed_digits(u % crate::number::pow10(s), s)
    };
    lemma_digits_are_digits(u / crate::number::pow10(s));
    lemma_fixed_are_digits(u % crate::number::pow10(s), s);
    if s > 0 {
        assert forall|k: int| 1 <= k < frac.len() implies is_digit(#[trigger] frac[k]) by {
            assert(frac[k] == fixed_digits(u % crate::number::pow10(s), s)[k - 1]);
        }
    }
    assert(n.text() == sign + d1 + frac);
    lemma_word_end(l, sign, d1, frac, rest);
    let w = seq![l] + n.text();
    assert(seq![l] + sign + d1 + frac + rest =~= w + rest);
    lemma_word_tokens(w, rest, after);
    assert forall|k: int| 0 <= k < n.text().len() implies n.text()[k] != '\n' by {
        if k < sign.len() {
        } else if k < sign.len() + d1.len() {
            assert(n.text()[k] == d1[k - sign.len()]);
        } else if k == sign.len() + d1.len() {
        } else {
            assert(n.text()[k] == frac[k - sign.len() - d1.len()]);
        }
    }
    if s > 0 {
        assert(n.text().last() == frac[frac.len() - 1]);
    } else {
        assert(n.text().last() == d1[d1.len() - 1]);
    }
}

/// What may follow an opcode on a rendered line: fields, each a space and
/// a word, ending in a digit.
#[verifier::opaque]
spec fn good_tail(rest: Seq<char>) -> bool {
    &&& tokens_from(rest, 0, true)
    &&& space_or_end(rest)
    &&& no_break(rest)
    &&& (rest.len() == 0 || ends_in_digit(rest))
}

proof fn lemma_empty_tail()
    ensures
        good_tail(Seq::<char>::empty()),
{
    reveal(good_tail);
}

proof fn lemma_field_tail(l: char, v: Option<Number>, rest: Seq<char>)
    requires
        is_code_letter(l),
        good_tail(rest),
    ensures
        good_tail(field(l, v) + rest),
{
    reveal(good_tail);
    let f = field(l, v);
    match v {
        None => {
            assert(f + rest =~= rest);
        },
        Some(n) => {
            let w = seq![l] + n.text();
            let s = f + rest;
            assert(s =~= seq![' '] + (w + rest));
            lemma_number_word(l, n, rest, true);
            lemma_tokens_shift(seq![' '], w + rest, 0, true);
            assert(s[0] == ' ');
            lemma_concat_facts(seq![' ', l], n.text());
            assert(f == seq![' ', l] + n.text());
            lemma_concat_facts(f, rest);
        },
    }
}

/// A line made of an opcode (a letter and digits) and a good tail.
proof fn lemma_op_line(l: char, d1: Seq<char>, rest: Seq<char>)
    requires
        is_code_letter(l),
        d1.len() >= 1,
        forall|k: int| 0 <= k < d1.len() ==> is_digit(#[trigger] d1[k]),
        good_tail(rest),
    ensures
        line_ok(seq![l] + d1 + rest),
        no_break(seq![l] + d1 + rest),
        ends_in_digit(seq![l] + d1 + rest),
{
    reveal(good_tail);
    let e = Seq::<char>::empty();
    lemma_word_end(l, e, d1, e, rest);
    let w = seq![l] + d1;
    assert(seq![l] + e + d1 + e + rest =~= w + rest);
    lemma_word_tokens(w, rest, false);
    assert forall|k: int| 0 <= k < w.len() implies w[k] != '\n' by {
        if k > 0 {
            assert(w[k] == d1[k - 1]);
        }
    }
    assert(w.last() == d1.last());
    lemma_concat_facts(w, rest);
}

/// A rendered line body ends in something other than `\r`, so reading it
/// back removes nothing.
proof fn lemma_strip_nothing(b: Seq<char>)
    requires
        b.len() > 0,
        b.last() != '\r',
    ensures
        strip_cr(b) == b,
{
}

/// Instructions whose rendered text reads back as valid lines: a comment
/// without a line break, or raw text whose own lines are all valid and
/// which does not end in `\r`.
pub open spec fn reads_back(code: GCode) -> bool {
    match code {
        GCode::Comment(t) => no_break(t@),
        GCode::Raw(t) => text_ok(t@) && (t@.len() == 0 || t@.last() != '\r'),
        _ => true,
    }
}

/// The text of one instruction is empty or one valid line and its break.
spec fn one_valid_line(t: Seq<char>) -> bool {
    t.len() == 0 || (t.last() == '\n' && no_break(t.drop_last()) && line_ok(
        strip_cr(t.drop_last()),
    ))
}

proof fn lemma_line_of(b: Seq<char>)
    requires
        line_ok(strip_cr(b)),
        no_break(b),
    ensures
        one_valid_line(b + seq!['\n']),
{
    assert((b + seq!['\n']).drop_last() =~= b);
}

proof fn lemma_op_fields_line(l: char, d1: Seq<char>, rest: Seq<char>)
    requires
        is_code_letter(l),
        d1.len() >= 1,
        forall|k: int| 0 <= k < d1.len() ==> is_digit(#[trigger] d1[k]),
        good_tail(rest),
    ensures
        one_valid_line(seq![l] + d1 + rest + seq!['\n']),
{
    lemma_op_line(l, d1, rest);
    let b = seq![l] + d1 + rest;
    lemma_strip_nothing(b);
    lemma_line_of(b);
}

proof fn lemma_rapid_line(x: Option<Number>, y: Option<Number>)
    ensures
        one_valid_line(seq!['G', '0'] + field('X', x) + field('Y', y) + seq!['\n']),
{
    let e = Seq::<char>::empty();
    lemma_empty_tail();
    lemma_field_tail('Y', y, e);
    lemma_field_tail('X', x, field('Y', y) + e);
    lemma_op_fields_line('G', seq!['0'], field('X', x) + (field('Y', y) + e));
    assert(seq!['G'] + seq!['0'] + (field('X', x) + (field('Y', y) + e)) + seq!['\n']
        =~= seq!['G', '0'] + field('X', x) + field('Y', y) + seq!['\n']);
}

proof fn lemma_linear_line(
    x: Option<Number>,
    y: Option<Number>,
    z: Option<Number>,
    emit: Option<Number>,
)
    ensures
        one_valid_line(linear_line(x, y, z, emit)),
{
    let e = Seq::<char>::empty();
    lemma_empty_tail();
    lemma_field_tail('F', emit, e);
    let t3 = field('F', emit) + e;
    lemma_field_tail('Z', z, t3);
    let t2 = field('Z', z) + t3;
    lemma_field_tail('Y', y, t2);
    let t1 = field('Y', y) + t2;
    lemma_field_tail('X', x, t1);
    let t0 = field('X', x) + t1;
    lemma_op_fields_line('G', seq!['1'], t0);
    let g1 = seq!['G', '1'];
    let fx = field('X', x);
    let fy = field('Y', y);
    let fz = field('Z', z);
    let ff = field('F', emit);
    assert(seq!['G'] + seq!['1'] =~= g1);
    assert(ff + e =~= ff);
    lemma_assoc(g1, fx, fy + (fz + ff));
    lemma_assoc(g1 + fx, fy, fz + ff);
    lemma_assoc(g1 + fx + fy, fz, ff);
}

proof fn lemma_assoc(a: Seq<char>, b: Seq<char>, c: Seq<char>)
    ensures
        a + (b + c) == (a + b) + c,
{
    assert(a + (b + c) =~= (a + b) + c);
}

/// An opcode and one field, such as `G4 P<v>` or `M3 S<v>`.
proof fn lemma_op_value_line(l: char, d1: Seq<char>, f: char, v: Number)
    requires
        is_code_letter(l),
        is_code_letter(f),
        d1.len() >= 1,
        forall|k: int| 0 <= k < d1.len() ==> is_digit(#[trigger] d1[k]),
    ensures
        one_valid_line(seq![l] + d1 + seq![' ', f] + v.text() + seq!['\n']),
{
    let e = Seq::<char>::empty();
    lemma_empty_tail();
    lemma_field_tail(f, Some(v), e);
    lemma_op_fields_line(l, d1, field(f, Some(v)) + e);
    assert(seq![l] + d1 + (field(f, Some(v)) + e) + seq!['\n'] =~= seq![l] + d1 + seq![' ', f]
        + v.text() + seq!['\n']);
}

/// A bare opcode such as `G21`.
proof fn lemma_op_only_line(l: char, d1: Seq<char>)
    requires
        is_code_letter(l),
        d1.len() >= 1,
        forall|k: int| 0 <= k < d1.len() ==> is_digit(#[trigger] d1[k]),
    ensures
        one_valid_line(seq![l] + d1 + seq!['\n']),
{
    let e = Seq::<char>::empty();
    lemma_empty_tail();
    lemma_op_fields_line(l, d1, e);
    assert(seq![l] + d1 + e =~= seq![l] + d1);
}

proof fn lemma_comment_line(text: Seq<char>)
    requires
        no_break(text),
    ensures
        one_valid_line(seq!['('] + text + seq![')', '\n']),
{
    let b = seq!['('] + text + seq![')'];
    assert(last_close_before(b, b.len() as int) == b.len() - 1);
    assert(token_end(b, 0) == b.len());
    assert(tokens_from(b, b.len() as int, true));
    assert forall|k: int| 0 <= k < b.len() implies b[k] != '\n' by {
        if 0 < k < b.len() - 1 {
            assert(b[k] == text[k - 1]);
        }
    }
    lemma_strip_nothing(b);
    lemma_line_of(b);
    assert(b + seq!['\n'] =~= seq!['('] + text + seq![')', '\n']);
}

proof fn lemma_code_line(code: GCode, last: Option<Number>)
    requires
        reads_back(code),
        !(code is Raw),
        code_line(code, last) is Ok,
    ensures
        one_valid_line(code_line(code, last)->Ok_0.0),
{
    match code {
        GCode::RapidPositioning { x, y } => {
            if !(x is None && y is None) {
                lemma_rapid_line(x, y);
            }
        },
        GCode::LinearInterpolation { x, y, z, f } => {
            if !(x is None && y is None && z is None && f is None) {
                let (emit, next) = feed_step(last, f)->0;
                lemma_linear_line(x, y, z, emit);
            }
        },
        GCode::Dwell { p } => {
            lemma_op_value_line('G', seq!['4'], 'P', p);
            assert(code_line(code, last)->Ok_0.0 =~= seq!['G'] + seq!['4'] + seq![' ', 'P']
                + p.text() + seq!['\n']);
        },
        GCode::UnitsInches => {
            lemma_op_only_line('G', seq!['2', '0']);
            assert(code_line(code, last)->Ok_0.0 =~= seq!['G'] + seq!['2', '0'] + seq!['\n']);
        },
        GCode::UnitsMillimeters => {
            lemma_op_only_line('G', seq!['2', '1']);
            assert(code_line(code, last)->Ok_0.0 =~= seq!['G'] + seq!['2', '1'] + seq!['\n']);
        },
        GCode::ProgramEnd => {
            lemma_op_only_line('M', seq!['2', '0']);
            assert(code_line(code, last)->Ok_0.0 =~= seq!['M'] + seq!['2', '0'] + seq!['\n']);
        },
        GCode::StartSpindle { d, s } => {
            let m = match d {
                Direction::Clockwise => '3',
                Direction::AntiClockwise => '4',
            };
            lemma_op_value_line('M', seq![m], 'S', s);
            assert(code_line(code, last)->Ok_0.0 =~= seq!['M'] + seq![m] + seq![' ', 'S']
                + s.text() + seq!['\n']);
        },
        GCode::StopSpindle => {
            lemma_op_only_line('M', seq!['5']);
            assert(code_line(code, last)->Ok_0.0 =~= seq!['M'] + seq!['5'] + seq!['\n']);
        },
        GCode::DistanceMode(mode) => {
            let c = match mode {
                Distance::Absolute => '0',
                Distance::Incremental => '1',
            };
            lemma_op_only_line('G', seq!['9', c]);
            assert(code_line(code, last)->Ok_0.0 =~= seq!['G'] + seq!['9', c] + seq!['\n']);
        },
        GCode::Comment(text) => {
            lemma_comment_line(text@);
        },
        GCode::Raw(_) => {},
    }
}

proof fn lemma_lines_shift(p: Seq<char>, r: Seq<char>, st: int, j: int)
    requires
        0 <= st <= j <= r.len(),
    ensures
        lines_ok_from(p + r, p.len() + st, p.len() + j) == lines_ok_from(r, st, j),
    decreases r.len() - j,
{
    let s = p + r;
    if j < r.len() {
        assert(s[p.len() + j] == r[j]);
        if r[j] == '\n' {
            assert(s.subrange(p.len() + st, p.len() + j) =~= r.subrange(st, j));
            lemma_lines_shift(p, r, j + 1, j + 1);
        } else {
            lemma_lines_shift(p, r, st, j + 1);
        }
    } else {
        assert(s.subrange(p.len() + st, s.len() as int) =~= r.subrange(st, r.len() as int));
    }
}

proof fn lemma_lines_first(b: Seq<char>, r: Seq<char>, i: int)
    requires
        no_break(b),
        0 <= i <= b.len(),
    ensures
        lines_ok_from(b + seq!['\n'] + r, 0, i) == (line_ok(strip_cr(b)) && lines_ok_from(
            b + seq!['\n'] + r,
            b.len() + 1 as int,
            b.len() + 1 as int,
        )),
    decreases b.len() - i,
{
    let s = b + seq!['\n'] + r;
    if i < b.len() {
        assert(s[i] == b[i]);
        lemma_lines_first(b, r, i + 1);
    } else {
        assert(s[i] == '\n');
        assert(s.subrange(0, i) =~= b);
    }
}

/// Raw text followed by a line break and more text: its own lines are read
/// as they were, and its last line ends at the added break.
proof fn lemma_raw_lines(t: Seq<char>, r: Seq<char>, start: int, i: int)
    requires
        0 <= start <= i <= t.len(),
        t.len() == 0 || t.last() != '\r',
        lines_ok_from(t, start, i),
        lines_ok_from(t + seq!['\n'] + r, t.len() + 1 as int, t.len() + 1 as int),
    ensures
        lines_ok_from(t + seq!['\n'] + r, start, i),
    decreases t.len() - i,
{
    let s = t + seq!['\n'] + r;
    if i < t.len() {
        assert(s[i] == t[i]);
        if t[i] == '\n' {
            assert(s.subrange(start, i) =~= t.subrange(start, i));
            lemma_raw_lines(t, r, i + 1, i + 1);
        } else {
            lemma_raw_lines(t, r, start, i + 1);
        }
    } else {
        assert(s[i] == '\n');
        let l = s.subrange(start, i);
        assert(l =~= t.subrange(start, t.len() as int));
        if start < t.len() {
            assert(l.last() == t.last());
        } else {
            assert(l.len() == 0);
        }
    }
}

/// Text rendered from instructions that each read back as valid lines (raw
/// text whose own lines are valid, comments without a line break) passes
/// the line validator.
pub proof fn lemma_rendered_text_valid(codes: Seq<GCode>, last: Option<Number>)
    requires
        forall|i: int| 0 <= i < codes.len() ==> reads_back(#[trigger] codes[i]),
        render_from(codes, last) is Ok,
    ensures
        text_ok(render_from(codes, last)->Ok_0),
    decreases codes.len(),
{
    if codes.len() > 0 {
        assert(reads_back(codes[0]));
        let (line, next) = code_line(codes[0], last)->Ok_0;
        let rest = codes.drop_first();
        assert forall|i: int| 0 <= i < rest.len() implies reads_back(#[trigger] rest[i]) by {
            assert(rest[i] == codes[i + 1]);
        }
        lemma_rendered_text_valid(rest, next);
        let r = render_from(rest, next)->Ok_0;
        assert(render_from(codes, last)->Ok_0 == line + r);
        if let GCode::Raw(t) = codes[0] {
            assert(line + r =~= t@ + seq!['\n'] + r);
            lemma_lines_shift(t@ + seq!['\n'], r, 0, 0);
            lemma_raw_lines(t@, r, 0, 0);
        } else if line.len() == 0 {
            assert(line + r =~= r);
        } else {
            lemma_code_line(codes[0], last);
            let b = line.drop_last();
            assert(line + r =~= b + seq!['\n'] + r);
            lemma_lines_first(b, r, 0);
            lemma_lines_shift(b + seq!['\n'], r, 0, 0);
        }
    }
}

} // verus!
