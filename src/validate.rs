use vstd::prelude::*;
use vstd::std_specs::iter::IteratorSpec;

verus! {

/// Letters that may start a word: `A` to `Z` and `^`.
pub open spec fn is_code_letter(c: char) -> bool {
    ('A' <= c && c <= 'Z') || c == '^'
}

/// A decimal digit. Only the ASCII digits count: the numbers this library
/// writes use them, and machine controllers read no others.
pub open spec fn is_digit(c: char) -> bool {
    '0' <= c && c <= '9'
}

/// Horizontal white space.
pub open spec fn is_hspace(c: char) -> bool {
    c == ' ' || c == '\t'
}

/// The end of the run of digits that starts at `i`.
pub open spec fn digits_end(s: Seq<char>, i: int) -> int
    decreases s.len() - i,
{
    if 0 <= i < s.len() && is_digit(s[i]) {
        digits_end(s, i + 1)
    } else {
        i
    }
}

/// Index of the last `)` among the first `n` characters, or -1.
pub open spec fn last_close_before(s: Seq<char>, n: int) -> int
    decreases n,
{
    if n <= 0 {
        -1
    } else if s[n - 1] == ')' {
        n - 1
    } else {
        last_close_before(s, n - 1)
    }
}

/// Where the token that starts at `i` ends, or -1 if none starts there.
/// The scanner's choices: a comment runs to the last `)` of the line, and a
/// number takes every digit that follows. `grammar::lemma_scanner_matches_grammar`
/// proves that with these choices a line is accepted exactly when it splits
/// into tokens of the grammar (`grammar::grammar_line`).
pub open spec fn token_end(s: Seq<char>, i: int) -> int {
    if s[i] == '%' {
        i + 1
    } else if s[i] == '(' {
        let j = last_close_before(s, s.len() as int);
        if j > i {
            j + 1
        } else {
            -1
        }
    } else if is_code_letter(s[i]) {
        let a = if i + 1 < s.len() && (s[i + 1] == '+' || s[i + 1] == '-') {
            i + 2
        } else {
            i + 1
        };
        let b = digits_end(s, a);
        if b == a {
            -1
        } else if b < s.len() && s[b] == '.' {
            digits_end(s, b + 1)
        } else {
            b
        }
    } else {
        -1
    }
}

/// The characters from `i` on form a run of tokens, each followed by any
/// amount of white space; `after` tells whether a token precedes `i`.
pub open spec fn tokens_from(s: Seq<char>, i: int, after: bool) -> bool
    decreases s.len() - i,
{
    if i < 0 || i >= s.len() {
        true
    } else if after && is_hspace(s[i]) {
        tokens_from(s, i + 1, true)
    } else {
        let e = token_end(s, i);
        if i < e && e <= s.len() {
            tokens_from(s, e, true)
        } else {
            false
        }
    }
}

/// A single line that fits the grammar.
pub open spec fn line_ok(s: Seq<char>) -> bool {
    tokens_from(s, 0, false)
}

/// A line without the `\r` that may stand before its line break.
pub open spec fn strip_cr(l: Seq<char>) -> Seq<char> {
    if l.len() > 0 && l.last() == '\r' {
        l.drop_last()
    } else {
        l
    }
}

/// Every line of `s` from the line that starts at `start` on fits the
/// grammar, having read up to `i`. Lines end at `\n`, which may have a `\r`
/// before it; the last line may lack a line break; text that ends in a line
/// break has no empty line after it.
pub open spec fn lines_ok_from(s: Seq<char>, start: int, i: int) -> bool
    decreases s.len() - i,
{
    if i < 0 || i >= s.len() {
        start >= s.len() || line_ok(s.subrange(start, s.len() as int))
    } else if s[i] == '\n' {
        line_ok(strip_cr(s.subrange(start, i))) && lines_ok_from(s, i + 1, i + 1)
    } else {
        lines_ok_from(s, start, i + 1)
    }
}

/// Every line of `s` fits the grammar.
pub open spec fn text_ok(s: Seq<char>) -> bool {
    lines_ok_from(s, 0, 0)
}

fn hspace(c: char) -> (r: bool)
    ensures
        r == is_hspace(c),
{
    c == ' ' || c == '\t'
}

fn digits_end_exec(s: &Vec<char>, i: usize) -> (r: usize)
    requires
        i <= s@.len(),
    ensures
        r as int == digits_end(s@, i as int),
        i <= r <= s@.len(),
{
    let mut j = i;
    while j < s.len() && '0' <= s[j] && s[j] <= '9'
        invariant
            i <= j <= s@.len(),
            digits_end(s@, i as int) == digits_end(s@, j as int),
        decreases s@.len() - j,
    {
        j = j + 1;
    }
    j
}

fn last_close(s: &Vec<char>) -> (r: Option<usize>)
    ensures
        match r {
            Some(j) => j as int == last_close_before(s@, s@.len() as int) && j < s@.len(),
            None => last_close_before(s@, s@.len() as int) == -1,
        },
{
    let mut n = s.len();
    while n > 0
        invariant
            n <= s@.len(),
            last_close_before(s@, s@.len() as int) == last_close_before(s@, n as int),
        decreases n,
    {
        if s[n - 1] == ')' {
            return Some(n - 1);
        }
        n = n - 1;
    }
    None
}

fn token_end_exec(s: &Vec<char>, i: usize) -> (r: Option<usize>)
    requires
        i < s@.len() < usize::MAX,
    ensures
        match r {
            Some(e) => e as int == token_end(s@, i as int),
            None => token_end(s@, i as int) == -1,
        },
{
    let c = s[i];
    if c == '%' {
        Some(i + 1)
    } else if c == '(' {
        match last_close(s) {
            Some(j) => if j > i {
                Some(j + 1)
            } else {
                None
            },
            None => None,
        }
    } else if ('A' <= c && c <= 'Z') || c == '^' {
        let a = if i + 1 < s.len() && (s[i + 1] == '+' || s[i + 1] == '-') {
            i + 2
        } else {
            i + 1
        };
        let b = digits_end_exec(s, a);
        if b == a {
            None
        } else if b < s.len() && s[b] == '.' {
            Some(digits_end_exec(s, b + 1))
        } else {
            Some(b)
        }
    } else {
        None
    }
}

/// Whether one line, without its line break, fits the grammar.
pub fn line_is_valid(s: &Vec<char>) -> (r: bool)
    requires
        s@.len() < usize::MAX,
    ensures
        r == line_ok(s@),
{
    let mut i: usize = 0;
    let mut after = false;
    while i < s.len()
        invariant
            i <= s@.len() < usize::MAX,
            line_ok(s@) == tokens_from(s@, i as int, after),
        decreases s@.len() - i,
    {
        if after && hspace(s[i]) {
            i = i + 1;
        } else {
            match token_end_exec(s, i) {
                Some(e) => {
                    if i < e && e <= s.len() {
                        i = e;
                        after = true;
                    } else {
                        return false;
                    }
                },
                None => {
                    return false;
                },
            }
        }
    }
    true
}

/// Whether every line of `gcode` fits the grammar.
pub fn validate_gcode(gcode: &&str) -> (r: bool)
    requires
        gcode@.len() < usize::MAX,
    ensures
        r == text_ok(gcode@),
{
    broadcast use vstd::string::group_string_axioms;

    let s: &str = *gcode;
    let ghost text = s@;
    let mut it = s.chars();
    let mut cur: Vec<char> = Vec::new();
    let mut i: usize = 0;
    let mut start: usize = 0;
    assert(text.skip(0) =~= text);
    loop
        invariant
            text == gcode@,
            text.len() < usize::MAX,
            start <= i <= text.len(),
            it.obeys_prophetic_iter_laws(),
            it.remaining() == text.skip(i as int),
            cur@ == text.subrange(start as int, i as int),
            text_ok(text) == lines_ok_from(text, start as int, i as int),
        decreases text.len() - i,
    {
        let ghost rem = it.remaining();
        match it.next() {
            None => {
                assert(i == text.len());
                if cur.len() == 0 {
                    return true;
                }
                return line_is_valid(&cur);
            },
            Some(c) => {
                assert(rem.len() > 0 && c == text[i as int]);
                assert(it.remaining() =~= text.skip(i + 1));
                if c == '\n' {
                    let ghost raw = cur@;
                    if cur.len() > 0 && cur[cur.len() - 1] == '\r' {
                        cur.pop();
                    }
                    assert(cur@ =~= strip_cr(raw));
                    if !line_is_valid(&cur) {
                        return false;
                    }
                    cur = Vec::new();
                    start = i + 1;
                    assert(cur@ =~= text.subrange(start as int, i + 1));
                } else {
                    cur.push(c);
                    assert(cur@ =~= text.subrange(start as int, i + 1));
                }
                i = i + 1;
            },
        }
    }
}

} // verus!
