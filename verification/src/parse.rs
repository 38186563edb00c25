//! The population text format: rows separated by newlines, cells separated
//! by blanks, `_` for an empty cell, a decimal number in `1..=size` for a
//! given. The format is specified here as functions over character
//! sequences; the executable parser is proved to decide them exactly.

use vstd::prelude::*;

use crate::sudoku::cell_val;

verus! {

/// A cell separator within a line.
pub open spec fn is_blank(c: char) -> bool {
    c == ' ' || c == '\t' || c == '\r'
}

/// An ASCII decimal digit.
pub open spec fn is_digit(c: char) -> bool {
    '0' as u32 <= c as u32 && c as u32 <= '9' as u32
}

/// The numeric value of a digit character.
pub open spec fn digit_val(c: char) -> int {
    c as u32 - '0' as u32
}

/// Index of the first newline in `s`, or its length if there is none.
pub open spec fn line_break(s: Seq<char>) -> int
    decreases s.len(),
{
    if s.len() == 0 {
        0
    } else if s[0] == '\n' {
        0
    } else {
        1 + line_break(s.drop_first())
    }
}

/// `line_break` finds the first newline: everything before it is not a
/// newline, and it is a newline unless the sequence has none.
pub proof fn lemma_line_break_props(s: Seq<char>)
    ensures
        0 <= line_break(s) <= s.len(),
        line_break(s) < s.len() ==> s[line_break(s)] == '\n',
        forall|i: int| 0 <= i < line_break(s) ==> s[i] != '\n',
    decreases s.len(),
{
    if s.len() != 0 && s[0] != '\n' {
        lemma_line_break_props(s.drop_first());
        assert forall|i: int| 0 <= i < line_break(s) implies s[i] != '\n' by {
            if i > 0 {
                assert(s.drop_first()[i - 1] == s[i]);
            }
        }
    }
}

/// A position with no newline before it, holding a newline or past the
/// end, is where `line_break` points.
pub proof fn lemma_line_break_at(s: Seq<char>, k: int)
    requires
        0 <= k <= s.len(),
        forall|i: int| 0 <= i < k ==> s[i] != '\n',
        k < s.len() ==> s[k] == '\n',
    ensures
        line_break(s) == k,
    decreases k,
{
    if k > 0 {
        lemma_line_break_at(s.drop_first(), k - 1);
    } else if s.len() > 0 {
        assert(s[0] == '\n');
    }
}

/// The lines of `s`: the segments between newlines, with no newline of its
/// own ever dropped — `n` lines are separated by exactly `n - 1` newlines.
pub open spec fn split_lines(s: Seq<char>) -> Seq<Seq<char>>
    decreases s.len(),
    via Self_split_lines_decreases
{
    let k = line_break(s);
    if k >= s.len() {
        seq![s]
    } else {
        seq![s.subrange(0, k)] + split_lines(s.subrange(k + 1, s.len() as int))
    }
}

#[via_fn]
proof fn Self_split_lines_decreases(s: Seq<char>) {
    lemma_line_break_props(s);
}

/// Length of the run of non-blank characters at the head of `l`.
pub open spec fn token_end(l: Seq<char>) -> int
    decreases l.len(),
{
    if l.len() == 0 {
        0
    } else if is_blank(l[0]) {
        0
    } else {
        1 + token_end(l.drop_first())
    }
}

/// `token_end` delimits the head token: everything before it is non-blank,
/// and it is blank unless the run reaches the end.
pub proof fn lemma_token_end_props(l: Seq<char>)
    ensures
        0 <= token_end(l) <= l.len(),
        token_end(l) < l.len() ==> is_blank(l[token_end(l)]),
        forall|i: int| 0 <= i < token_end(l) ==> !is_blank(l[i]),
        l.len() > 0 && !is_blank(l[0]) ==> token_end(l) >= 1,
    decreases l.len(),
{
    if l.len() != 0 && !is_blank(l[0]) {
        lemma_token_end_props(l.drop_first());
        assert forall|i: int| 0 <= i < token_end(l) implies !is_blank(l[i]) by {
            if i > 0 {
                assert(l.drop_first()[i - 1] == l[i]);
            }
        }
    }
}

/// A position preceded by non-blanks only, holding a blank or past the
/// end, is where `token_end` points.
pub proof fn lemma_token_end_at(l: Seq<char>, k: int)
    requires
        0 <= k <= l.len(),
        forall|i: int| 0 <= i < k ==> !is_blank(l[i]),
        k < l.len() ==> is_blank(l[k]),
    ensures
        token_end(l) == k,
    decreases k,
{
    if k > 0 {
        lemma_token_end_at(l.drop_first(), k - 1);
    } else if l.len() > 0 {
        assert(is_blank(l[0]));
    }
}

/// The maximal blank-free segments of a line, in order.
pub open spec fn tokenize(l: Seq<char>) -> Seq<Seq<char>>
    decreases l.len(),
    via Self_tokenize_decreases
{
    if l.len() == 0 {
        Seq::empty()
    } else if is_blank(l[0]) {
        tokenize(l.drop_first())
    } else {
        let k = token_end(l);
        seq![l.subrange(0, k)] + tokenize(l.subrange(k, l.len() as int))
    }
}

#[via_fn]
proof fn Self_tokenize_decreases(l: Seq<char>) {
    lemma_token_end_props(l);
}

/// Every character of `t` is a decimal digit.
pub open spec fn all_digits(t: Seq<char>) -> bool {
    forall|i: int| 0 <= i < t.len() ==> is_digit(#[trigger] t[i])
}

/// The number denoted by a digit string, most significant digit first.
pub open spec fn dec_value(t: Seq<char>) -> int
    decreases t.len(),
{
    if t.len() == 0 {
        0
    } else {
        dec_value(t.drop_last()) * 10 + digit_val(t.last())
    }
}

/// The cell a token denotes on a board of side `n`: `_` is an empty cell,
/// a digit string with value in `1..=n` is a given, and anything else is a
/// parse error.
pub open spec fn token_cell(t: Seq<char>, n: int) -> Option<Option<int>> {
    if t.len() == 1 && t[0] == '_' {
        Some(None)
    } else if t.len() >= 1 && all_digits(t) && 1 <= dec_value(t) <= n {
        Some(Some(dec_value(t)))
    } else {
        None
    }
}

/// The cells denoted by a sequence of tokens, or a parse error if any
/// token is malformed.
pub open spec fn parse_tokens(toks: Seq<Seq<char>>, n: int) -> Option<Seq<Option<int>>>
    decreases toks.len(),
{
    if toks.len() == 0 {
        Some(Seq::empty())
    } else {
        match token_cell(toks[0], n) {
            None => None,
            Some(cell) => match parse_tokens(toks.drop_first(), n) {
                None => None,
                Some(rest) => Some(seq![cell] + rest),
            },
        }
    }
}

/// The row denoted by one line: exactly `n` tokens, each a valid cell.
pub open spec fn parse_line(l: Seq<char>, n: int) -> Option<Seq<Option<int>>> {
    if tokenize(l).len() == n {
        parse_tokens(tokenize(l), n)
    } else {
        None
    }
}

/// The rows denoted by a sequence of lines.
pub open spec fn parse_lines(ls: Seq<Seq<char>>, n: int) -> Option<Seq<Seq<Option<int>>>>
    decreases ls.len(),
{
    if ls.len() == 0 {
        Some(Seq::empty())
    } else {
        match parse_line(ls[0], n) {
            None => None,
            Some(row) => match parse_lines(ls.drop_first(), n) {
                None => None,
                Some(rest) => Some(seq![row] + rest),
            },
        }
    }
}

/// The grid denoted by a population text for a board of side `n`: exactly
/// `n` lines of `n` tokens each, every token either `_` or a value in
/// `1..=n`. Anything else is a parse error.
pub open spec fn parse_grid(s: Seq<char>, n: int) -> Option<Seq<Seq<Option<int>>>> {
    if split_lines(s).len() == n {
        parse_lines(split_lines(s), n)
    } else {
        None
    }
}

/// Splitting a parse of concatenated token sequences.
pub proof fn lemma_parse_tokens_append(a: Seq<Seq<char>>, b: Seq<Seq<char>>, n: int)
    ensures
        parse_tokens(a + b, n) == match parse_tokens(a, n) {
            None => None::<Seq<Option<int>>>,
            Some(x) => match parse_tokens(b, n) {
                None => None::<Seq<Option<int>>>,
                Some(y) => Some(x + y),
            },
        },
    decreases a.len(),
{
    if a.len() == 0 {
        assert(a + b =~= b);
        match parse_tokens(b, n) {
            None => {},
            Some(y) => {
                assert(Seq::<Option<int>>::empty() + y =~= y);
            },
        }
    } else {
        assert((a + b).drop_first() =~= a.drop_first() + b);
        lemma_parse_tokens_append(a.drop_first(), b, n);
        match token_cell(a[0], n) {
            None => {},
            Some(cell) => {
                match parse_tokens(a.drop_first(), n) {
                    None => {},
                    Some(x1) => {
                        match parse_tokens(b, n) {
                            None => {},
                            Some(y) => {
                                assert(seq![cell] + (x1 + y) =~= (seq![cell] + x1) + y);
                            },
                        }
                    },
                }
            },
        }
    }
}

/// Splitting a parse of concatenated line sequences.
pub proof fn lemma_parse_lines_append(a: Seq<Seq<char>>, b: Seq<Seq<char>>, n: int)
    ensures
        parse_lines(a + b, n) == match parse_lines(a, n) {
            None => None::<Seq<Seq<Option<int>>>>,
            Some(x) => match parse_lines(b, n) {
                None => None::<Seq<Seq<Option<int>>>>,
                Some(y) => Some(x + y),
            },
        },
    decreases a.len(),
{
    if a.len() == 0 {
        assert(a + b =~= b);
        match parse_lines(b, n) {
            None => {},
            Some(y) => {
                assert(Seq::<Seq<Option<int>>>::empty() + y =~= y);
            },
        }
    } else {
        assert((a + b).drop_first() =~= a.drop_first() + b);
        lemma_parse_lines_append(a.drop_first(), b, n);
        match parse_line(a[0], n) {
            None => {},
            Some(row) => {
                match parse_lines(a.drop_first(), n) {
                    None => {},
                    Some(x1) => {
                        match parse_lines(b, n) {
                            None => {},
                            Some(y) => {
                                assert(seq![row] + (x1 + y) =~= (seq![row] + x1) + y);
                            },
                        }
                    },
                }
            },
        }
    }
}

/// A successful token parse yields one cell per token, each in range.
pub proof fn lemma_parse_tokens_shape(toks: Seq<Seq<char>>, n: int)
    requires
        parse_tokens(toks, n) is Some,
    ensures
        parse_tokens(toks, n)->0.len() == toks.len(),
        forall|i: int|
            0 <= i < toks.len() && (#[trigger] parse_tokens(toks, n)->0[i]) is Some ==> 1
                <= parse_tokens(toks, n)->0[i]->0 <= n,
    decreases toks.len(),
{
    if toks.len() > 0 {
        lemma_parse_tokens_shape(toks.drop_first(), n);
    }
}

/// A successful grid parse yields one row per line.
pub proof fn lemma_parse_lines_shape(ls: Seq<Seq<char>>, n: int)
    requires
        parse_lines(ls, n) is Some,
    ensures
        parse_lines(ls, n)->0.len() == ls.len(),
        forall|i: int|
            0 <= i < ls.len() ==> (#[trigger] parse_lines(ls, n)->0[i]).len() == n
                && parse_line(ls[i], n) is Some && parse_lines(ls, n)->0[i] == parse_line(
                ls[i],
                n,
            )->0,
    decreases ls.len(),
{
    if ls.len() > 0 {
        lemma_parse_lines_shape(ls.drop_first(), n);
        lemma_parse_tokens_shape(tokenize(ls[0]), n);
        assert forall|i: int| 0 <= i < ls.len() implies (#[trigger] parse_lines(ls, n)->0[i]).len()
            == n && parse_line(ls[i], n) is Some && parse_lines(ls, n)->0[i] == parse_line(
            ls[i],
            n,
        )->0 by {
            let row = parse_line(ls[0], n)->0;
            let rest = parse_lines(ls.drop_first(), n)->0;
            assert(parse_lines(ls, n)->0 == seq![row] + rest);
            if i > 0 {
                assert(ls.drop_first()[i - 1] == ls[i]);
                assert((seq![row] + rest)[i] == rest[i - 1]);
            } else {
                assert((seq![row] + rest)[0] == row);
                assert(tokenize(ls[0]).len() == n);
                lemma_parse_tokens_shape(tokenize(ls[0]), n);
            }
        }
    }
}

/// A successful grid parse yields an `n x n` matrix with every given in
/// `1..=n`.
pub proof fn lemma_parse_grid_shape(s: Seq<char>, n: int)
    requires
        parse_grid(s, n) is Some,
    ensures
        parse_grid(s, n)->0.len() == n,
        forall|i: int| 0 <= i < n ==> (#[trigger] parse_grid(s, n)->0[i]).len() == n,
        forall|i: int, j: int|
            0 <= i < n && 0 <= j < n && (#[trigger] parse_grid(s, n)->0[i][j]) is Some ==> 1
                <= parse_grid(s, n)->0[i][j]->0 <= n,
{
    let ls = split_lines(s);
    lemma_parse_lines_shape(ls, n);
    assert forall|i: int, j: int|
        0 <= i < n && 0 <= j < n && (#[trigger] parse_grid(s, n)->0[i][j]) is Some implies 1
        <= parse_grid(s, n)->0[i][j]->0 <= n by {
        lemma_parse_tokens_shape(tokenize(ls[i]), n);
        assert(parse_grid(s, n)->0[i][j] == parse_tokens(tokenize(ls[i]), n)->0[j]);
    }
}

/// The value of a digit string is never negative.
pub proof fn lemma_dec_value_nonneg(t: Seq<char>)
    requires
        all_digits(t),
    ensures
        dec_value(t) >= 0,
    decreases t.len(),
{
    if t.len() > 0 {
        assert(forall|i: int|
            0 <= i < t.drop_last().len() ==> is_digit(#[trigger] t.drop_last()[i]));
        lemma_dec_value_nonneg(t.drop_last());
    }
}

/// Appending digits never shrinks a digit string's value: once a prefix
/// exceeds a nonnegative bound, the whole string does.
pub proof fn lemma_dec_value_prefix_exceeds(t: Seq<char>, m: int, n: int)
    requires
        all_digits(t),
        0 <= m <= t.len(),
        dec_value(t.take(m)) > n,
        n >= 0,
    ensures
        dec_value(t) > n,
    decreases t.len() - m,
{
    if m < t.len() {
        assert(t.take(m + 1).drop_last() =~= t.take(m));
        assert(t.take(m + 1).last() == t[m]);
        assert(forall|i: int|
            0 <= i < t.take(m + 1).len() ==> is_digit(#[trigger] t.take(m + 1)[i]));
        assert(dec_value(t.take(m + 1)) == dec_value(t.take(m)) * 10 + digit_val(t[m]));
        lemma_dec_value_prefix_exceeds(t, m + 1, n);
    } else {
        assert(t.take(m) =~= t);
    }
}

/// Whether `c` separates cells within a line.
fn is_blank_char(c: char) -> (r: bool)
    ensures
        r == is_blank(c),
{
    c == ' ' || c == '\t' || c == '\r'
}

/// Scan from `start` to the end of the current line: the first newline at
/// or after `start`, or the end of the text.
fn scan_line_end(s: &str, start: usize, len: usize) -> (end: usize)
    requires
        len == s@.len(),
        start <= len,
    ensures
        start <= end <= len,
        forall|i: int| start <= i < end ==> s@[i] != '\n',
        end < len ==> s@[end as int] == '\n',
{
    let mut i = start;
    while i < len
        invariant
            start <= i <= len,
            len == s@.len(),
            forall|k: int| start <= k < i ==> s@[k] != '\n',
        decreases len - i,
    {
        if s.get_char(i) == '\n' {
            return i;
        }
        i = i + 1;
    }
    i
}

/// Parse one token, the characters `start..end` of `s`, as a cell for a
/// board of side `n`: decides [`token_cell`] exactly.
fn parse_token_exec(s: &str, start: usize, end: usize, n: usize) -> (r: Option<Option<usize>>)
    requires
        start < end,
        end <= s@.len(),
    ensures
        ({
            let t = s@.subrange(start as int, end as int);
            match token_cell(t, n as int) {
                Some(cell) => r is Some && cell_val(r->0) == cell,
                None => r is None,
            }
        }),
{
    let ghost t = s@.subrange(start as int, end as int);
    let first = s.get_char(start);
    if first == '_' {
        if end - start == 1 {
            proof {
                assert(t.len() == 1 && t[0] == '_');
            }
            return Some(None);
        }
        proof {
            assert(t[0] == '_');
            assert(!is_digit(t[0]));
            assert(token_cell(t, n as int) is None);
        }
        return None;
    }
    let mut i = start;
    let mut val: usize = 0;
    while i < end
        invariant
            start <= i <= end,
            end <= s@.len(),
            t == s@.subrange(start as int, end as int),
            t[0] != '_',
            forall|k: int| 0 <= k < i - start ==> is_digit(#[trigger] t[k]),
            val as int == dec_value(t.take(i - start)),
            val <= n,
        decreases end - i,
    {
        let c = s.get_char(i);
        proof {
            assert(t[i - start] == s@[i as int]);
        }
        if !('0' <= c && c <= '9') {
            proof {
                assert(!is_digit(t[i - start]));
                assert(!all_digits(t));
                assert(token_cell(t, n as int) is None);
            }
            return None;
        }
        let d = (c as u32 as usize) - 48;
        proof {
            assert(t.take(i - start + 1).drop_last() =~= t.take(i - start));
            assert(t.take(i - start + 1).last() == t[i - start]);
            assert(d == digit_val(t[i - start]));
            vstd::arithmetic::div_mod::lemma_fundamental_div_mod(n as int, 10);
            vstd::arithmetic::div_mod::lemma_mod_bound(n as int, 10);
        }
        if val > n / 10 {
            proof {
                assert(dec_value(t.take(i - start + 1)) > n);
                if all_digits(t) {
                    lemma_dec_value_prefix_exceeds(t, i - start + 1, n as int);
                }
                assert(token_cell(t, n as int) is None);
            }
            return None;
        }
        let step = val * 10;
        if d > n - step {
            proof {
                assert(dec_value(t.take(i - start + 1)) > n);
                if all_digits(t) {
                    lemma_dec_value_prefix_exceeds(t, i - start + 1, n as int);
                }
                assert(token_cell(t, n as int) is None);
            }
            return None;
        }
        val = step + d;
        i = i + 1;
    }
    proof {
        assert(t.take(end - start) =~= t);
    }
    if val == 0 {
        proof {
            assert(token_cell(t, n as int) is None);
        }
        return None;
    }
    proof {
        assert(token_cell(t, n as int) == Some(Some(val as int)));
    }
    Some(Some(val))
}

/// The mathematical content of a vector of executable cells.
pub open spec fn cells_view(v: Seq<Option<usize>>) -> Seq<Option<int>> {
    Seq::new(v.len(), |i: int| cell_val(v[i]))
}

/// The mathematical content of a vector of executable rows.
pub open spec fn grid_view(g: Seq<Vec<Option<usize>>>) -> Seq<Seq<Option<int>>> {
    Seq::new(g.len(), |i: int| cells_view(g[i]@))
}

/// Parse one line, the characters `start..end` of `s`, as a row of `n`
/// cells: decides [`parse_line`] exactly.
fn parse_line_exec(s: &str, start: usize, end: usize, n: usize) -> (r: Option<Vec<Option<usize>>>)
    requires
        start <= end,
        end <= s@.len(),
    ensures
        ({
            let l = s@.subrange(start as int, end as int);
            match parse_line(l, n as int) {
                Some(cells) => r is Some && r->0@.len() == n && cells_view(r->0@) == cells,
                None => r is None,
            }
        }),
{
    let ghost l = s@.subrange(start as int, end as int);
    let mut cells: Vec<Option<usize>> = Vec::new();
    let ghost mut done_toks: Seq<Seq<char>> = Seq::empty();
    let mut p = start;
    proof {
        assert(l.subrange(p - start, l.len() as int) =~= l);
        assert(done_toks + tokenize(l.subrange(p - start, l.len() as int)) =~= tokenize(l));
    }
    while p < end
        invariant
            start <= p <= end,
            end <= s@.len(),
            l == s@.subrange(start as int, end as int),
            tokenize(l) == done_toks + tokenize(l.subrange(p - start, l.len() as int)),
            parse_tokens(done_toks, n as int) == Some(cells_view(cells@)),
            cells@.len() == done_toks.len(),
        decreases end - p,
    {
        let c = s.get_char(p);
        proof {
            assert(l.subrange(p - start, l.len() as int)[0] == s@[p as int]);
        }
        if is_blank_char(c) {
            proof {
                let rest = l.subrange(p - start, l.len() as int);
                assert(rest.drop_first() =~= l.subrange(p + 1 - start, l.len() as int));
                assert(tokenize(rest) == tokenize(rest.drop_first()));
            }
            p = p + 1;
        } else {
            let mut q = p + 1;
            while q < end && !is_blank_char(s.get_char(q))
                invariant
                    p < q <= end,
                    end <= s@.len(),
                    forall|k: int| p <= k < q ==> !is_blank(s@[k]),
                decreases end - q,
            {
                q = q + 1;
            }
            let ghost t = s@.subrange(p as int, q as int);
            proof {
                let rest = l.subrange(p - start, l.len() as int);
                assert forall|i: int| 0 <= i < q - p implies !is_blank(rest[i]) by {
                    assert(rest[i] == s@[p + i]);
                }
                if q - p < rest.len() {
                    assert(rest[q - p] == s@[q as int]);
                }
                lemma_token_end_at(rest, q - p);
                assert(rest.subrange(0, q - p) =~= t);
                assert(rest.subrange(q - p, rest.len() as int) =~= l.subrange(
                    q - start,
                    l.len() as int,
                ));
                assert(tokenize(rest) == seq![t] + tokenize(l.subrange(q - start, l.len() as int)));
                assert(tokenize(l) =~= (done_toks + seq![t]) + tokenize(
                    l.subrange(q - start, l.len() as int),
                ));
            }
            match parse_token_exec(s, p, q, n) {
                None => {
                    proof {
                        if tokenize(l).len() == n {
                            lemma_parse_tokens_append(
                                done_toks,
                                seq![t] + tokenize(l.subrange(q - start, l.len() as int)),
                                n as int,
                            );
                            assert((seq![t] + tokenize(l.subrange(q - start, l.len() as int)))[0]
                                == t);
                        }
                        assert(parse_line(l, n as int) is None);
                    }
                    return None;
                },
                Some(cell) => {
                    cells.push(cell);
                    proof {
                        lemma_parse_tokens_append(done_toks, seq![t], n as int);
                        assert(seq![t].drop_first() =~= Seq::<Seq<char>>::empty());
                        assert(seq![t][0] == t);
                        assert(token_cell(t, n as int) == Some(cell_val(cell)));
                        assert(parse_tokens(Seq::<Seq<char>>::empty(), n as int) == Some(
                            Seq::<Option<int>>::empty(),
                        ));
                        assert(parse_tokens(seq![t], n as int) == Some(
                            seq![cell_val(cell)] + Seq::<Option<int>>::empty(),
                        ));
                        let prev = cells_view(cells@.drop_last());
                        assert(prev + (seq![cell_val(cell)] + Seq::<Option<int>>::empty())
                            =~= cells_view(cells@));
                        done_toks = done_toks + seq![t];
                    }
                    p = q;
                },
            }
        }
    }
    proof {
        assert(l.subrange(p - start, l.len() as int) =~= Seq::<char>::empty());
        assert(tokenize(Seq::<char>::empty()) =~= Seq::<Seq<char>>::empty());
        assert(done_toks + Seq::<Seq<char>>::empty() =~= done_toks);
        assert(tokenize(l) == done_toks);
    }
    if cells.len() == n {
        proof {
            assert(parse_line(l, n as int) == Some(cells_view(cells@)));
        }
        Some(cells)
    } else {
        proof {
            assert(tokenize(l).len() != n);
            assert(parse_line(l, n as int) is None);
        }
        None
    }
}

/// Parse a whole population text as an `n x n` grid: decides
/// [`parse_grid`] exactly.
pub(crate) fn parse_grid_exec(s: &str, n: usize) -> (r: Option<Vec<Vec<Option<usize>>>>)
    ensures
        match parse_grid(s@, n as int) {
            Some(cells) => r is Some && r->0@.len() == n && grid_view(r->0@) == cells && forall|
                i: int,
            |
                0 <= i < n ==> (#[trigger] r->0@[i])@.len() == n,
            None => r is None,
        },
{
    let len = s.unicode_len();
    let mut rows: Vec<Vec<Option<usize>>> = Vec::new();
    let ghost mut done_lines: Seq<Seq<char>> = Seq::empty();
    let mut i: usize = 0;
    let mut finished = false;
    proof {
        assert(s@.subrange(0, len as int) =~= s@);
        assert(done_lines + split_lines(s@.subrange(0, len as int)) =~= split_lines(s@));
    }
    while !finished
        invariant
            i <= len,
            len == s@.len(),
            !finished ==> split_lines(s@) == done_lines + split_lines(
                s@.subrange(i as int, len as int),
            ),
            finished ==> split_lines(s@) == done_lines,
            parse_lines(done_lines, n as int) == Some(grid_view(rows@)),
            rows@.len() == done_lines.len(),
            forall|k: int| 0 <= k < rows@.len() ==> (#[trigger] rows@[k])@.len() == n,
        decreases len - i, (if finished {
            0int
        } else {
            1int
        }),
    {
        let j = scan_line_end(s, i, len);
        let ghost rest = s@.subrange(i as int, len as int);
        let ghost line = s@.subrange(i as int, j as int);
        proof {
            assert forall|k: int| 0 <= k < j - i implies rest[k] != '\n' by {
                assert(rest[k] == s@[i + k]);
            }
            if j - i < rest.len() {
                assert(rest[j - i] == s@[j as int]);
            }
            lemma_line_break_at(rest, j - i);
            assert(rest.subrange(0, j - i) =~= line);
            if j < len {
                assert(rest.subrange(j + 1 - i, rest.len() as int) =~= s@.subrange(
                    j + 1,
                    len as int,
                ));
                assert(split_lines(rest) == seq![line] + split_lines(
                    s@.subrange(j + 1, len as int),
                ));
                assert(split_lines(s@) =~= (done_lines + seq![line]) + split_lines(
                    s@.subrange(j + 1, len as int),
                ));
            } else {
                assert(rest.subrange(0, j - i) =~= rest);
                assert(split_lines(rest) == seq![rest]);
                assert(split_lines(s@) =~= done_lines + seq![line]);
            }
        }
        match parse_line_exec(s, i, j, n) {
            None => {
                proof {
                    if split_lines(s@).len() == n {
                        if j < len {
                            lemma_parse_lines_append(
                                done_lines,
                                seq![line] + split_lines(s@.subrange(j + 1, len as int)),
                                n as int,
                            );
                            assert((seq![line] + split_lines(s@.subrange(j + 1, len as int)))[0]
                                == line);
                        } else {
                            lemma_parse_lines_append(done_lines, seq![line], n as int);
                            assert(seq![line][0] == line);
                        }
                    }
                    assert(parse_grid(s@, n as int) is None);
                }
                return None;
            },
            Some(row) => {
                rows.push(row);
                proof {
                    lemma_parse_lines_append(done_lines, seq![line], n as int);
                    assert(seq![line].drop_first() =~= Seq::<Seq<char>>::empty());
                    assert(seq![line][0] == line);
                    assert(parse_line(line, n as int) == Some(cells_view(row@)));
                    assert(parse_lines(Seq::<Seq<char>>::empty(), n as int) == Some(
                        Seq::<Seq<Option<int>>>::empty(),
                    ));
                    assert(parse_lines(seq![line], n as int) == Some(
                        seq![cells_view(row@)] + Seq::<Seq<Option<int>>>::empty(),
                    ));
                    let prev = grid_view(rows@.drop_last());
                    assert(prev + (seq![cells_view(row@)] + Seq::<Seq<Option<int>>>::empty())
                        =~= grid_view(rows@));
                    done_lines = done_lines + seq![line];
                }
                if j < len {
                    i = j + 1;
                } else {
                    finished = true;
                }
            },
        }
    }
    if rows.len() == n {
        proof {
            assert(parse_grid(s@, n as int) == Some(grid_view(rows@)));
        }
        Some(rows)
    } else {
        proof {
            assert(split_lines(s@).len() != n);
            assert(parse_grid(s@, n as int) is None);
        }
        None
    }
}

} // verus!
