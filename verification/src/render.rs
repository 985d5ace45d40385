//! Rendering of parse diagnostics: decimal numbers, space padding, and
//! line lookup in the offending source text, each specified exactly at the
//! character level so that the whole message a `ParseError` produces is
//! pinned down by `error_msg`.

use vstd::prelude::*;
use vstd::string::{StrSliceExecFns, StringExecFns};

use crate::compiler::Token;

verus! {

/// The character for one decimal digit.
pub open spec fn digit_char(d: nat) -> char {
    if d == 0 {
        '0'
    } else if d == 1 {
        '1'
    } else if d == 2 {
        '2'
    } else if d == 3 {
        '3'
    } else if d == 4 {
        '4'
    } else if d == 5 {
        '5'
    } else if d == 6 {
        '6'
    } else if d == 7 {
        '7'
    } else if d == 8 {
        '8'
    } else {
        '9'
    }
}

/// The usual decimal rendering of a number, most significant digit first.
pub open spec fn dec_str(n: nat) -> Seq<char>
    decreases n,
{
    if n < 10 {
        seq![digit_char(n)]
    } else {
        dec_str(n / 10).push(digit_char(n % 10))
    }
}

/// `n` spaces.
pub open spec fn spaces(n: nat) -> Seq<char> {
    Seq::new(n, |i: int| ' ')
}

/// Index of the first newline of `s`, or `s.len()` when there is none.
pub open spec fn first_nl(s: Seq<char>) -> int
    decreases s.len(),
{
    if s.len() == 0 {
        0
    } else if s[0] == '\n' {
        0
    } else {
        1 + first_nl(s.drop_first())
    }
}

pub proof fn lemma_first_nl(s: Seq<char>)
    ensures
        0 <= first_nl(s) <= s.len(),
        first_nl(s) < s.len() ==> s[first_nl(s)] == '\n',
        forall|k: int| 0 <= k < first_nl(s) ==> s[k] != '\n',
    decreases s.len(),
{
    if s.len() > 0 && s[0] != '\n' {
        lemma_first_nl(s.drop_first());
        assert forall|k: int| 0 <= k < first_nl(s) implies s[k] != '\n' by {
            if k > 0 {
                assert(s.drop_first()[k - 1] == s[k]);
            }
        }
    }
}

/// `first_nl` is the unique position with no newline before it that is a
/// newline or the end.
pub proof fn lemma_first_nl_is(s: Seq<char>, i: int)
    requires
        0 <= i <= s.len(),
        forall|k: int| 0 <= k < i ==> s[k] != '\n',
        i < s.len() ==> s[i] == '\n',
    ensures
        first_nl(s) == i,
    decreases s.len(),
{
    if s.len() == 0 {
    } else if s[0] == '\n' {
        assert(i == 0);
    } else {
        assert(i >= 1);
        assert forall|k: int| 0 <= k < i - 1 implies s.drop_first()[k] != '\n' by {
            assert(s.drop_first()[k] == s[k + 1]);
        }
        assert(i - 1 < s.drop_first().len() ==> s.drop_first()[i - 1] == '\n');
        lemma_first_nl_is(s.drop_first(), i - 1);
    }
}

/// The first line of `s` as the standard line splitting reads it: up to the
/// first newline, with one carriage return stripped just before a newline;
/// without any newline, the whole rest (carriage return kept).
pub open spec fn head_line(s: Seq<char>) -> Seq<char> {
    let i = first_nl(s);
    if i < s.len() {
        let l = s.take(i);
        if l.len() > 0 && l.last() == '\r' {
            l.drop_last()
        } else {
            l
        }
    } else {
        s
    }
}

/// The 1-based `k`-th line of `s` (a line number past the last line is
/// empty; line 0 reads as line 1).
pub open spec fn nth_line(s: Seq<char>, k: nat) -> Seq<char>
    decreases k,
{
    if k <= 1 {
        head_line(s)
    } else {
        let i = first_nl(s);
        if i < s.len() {
            nth_line(s.skip(i + 1), (k - 1) as nat)
        } else {
            nth_line(Seq::empty(), (k - 1) as nat)
        }
    }
}

proof fn lemma_nth_line_empty(k: nat)
    ensures
        nth_line(Seq::empty(), k) =~= Seq::<char>::empty(),
    decreases k,
{
    if k > 1 {
        lemma_nth_line_empty((k - 1) as nat);
    }
}

/// The digit characters, as string slices for building messages.
fn digit_str(d: usize) -> (s: &'static str)
    requires
        d < 10,
    ensures
        s@ == seq![digit_char(d as nat)],
{
    proof {
        reveal_strlit("0");
        reveal_strlit("1");
        reveal_strlit("2");
        reveal_strlit("3");
        reveal_strlit("4");
        reveal_strlit("5");
        reveal_strlit("6");
        reveal_strlit("7");
        reveal_strlit("8");
        reveal_strlit("9");
    }
    match d {
        0 => "0",
        1 => "1",
        2 => "2",
        3 => "3",
        4 => "4",
        5 => "5",
        6 => "6",
        7 => "7",
        8 => "8",
        _ => "9",
    }
}

/// Append the decimal rendering of `n`.
pub fn push_decimal(out: &mut String, n: usize)
    ensures
        final(out)@ == old(out)@ + dec_str(n as nat),
    decreases n,
{
    let ghost before = out@;
    if n >= 10 {
        push_decimal(out, n / 10);
    }
    let d = digit_str(n % 10);
    out.append(d);
    proof {
        if n < 10 {
            assert(out@ =~= before + dec_str(n as nat));
        } else {
            assert(out@ =~= before + dec_str(n as nat));
        }
    }
}

/// The decimal rendering of `n` as a fresh string.
pub fn decimal_string(n: usize) -> (s: String)
    ensures
        s@ == dec_str(n as nat),
{
    let mut s = String::new();
    push_decimal(&mut s, n);
    proof {
        assert(s@ =~= dec_str(n as nat));
    }
    s
}

/// How many characters the decimal rendering of `n` has.
pub fn decimal_len(n: usize) -> (d: usize)
    ensures
        d == dec_str(n as nat).len(),
{
    let s = decimal_string(n);
    s.as_str().unicode_len()
}

/// Append `n` spaces.
pub fn push_spaces(out: &mut String, n: usize)
    ensures
        final(out)@ == old(out)@ + spaces(n as nat),
{
    let ghost before = out@;
    proof {
        reveal_strlit(" ");
    }
    let mut i: usize = 0;
    while i < n
        invariant
            i <= n,
            " "@ == seq![' '],
            out@ == before + spaces(i as nat),
        decreases n - i,
    {
        out.append(" ");
        proof {
            assert(out@ =~= before + spaces((i + 1) as nat));
        }
        i = i + 1;
    }
    proof {
        assert(out@ =~= before + spaces(n as nat));
    }
}

/// Find the first newline at or after `from`, or the end of the text.
fn find_newline(program: &str, from: usize) -> (i: usize)
    requires
        from <= program@.len(),
    ensures
        from <= i <= program@.len(),
        i - from == first_nl(program@.skip(from as int)),
        i < program@.len() ==> program@[i as int] == '\n',
{
    let n = program.unicode_len();
    let mut j = from;
    while j < n
        invariant
            from <= j <= n,
            n == program@.len(),
            forall|k: int| from <= k < j ==> program@[k] != '\n',
        decreases n - j,
    {
        let c = program.get_char(j);
        if c == '\n' {
            proof {
                let suf = program@.skip(from as int);
                assert forall|k: int| 0 <= k < j - from implies suf[k] != '\n' by {
                    assert(suf[k] == program@[from + k]);
                }
                assert(suf[j - from] == program@[j as int]);
                lemma_first_nl_is(suf, j - from);
            }
            return j;
        }
        j = j + 1;
    }
    proof {
        let suf = program@.skip(from as int);
        assert forall|k: int| 0 <= k < n - from implies suf[k] != '\n' by {
            assert(suf[k] == program@[from + k]);
        }
        lemma_first_nl_is(suf, n - from);
    }
    n
}

/// The 1-based `line`-th line of `program`, as `nth_line` reads it.
pub fn line_at<'a>(program: &'a str, line: usize) -> (l: &'a str)
    ensures
        l@ == nth_line(program@, line as nat),
{
    let n = program.unicode_len();
    let ghost s_full = program@;
    let mut start: usize = 0;
    let mut k = line;
    proof {
        assert(s_full.skip(0) =~= s_full);
    }
    while k > 1
        invariant
            n == s_full.len(),
            program@ == s_full,
            start <= n,
            nth_line(s_full, line as nat) == nth_line(s_full.skip(start as int), k as nat),
        decreases k,
    {
        let nl = find_newline(program, start);
        if nl == n {
            proof {
                lemma_nth_line_empty((k - 1) as nat);
                reveal_strlit("");
                assert(""@ =~= Seq::<char>::empty());
            }
            return "";
        }
        proof {
            assert(s_full.skip(start as int).skip(nl - start + 1) =~= s_full.skip(nl + 1));
        }
        start = nl + 1;
        k = k - 1;
    }
    let ghost suf = s_full.skip(start as int);
    let e = find_newline(program, start);
    proof {
        lemma_first_nl(suf);
    }
    if e == n {
        let l = program.substring_char(start, n);
        proof {
            assert(l@ =~= head_line(suf));
        }
        l
    } else {
        let mut e2 = e;
        if e > start {
            let prev = program.get_char(e - 1);
            if prev == '\r' {
                e2 = e - 1;
            }
        }
        let l = program.substring_char(start, e2);
        proof {
            let i = first_nl(suf);
            assert(i == e - start);
            assert(suf.take(i) =~= s_full.subrange(start as int, e as int));
            if e > start && s_full[e - 1] == '\r' {
                assert(suf.take(i).last() == '\r');
                assert(suf.take(i).drop_last() =~= s_full.subrange(start as int, e - 1));
            } else {
                if i > 0 {
                    assert(suf.take(i).last() == s_full[e - 1]);
                }
            }
            assert(l@ =~= head_line(suf));
        }
        l
    }
}

/// The message header: the error count, pluralized as the count demands.
pub open spec fn header(n: nat) -> Seq<char> {
    dec_str(n) + " error"@ + (if n == 1 {
        "\u{0}"@
    } else {
        "s"@
    }) + " occured during parsing:\n"@
}

/// The quoted source line with a caret under the offending column: the line
/// number, a space, the line itself, then a second line carrying the caret
/// shifted by the column and the width of the printed line number.
pub open spec fn caret_block(line: nat, col: nat, content: Seq<char>) -> Seq<char> {
    dec_str(line) + " "@ + content + "\n "@ + spaces(col + dec_str(line).len()) + "^"@
}

/// One rendered error: an unmatched close or an unclosed open, each with
/// its position and its caret block. Tokens that cannot be errors render a
/// fixed note; the parser never records one.
pub open spec fn entry(t: Token, src: Seq<char>) -> Seq<char> {
    match t {
        Token::RBrac { line, col } => "Unexpected closing bracket found at "@ + dec_str(line as nat)
            + ":"@ + dec_str(col as nat) + ": \n "@ + caret_block(
            line as nat,
            col as nat,
            nth_line(src, line as nat),
        ) + "\n"@,
        Token::LBrac { line, col } => "Opening bracket at "@ + dec_str(line as nat) + ":"@
            + dec_str(col as nat) + " wasn't closed: \n "@ + caret_block(
            line as nat,
            col as nat,
            nth_line(src, line as nat),
        ) + "\n"@,
        _ => "Unexpected Error\n"@,
    }
}

/// The rendered errors, most recently recorded first.
pub open spec fn entries(errs: Seq<Token>, src: Seq<char>) -> Seq<char>
    decreases errs.len(),
{
    if errs.len() == 0 {
        Seq::empty()
    } else {
        entry(errs.last(), src) + entries(errs.drop_last(), src)
    }
}

/// The whole message of a parse error against its source text.
pub open spec fn error_msg(errs: Seq<Token>, src: Seq<char>) -> Seq<char> {
    header(errs.len()) + entries(errs, src)
}

} // verus!
