//! The lexer: source text to tokens, each tagged with its line.
//!
//! The source is split into lines as `str::lines` splits it (at `\n`,
//! dropping one `\r` before it); a `#` starts a comment that runs to the
//! end of its line.

use vstd::prelude::*;
use crate::number::{Decimal, decimal_of_text, digits_value, dot_count, first_index, is_digit};
use crate::syntax::{ParseError, SpecParseError};
use crate::text::{
    is_alnum, is_alpha, is_white, push_char, str_debug, int_text, char_is_alphabetic,
    char_is_alphanumeric, char_is_whitespace, debug_text, i64_text, string_of,
};

verus! {

/// A punctuation token.
#[derive(Debug, Clone, Copy, PartialEq, Eq, Structural)]
pub enum Punct {
    Arrow,
    EqEq,
    NotEq,
    LessEq,
    GreaterEq,
    Less,
    Greater,
    Dot,
    LParen,
    RParen,
    LBrace,
    RBrace,
    Comma,
    Plus,
    Minus,
    Star,
    Slash,
}

/// The source text of a punctuation token.
pub open spec fn punct_text(p: Punct) -> Seq<char> {
    match p {
        Punct::Arrow => "=>"@,
        Punct::EqEq => "=="@,
        Punct::NotEq => "!="@,
        Punct::LessEq => "<="@,
        Punct::GreaterEq => ">="@,
        Punct::Less => "<"@,
        Punct::Greater => ">"@,
        Punct::Dot => "."@,
        Punct::LParen => "("@,
        Punct::RParen => ")"@,
        Punct::LBrace => "{"@,
        Punct::RBrace => "}"@,
        Punct::Comma => ","@,
        Punct::Plus => "+"@,
        Punct::Minus => "-"@,
        Punct::Star => "*"@,
        Punct::Slash => "/"@,
    }
}

/// The source text of a punctuation token.
pub fn punct_str(p: Punct) -> (r: &'static str)
    ensures
        r@ == punct_text(p),
{
    match p {
        Punct::Arrow => "=>",
        Punct::EqEq => "==",
        Punct::NotEq => "!=",
        Punct::LessEq => "<=",
        Punct::GreaterEq => ">=",
        Punct::Less => "<",
        Punct::Greater => ">",
        Punct::Dot => ".",
        Punct::LParen => "(",
        Punct::RParen => ")",
        Punct::LBrace => "{",
        Punct::RBrace => "}",
        Punct::Comma => ",",
        Punct::Plus => "+",
        Punct::Minus => "-",
        Punct::Star => "*",
        Punct::Slash => "/",
    }
}

/// A token.
#[derive(Debug)]
pub enum Tok {
    Ident(String),
    Int(i64),
    Float(Decimal),
    Str(String),
    Punct(Punct),
}

/// The view of a `Tok`.
pub enum SpecTok {
    Ident(Seq<char>),
    Int(i64),
    Float(Decimal),
    Str(Seq<char>),
    Punct(Punct),
}

impl View for Tok {
    type V = SpecTok;

    open spec fn view(&self) -> SpecTok {
        match self {
            Tok::Ident(s) => SpecTok::Ident(s@),
            Tok::Int(v) => SpecTok::Int(*v),
            Tok::Float(d) => SpecTok::Float(*d),
            Tok::Str(s) => SpecTok::Str(s@),
            Tok::Punct(p) => SpecTok::Punct(*p),
        }
    }
}

/// The view of a token list: each token's view with its line.
pub open spec fn toks_view(v: Seq<(Tok, usize)>) -> Seq<(SpecTok, nat)> {
    v.map_values(|p: (Tok, usize)| (p.0@, p.1 as nat))
}

/// The text `{:?}` prints for a token.
pub open spec fn describe_tok(t: SpecTok) -> Seq<char> {
    match t {
        SpecTok::Ident(s) => "Ident("@ + str_debug(s) + ")"@,
        SpecTok::Int(v) => "Int("@ + int_text(v as int) + ")"@,
        SpecTok::Float(d) => "Float("@ + d.debug() + ")"@,
        SpecTok::Str(s) => "Str("@ + str_debug(s) + ")"@,
        SpecTok::Punct(p) => "Punct(\""@ + punct_text(p) + "\")"@,
    }
}

/// The text `{:?}` prints for an optional token.
pub open spec fn describe_opt(t: Option<SpecTok>) -> Seq<char> {
    match t {
        Some(t) => "Some("@ + describe_tok(t) + ")"@,
        None => "None"@,
    }
}

/// The text `{:?}` prints for a token.
pub fn describe(t: &Tok) -> (r: String)
    ensures
        r@ == describe_tok(t@),
{
    let mut s = String::new();
    match t {
        Tok::Ident(x) => {
            s.append("Ident(");
            let d = debug_text(x.as_str());
            s.append(d.as_str());
            s.append(")");
        },
        Tok::Int(v) => {
            s.append("Int(");
            let d = i64_text(*v);
            s.append(d.as_str());
            s.append(")");
        },
        Tok::Float(v) => {
            s.append("Float(");
            let d = v.to_debug_text();
            s.append(d.as_str());
            s.append(")");
        },
        Tok::Str(x) => {
            s.append("Str(");
            let d = debug_text(x.as_str());
            s.append(d.as_str());
            s.append(")");
        },
        Tok::Punct(p) => {
            s.append("Punct(\"");
            s.append(punct_str(*p));
            s.append("\")");
        },
    }
    s
}

/// The text `{:?}` prints for an optional token.
pub fn describe_option(t: Option<&Tok>) -> (r: String)
    ensures
        r@ == describe_opt(match t { Some(t) => Some(t@), None => None }),
{
    match t {
        Some(t) => {
            let mut s = String::from_str("Some(");
            let d = describe(t);
            s.append(d.as_str());
            s.append(")");
            s
        },
        None => String::from_str("None"),
    }
}

/// A character that continues a numeric literal.
pub open spec fn num_char(c: char) -> bool {
    is_digit(c) || c == '.'
}

/// A character that continues an identifier.
pub open spec fn ident_char(c: char) -> bool {
    is_alnum(c) || c == '_'
}

/// The end of the run of numeric-literal characters starting at `i`.
pub open spec fn num_run_end(t: Seq<char>, i: int) -> int
    decreases t.len() - i,
{
    if 0 <= i < t.len() && num_char(t[i]) {
        num_run_end(t, i + 1)
    } else {
        i
    }
}

/// The end of the run of identifier characters starting at `i`.
pub open spec fn ident_run_end(t: Seq<char>, i: int) -> int
    decreases t.len() - i,
{
    if 0 <= i < t.len() && ident_char(t[i]) {
        ident_run_end(t, i + 1)
    } else {
        i
    }
}

pub proof fn lemma_first_index_range(s: Seq<char>, c: char)
    ensures
        0 <= first_index(s, c) <= s.len(),
    decreases s.len(),
{
    if s.len() > 0 && s[0] != c {
        lemma_first_index_range(s.drop_first(), c);
    }
}

pub proof fn lemma_num_run_end_range(t: Seq<char>, i: int)
    requires
        0 <= i <= t.len(),
    ensures
        i <= num_run_end(t, i) <= t.len(),
    decreases t.len() - i,
{
    if i < t.len() && num_char(t[i]) {
        lemma_num_run_end_range(t, i + 1);
    }
}

pub proof fn lemma_ident_run_end_range(t: Seq<char>, i: int)
    requires
        0 <= i <= t.len(),
    ensures
        i <= ident_run_end(t, i) <= t.len(),
    decreases t.len() - i,
{
    if i < t.len() && ident_char(t[i]) {
        lemma_ident_run_end_range(t, i + 1);
    }
}

/// A lexing failure on `line`.
pub open spec fn lex_err(line: nat, message: Seq<char>) -> SpecParseError {
    SpecParseError { line, message }
}

/// The token a numeric literal `s` makes: an integer when it has no
/// point (it must fit in `i64`), a decimal otherwise.
pub open spec fn number_tok(s: Seq<char>, line: nat) -> Result<SpecTok, SpecParseError> {
    if dot_count(s) > 0 {
        match decimal_of_text(s) {
            Some(d) => Ok(SpecTok::Float(d)),
            None => Err(lex_err(line, "bad number "@ + s)),
        }
    } else if digits_value(s) <= i64::MAX {
        Ok(SpecTok::Int(digits_value(s) as i64))
    } else {
        Err(lex_err(line, "bad number "@ + s))
    }
}

/// The punctuation token starting with `c` (followed by `next`), and
/// how many characters it takes.
pub open spec fn punct_at(c: char, next: Option<char>) -> Option<(Punct, int)> {
    let eq = next == Some('=');
    let gt = next == Some('>');
    if c == '=' && gt {
        Some((Punct::Arrow, 2))
    } else if c == '=' && eq {
        Some((Punct::EqEq, 2))
    } else if c == '!' && eq {
        Some((Punct::NotEq, 2))
    } else if c == '<' && eq {
        Some((Punct::LessEq, 2))
    } else if c == '>' && eq {
        Some((Punct::GreaterEq, 2))
    } else if c == '<' {
        Some((Punct::Less, 1))
    } else if c == '>' {
        Some((Punct::Greater, 1))
    } else if c == '.' {
        Some((Punct::Dot, 1))
    } else if c == '(' {
        Some((Punct::LParen, 1))
    } else if c == ')' {
        Some((Punct::RParen, 1))
    } else if c == '{' {
        Some((Punct::LBrace, 1))
    } else if c == '}' {
        Some((Punct::RBrace, 1))
    } else if c == ',' {
        Some((Punct::Comma, 1))
    } else if c == '+' {
        Some((Punct::Plus, 1))
    } else if c == '-' {
        Some((Punct::Minus, 1))
    } else if c == '*' {
        Some((Punct::Star, 1))
    } else if c == '/' {
        Some((Punct::Slash, 1))
    } else {
        None
    }
}

/// Prepends `a` to the tokens of a successful result.
pub open spec fn prepend(
    a: Seq<(SpecTok, nat)>,
    r: Result<Seq<(SpecTok, nat)>, SpecParseError>,
) -> Result<Seq<(SpecTok, nat)>, SpecParseError> {
    match r {
        Ok(b) => Ok(a + b),
        Err(e) => Err(e),
    }
}

/// The tokens of the code text `t` from index `i` on, all on `line`:
/// whitespace separates; `"` opens a string that must close on the same
/// line; a digit starts a numeric literal (digits and points); a letter
/// or `_` starts an identifier (letters, digits, `_`); anything else must
/// be punctuation.
pub open spec fn lex_text(t: Seq<char>, i: int, line: nat) -> Result<Seq<(SpecTok, nat)>, SpecParseError>
    decreases t.len() - i,
{
    if i < 0 || i >= t.len() {
        Ok(seq![])
    } else {
        let c = t[i];
        if is_white(c) {
            lex_text(t, i + 1, line)
        } else if c == '"' {
            proof {
                lemma_first_index_range(t.skip(i + 1), '"');
            }
            let e = i + 1 + first_index(t.skip(i + 1), '"');
            if e >= t.len() {
                Err(lex_err(line, "unterminated string"@))
            } else {
                prepend(seq![(SpecTok::Str(t.subrange(i + 1, e)), line)], lex_text(t, e + 1, line))
            }
        } else if is_digit(c) {
            proof {
                lemma_num_run_end_range(t, i + 1);
            }
            let e = num_run_end(t, i + 1);
            match number_tok(t.subrange(i, e), line) {
                Ok(tok) => prepend(seq![(tok, line)], lex_text(t, e, line)),
                Err(err) => Err(err),
            }
        } else if is_alpha(c) || c == '_' {
            proof {
                lemma_ident_run_end_range(t, i + 1);
            }
            let e = ident_run_end(t, i + 1);
            prepend(seq![(SpecTok::Ident(t.subrange(i, e)), line)], lex_text(t, e, line))
        } else {
            let next = if i + 1 < t.len() { Some(t[i + 1]) } else { None };
            match punct_at(c, next) {
                Some((p, n)) => prepend(seq![(SpecTok::Punct(p), line)], lex_text(t, i + n, line)),
                None => Err(lex_err(line, "unexpected character: "@ + seq![c])),
            }
        }
    }
}

/// A line's text without the `\r` that ends it, if any.
pub open spec fn strip_cr(t: Seq<char>) -> Seq<char> {
    if t.len() > 0 && t.last() == '\r' {
        t.drop_last()
    } else {
        t
    }
}

/// The code of a line: everything before its first `#`.
pub open spec fn code_part(t: Seq<char>) -> Seq<char> {
    t.take(first_index(t, '#'))
}

/// The tokens of the source text `s`, whose first line is numbered
/// `line`: each line is the text up to the next `\n` (a `\r` just before
/// that `\n` dropped), and the last line runs to the end of the text.
pub open spec fn lex_lines(s: Seq<char>, line: nat) -> Result<Seq<(SpecTok, nat)>, SpecParseError>
    decreases s.len(),
{
    if s.len() == 0 {
        Ok(seq![])
    } else {
        proof {
            lemma_first_index_range(s, '\n');
        }
        let k = first_index(s, '\n');
        if k >= s.len() {
            lex_text(code_part(s), 0, line)
        } else {
            match lex_text(code_part(strip_cr(s.take(k))), 0, line) {
                Ok(a) => prepend(a, lex_lines(s.skip(k + 1), line + 1)),
                Err(e) => Err(e),
            }
        }
    }
}

/// The tokens of a source text, numbering lines from 1.
pub open spec fn lex_source(s: Seq<char>) -> Result<Seq<(SpecTok, nat)>, SpecParseError> {
    lex_lines(s, 1)
}

/// Whether every token is numbered at least `line`, and the numbers
/// never decrease along the sequence.
pub open spec fn numbered_from(ts: Seq<(SpecTok, nat)>, line: nat) -> bool {
    &&& forall|k: int| 0 <= k < ts.len() ==> (#[trigger] ts[k]).1 >= line
    &&& forall|a: int, b: int| 0 <= a < b < ts.len() ==> (#[trigger] ts[a]).1 <= (#[trigger] ts[b]).1
}

proof fn lemma_lex_text_line(t: Seq<char>, i: int, line: nat)
    ensures
        lex_text(t, i, line) matches Ok(ts) ==> forall|k: int| 0 <= k < ts.len() ==> (#[trigger] ts[k]).1 == line,
        lex_text(t, i, line) matches Err(e) ==> e.line == line,
    decreases t.len() - i,
{
    if 0 <= i < t.len() {
        let c = t[i];
        if is_white(c) {
            lemma_lex_text_line(t, i + 1, line);
        } else if c == '"' {
            lemma_first_index_range(t.skip(i + 1), '"');
            let e = i + 1 + first_index(t.skip(i + 1), '"');
            if e < t.len() {
                lemma_lex_text_line(t, e + 1, line);
                lemma_prepend_line(seq![(SpecTok::Str(t.subrange(i + 1, e)), line)], lex_text(t, e + 1, line), line);
            }
        } else if is_digit(c) {
            lemma_num_run_end_range(t, i + 1);
            let e = num_run_end(t, i + 1);
            if let Ok(tok) = number_tok(t.subrange(i, e), line) {
                lemma_lex_text_line(t, e, line);
                lemma_prepend_line(seq![(tok, line)], lex_text(t, e, line), line);
            }
        } else if is_alpha(c) || c == '_' {
            lemma_ident_run_end_range(t, i + 1);
            let e = ident_run_end(t, i + 1);
            lemma_lex_text_line(t, e, line);
            lemma_prepend_line(seq![(SpecTok::Ident(t.subrange(i, e)), line)], lex_text(t, e, line), line);
        } else {
            let next = if i + 1 < t.len() { Some(t[i + 1]) } else { None };
            if let Some((p, n)) = punct_at(c, next) {
                lemma_lex_text_line(t, i + n, line);
                lemma_prepend_line(seq![(SpecTok::Punct(p), line)], lex_text(t, i + n, line), line);
            }
        }
    }
}

proof fn lemma_prepend_line(a: Seq<(SpecTok, nat)>, r: Result<Seq<(SpecTok, nat)>, SpecParseError>, line: nat)
    requires
        forall|k: int| 0 <= k < a.len() ==> (#[trigger] a[k]).1 == line,
        r matches Ok(b) ==> forall|k: int| 0 <= k < b.len() ==> (#[trigger] b[k]).1 == line,
    ensures
        prepend(a, r) matches Ok(ts) ==> forall|k: int| 0 <= k < ts.len() ==> (#[trigger] ts[k]).1 == line,
        prepend(a, r) matches Err(e) ==> r == Err::<Seq<(SpecTok, nat)>, SpecParseError>(e),
{
    if let Ok(b) = r {
        let ts = a + b;
        assert forall|k: int| 0 <= k < ts.len() implies (#[trigger] ts[k]).1 == line by {
            if k < a.len() {
                assert(ts[k] == a[k]);
            } else {
                assert(ts[k] == b[k - a.len()]);
            }
        }
    }
}

proof fn lemma_lex_lines_numbered(s: Seq<char>, line: nat)
    ensures
        lex_lines(s, line) matches Ok(ts) ==> numbered_from(ts, line),
        lex_lines(s, line) matches Err(e) ==> e.line >= line,
    decreases s.len(),
{
    if s.len() > 0 {
        lemma_first_index_range(s, '\n');
        let k = first_index(s, '\n');
        if k >= s.len() {
            lemma_lex_text_line(code_part(s), 0, line);
        } else {
            let t = code_part(strip_cr(s.take(k)));
            lemma_lex_text_line(t, 0, line);
            lemma_lex_lines_numbered(s.skip(k + 1), line + 1);
            if let Ok(a) = lex_text(t, 0, line) {
                if let Ok(b) = lex_lines(s.skip(k + 1), line + 1) {
                    let ts = a + b;
                    assert forall|x: int| 0 <= x < ts.len() implies (#[trigger] ts[x]).1 >= line by {
                        if x < a.len() {
                            assert(ts[x] == a[x]);
                        } else {
                            assert(ts[x] == b[x - a.len()]);
                        }
                    }
                    assert forall|x: int, y: int| 0 <= x < y < ts.len() implies (#[trigger] ts[x]).1 <= (#[trigger] ts[y]).1 by {
                        if y < a.len() {
                            assert(ts[x] == a[x] && ts[y] == a[y]);
                        } else if x >= a.len() {
                            assert(ts[x] == b[x - a.len()] && ts[y] == b[y - a.len()]);
                        } else {
                            assert(ts[x] == a[x] && ts[y] == b[y - a.len()]);
                        }
                    }
                }
            }
        }
    }
}

/// Lexing numbers lines from 1: every token carries a line of at least
/// 1, the lines never decrease along the tokens, and an error names a
/// line of at least 1.
pub proof fn lemma_lex_numbers_lines(source: Seq<char>)
    ensures
        lex_source(source) matches Ok(ts) ==> numbered_from(ts, 1),
        lex_source(source) matches Err(e) ==> e.line >= 1,
{
    lemma_lex_lines_numbered(source, 1);
}


pub proof fn lemma_first_index_absent(s: Seq<char>, c: char)
    requires
        forall|j: int| 0 <= j < s.len() ==> s[j] != c,
    ensures
        first_index(s, c) == s.len(),
    decreases s.len(),
{
    if s.len() > 0 {
        assert forall|j: int| 0 <= j < s.drop_first().len() implies s.drop_first()[j] != c by {
            assert(s.drop_first()[j] == s[j + 1]);
        }
        lemma_first_index_absent(s.drop_first(), c);
    }
}

pub proof fn lemma_prepend_prepend(
    a: Seq<(SpecTok, nat)>,
    b: Seq<(SpecTok, nat)>,
    r: Result<Seq<(SpecTok, nat)>, SpecParseError>,
)
    ensures
        prepend(a, prepend(b, r)) == prepend(a + b, r),
{
    match r {
        Ok(x) => {
            assert(a + (b + x) == (a + b) + x);
        },
        Err(_) => {},
    }
}

/// The index of the first `c` in `v[from..to]` (or `to`), and the fact
/// that it is `first_index` of that slice.
fn find_char(v: &Vec<char>, from: usize, to: usize, c: char) -> (k: usize)
    requires
        from <= to <= v@.len(),
    ensures
        from <= k <= to,
        k - from == first_index(v@.subrange(from as int, to as int), c),
        k < to ==> v@[k as int] == c,
        forall|j: int| from <= j < k ==> v@[j] != c,
{
    let mut k = from;
    while k < to && v[k] != c
        invariant
            from <= k <= to <= v@.len(),
            forall|j: int| from <= j < k ==> v@[j] != c,
        decreases to - k,
    {
        k = k + 1;
    }
    let ghost s = v@.subrange(from as int, to as int);
    proof {
        if k < to {
            crate::number::lemma_first_index(s, c, k - from);
        } else {
            lemma_first_index_absent(s, c);
        }
    }
    k
}

/// A vector holding `v[from..to]`.
fn sub_vec(v: &Vec<char>, from: usize, to: usize) -> (r: Vec<char>)
    requires
        from <= to <= v@.len(),
    ensures
        r@ == v@.subrange(from as int, to as int),
{
    let mut r: Vec<char> = Vec::new();
    let mut i = from;
    while i < to
        invariant
            from <= i <= to <= v@.len(),
            r@ == v@.subrange(from as int, i as int),
        decreases to - i,
    {
        r.push(v[i]);
        assert(v@.subrange(from as int, i + 1) == v@.subrange(from as int, i as int).push(v@[i as int]));
        i = i + 1;
    }
    r
}

/// The integer the digits `t[from..to]` denote, when it fits in `i64`.
fn int_of_digits(t: &Vec<char>, from: usize, to: usize) -> (r: Option<i64>)
    requires
        from <= to <= t@.len(),
        forall|j: int| from <= j < to ==> is_digit(#[trigger] t@[j]),
    ensures
        r == (if digits_value(t@.subrange(from as int, to as int)) <= i64::MAX {
            Some(digits_value(t@.subrange(from as int, to as int)) as i64)
        } else {
            None
        }),
{
    let ghost s = t@.subrange(from as int, to as int);
    let mut acc: i64 = 0;
    let mut i = from;
    while i < to
        invariant
            from <= i <= to <= t@.len(),
            s == t@.subrange(from as int, to as int),
            forall|j: int| from <= j < to ==> is_digit(#[trigger] t@[j]),
            acc == digits_value(s.take(i - from)),
        decreases to - i,
    {
        assert(s.take(i - from + 1).drop_last() == s.take(i - from));
        assert(is_digit(t@[i as int]));
        let d = (t[i] as u32 - 48) as i64;
        let next = match acc.checked_mul(10) {
            Some(a) => a.checked_add(d),
            None => None,
        };
        match next {
            Some(n) => {
                acc = n;
            },
            None => {
                proof {
                    crate::number::lemma_digits_value_prefix(s, i - from + 1);
                }
                return None;
            },
        }
        i = i + 1;
    }
    assert(s.take(to - from) == s);
    Some(acc)
}

proof fn lemma_num_run_has_dot(t: Seq<char>, i: int, e: int, has_dot: bool)
    requires
        0 <= i <= e <= t.len(),
        has_dot <==> exists|j: int| i <= j < e && t[j] == '.',
    ensures
        has_dot <==> dot_count(t.subrange(i, e)) > 0,
{
    let s = t.subrange(i, e);
    crate::number::lemma_dot_count_zero(s);
    if has_dot {
        let j = choose|j: int| i <= j < e && t[j] == '.';
        assert(s[j - i] == '.');
    } else {
        assert forall|j: int| 0 <= j < s.len() implies s[j] != '.' by {
            assert(s[j] == t[i + j]);
        }
    }
}

/// The tokens of one line's code text `t`, all tagged `line`.
pub fn lex_text_exec(t: &Vec<char>, line: usize) -> (r: Result<Vec<(Tok, usize)>, ParseError>)
    ensures
        match lex_text(t@, 0, line as nat) {
            Ok(a) => r matches Ok(v) && toks_view(v@) == a,
            Err(e) => r matches Err(x) && x@ == e,
        },
{
    let mut acc: Vec<(Tok, usize)> = Vec::new();
    let mut i: usize = 0;
    let n = t.len();
    while i < n
        invariant
            n == t@.len(),
            i <= n,
            lex_text(t@, 0, line as nat) == prepend(toks_view(acc@), lex_text(t@, i as int, line as nat)),
        decreases n - i,
    {
        let ghost acc0 = acc@;
        let c = t[i];
        if char_is_whitespace(c) {
            i = i + 1;
        } else if c == '"' {
            let e = find_char(t, i + 1, n, '"');
            assert(t@.subrange(i + 1, n as int) == t@.skip(i + 1));
            if e >= n {
                return Err(ParseError { line, message: String::from_str("unterminated string") });
            }
            let s = string_of(t, i + 1, e);
            acc.push((Tok::Str(s), line));
            assert(toks_view(acc@) == toks_view(acc0) + seq![(SpecTok::Str(t@.subrange(i + 1, e as int)), line as nat)]);
            proof {
                lemma_prepend_prepend(toks_view(acc0), seq![(SpecTok::Str(t@.subrange(i + 1, e as int)), line as nat)], lex_text(t@, e + 1, line as nat));
            }
            i = e + 1;
        } else if '0' <= c && c <= '9' {
            let mut e = i + 1;
            let mut has_dot = false;
            while e < n && (('0' <= t[e] && t[e] <= '9') || t[e] == '.')
                invariant
                    n == t@.len(),
                    i < e <= n,
                    num_run_end(t@, i + 1) == num_run_end(t@, e as int),
                    has_dot <==> exists|j: int| i <= j < e && t@[j] == '.',
                    is_digit(t@[i as int]),
                    forall|j: int| i <= j < e ==> num_char(#[trigger] t@[j]),
                decreases n - e,
            {
                if t[e] == '.' {
                    has_dot = true;
                }
                e = e + 1;
            }
            assert(num_run_end(t@, e as int) == e);
            proof {
                lemma_num_run_has_dot(t@, i as int, e as int, has_dot);
            }
            let tok = if has_dot {
                match Decimal::from_chars(t, i, e) {
                    Some(d) => Tok::Float(d),
                    None => {
                        let s = string_of(t, i, e);
                        let m = crate::text::cat("bad number ", s.as_str());
                        return Err(ParseError { line, message: m });
                    },
                }
            } else {
                assert forall|j: int| i <= j < e implies is_digit(#[trigger] t@[j]) by {
                    assert(num_char(t@[j]));
                    if t@[j] == '.' {
                        assert(has_dot);
                    }
                }
                match int_of_digits(t, i, e) {
                    Some(v) => Tok::Int(v),
                    None => {
                        let s = string_of(t, i, e);
                        let m = crate::text::cat("bad number ", s.as_str());
                        return Err(ParseError { line, message: m });
                    },
                }
            };
            acc.push((tok, line));
            assert(toks_view(acc@) == toks_view(acc0) + seq![(tok@, line as nat)]);
            proof {
                lemma_prepend_prepend(toks_view(acc0), seq![(tok@, line as nat)], lex_text(t@, e as int, line as nat));
            }
            i = e;
        } else if char_is_alphabetic(c) || c == '_' {
            let mut e = i + 1;
            while e < n && (char_is_alphanumeric(t[e]) || t[e] == '_')
                invariant
                    n == t@.len(),
                    i < e <= n,
                    ident_run_end(t@, i + 1) == ident_run_end(t@, e as int),
                decreases n - e,
            {
                e = e + 1;
            }
            let s = string_of(t, i, e);
            acc.push((Tok::Ident(s), line));
            assert(toks_view(acc@) == toks_view(acc0) + seq![(SpecTok::Ident(t@.subrange(i as int, e as int)), line as nat)]);
            proof {
                lemma_prepend_prepend(toks_view(acc0), seq![(SpecTok::Ident(t@.subrange(i as int, e as int)), line as nat)], lex_text(t@, e as int, line as nat));
            }
            i = e;
        } else {
            let has_next = i + 1 < n;
            let eq = has_next && t[i + 1] == '=';
            let gt = has_next && t[i + 1] == '>';
            let found: Option<(Punct, usize)> = if c == '=' && gt {
                Some((Punct::Arrow, 2))
            } else if c == '=' && eq {
                Some((Punct::EqEq, 2))
            } else if c == '!' && eq {
                Some((Punct::NotEq, 2))
            } else if c == '<' && eq {
                Some((Punct::LessEq, 2))
            } else if c == '>' && eq {
                Some((Punct::GreaterEq, 2))
            } else if c == '<' {
                Some((Punct::Less, 1))
            } else if c == '>' {
                Some((Punct::Greater, 1))
            } else if c == '.' {
                Some((Punct::Dot, 1))
            } else if c == '(' {
                Some((Punct::LParen, 1))
            } else if c == ')' {
                Some((Punct::RParen, 1))
            } else if c == '{' {
                Some((Punct::LBrace, 1))
            } else if c == '}' {
                Some((Punct::RBrace, 1))
            } else if c == ',' {
                Some((Punct::Comma, 1))
            } else if c == '+' {
                Some((Punct::Plus, 1))
            } else if c == '-' {
                Some((Punct::Minus, 1))
            } else if c == '*' {
                Some((Punct::Star, 1))
            } else if c == '/' {
                Some((Punct::Slash, 1))
            } else {
                None
            };
            match found {
                Some((p, w)) => {
                    acc.push((Tok::Punct(p), line));
                    assert(toks_view(acc@) == toks_view(acc0) + seq![(SpecTok::Punct(p), line as nat)]);
                    proof {
                        lemma_prepend_prepend(toks_view(acc0), seq![(SpecTok::Punct(p), line as nat)], lex_text(t@, i + w, line as nat));
                    }
                    i = i + w;
                },
                None => {
                    let mut m = String::from_str("unexpected character: ");
                    push_char(&mut m, c);
                    assert(m@ == "unexpected character: "@ + seq![c]);
                    return Err(ParseError { line, message: m });
                },
            }
        }
    }
    Ok(acc)
}

/// The tokens of `source`, each with its line (counted from 1): lexes
/// line by line and fails on the first line that does not lex.
pub fn lex(source: &str) -> (r: Result<Vec<(Tok, usize)>, ParseError>)
    ensures
        match lex_source(source@) {
            Ok(a) => r matches Ok(v) && toks_view(v@) == a,
            Err(e) => r matches Err(x) && x@ == e,
        },
{
    let v = crate::text::chars_of(source);
    let n = v.len();
    let mut out: Vec<(Tok, usize)> = Vec::new();
    let mut pos: usize = 0;
    let mut line: usize = 1;
    assert(v@.skip(0) == v@);
    while pos < n
        invariant
            n == v@.len(),
            pos <= n,
            v@ == source@,
            pos < n ==> 1 <= line <= pos + 1,
            lex_source(source@) == prepend(toks_view(out@), lex_lines(v@.skip(pos as int), line as nat)),
        decreases n - pos,
    {
        let ghost rest = v@.skip(pos as int);
        let k = find_char(&v, pos, n, '\n');
        assert(v@.subrange(pos as int, n as int) == rest);
        let piece_end = if k < n && k > pos && v[k - 1] == '\r' { k - 1 } else { k };
        let code_end = find_char(&v, pos, piece_end, '#');
        let t = sub_vec(&v, pos, code_end);
        proof {
            if k < n {
                assert(rest.take(k - pos) == v@.subrange(pos as int, k as int));
                assert(strip_cr(rest.take(k - pos)) == v@.subrange(pos as int, piece_end as int));
            } else {
                assert(rest == v@.subrange(pos as int, piece_end as int));
            }
            assert(code_part(v@.subrange(pos as int, piece_end as int)) == t@);
        }
        match lex_text_exec(&t, line) {
            Ok(mut toks) => {
                let ghost out0 = out@;
                let ghost got = toks@;
                out.append(&mut toks);
                assert(toks_view(out@) == toks_view(out0) + toks_view(got));
                proof {
                    if k < n {
                        lemma_prepend_prepend(toks_view(out0), toks_view(got), lex_lines(v@.skip(k + 1), (line + 1) as nat));
                    }
                }
                if k < n {
                    assert(rest.skip(k - pos + 1) == v@.skip(k + 1));
                    pos = k + 1;
                    if pos < n {
                        line = line + 1;
                    }
                } else {
                    pos = n;
                }
            },
            Err(e) => {
                return Err(e);
            },
        }
    }
    Ok(out)
}

} // verus!
