//! The scanner: source text to positioned tokens.
//!
//! Whitespace separates tokens; the punctuation characters
//! `{ } ( ) [ ] . , ; :` are always tokens by themselves; `"` opens a string
//! token that runs to the matching unescaped `"`; every other run of
//! characters is a single identifier-like token.

use vstd::prelude::*;
use crate::error::{Error, ErrorV};
use crate::text::{lemma_seq_view, seq_view};

verus! {

/// A lexeme together with the source position of its first character.
/// Lines and columns start at 1.
#[derive(PartialEq, Eq, Debug)]
pub struct Token {
    pub value: String,
    pub line: usize,
    pub col: usize,
}

impl Clone for Token {
    fn clone(&self) -> (r: Self)
        ensures
            r@ == self@,
    {
        Token { value: self.value.clone(), line: self.line, col: self.col }
    }
}

/// The mathematical model of a [`Token`]: its text and position.
pub struct TokenV {
    pub value: Seq<char>,
    pub line: int,
    pub col: int,
}

impl View for Token {
    type V = TokenV;

    open spec fn view(&self) -> TokenV {
        TokenV { value: self.value@, line: self.line as int, col: self.col as int }
    }
}

impl Token {
    /// A synthetic token for diagnostics that have no meaningful source
    /// position, such as errors raised deep inside type interpretation.
    pub fn unknown() -> (r: Token)
        ensures
            r@ == spec_unknown_token(),
    {
        Token { value: String::new(), line: 0, col: 0 }
    }
}

/// The model of the synthetic token made by [`Token::unknown`].
pub open spec fn spec_unknown_token() -> TokenV {
    TokenV { value: Seq::empty(), line: 0, col: 0 }
}

/// Whether `c` separates tokens.
pub open spec fn is_blank(c: char) -> bool {
    c == ' ' || c == '\t' || c == '\r' || c == '\n'
}

/// Whether `c` is always a one-character token of its own.
pub open spec fn is_punct(c: char) -> bool {
    c == '{' || c == '}' || c == '(' || c == ')' || c == '[' || c == ']' || c == '.' || c == ','
        || c == ';' || c == ':'
}

/// The scanner, from ordinary scanning state.  `i` is the position of the
/// next character; `start` and `size` describe the pending token, if any;
/// `acc` holds the tokens already made.
pub open spec fn spec_scan_at(
    s: Seq<char>,
    i: int,
    line: int,
    col: int,
    start: int,
    size: int,
    acc: Seq<TokenV>,
) -> Result<Seq<TokenV>, ErrorV>
    decreases s.len() - i,
{
    if i >= s.len() {
        if size > 0 {
            Ok(acc.push(TokenV { value: s.subrange(start, s.len() as int), line, col: col - size }))
        } else {
            Ok(acc)
        }
    } else {
        let c = s[i];
        if is_blank(c) {
            let acc1 = if size > 0 {
                acc.push(TokenV { value: s.subrange(start, i), line, col: col - size })
            } else {
                acc
            };
            if c == '\n' {
                spec_scan_at(s, i + 1, line + 1, 1, i + 1, 0, acc1)
            } else {
                spec_scan_at(s, i + 1, line, col + 1, i + 1, 0, acc1)
            }
        } else if is_punct(c) {
            let acc1 = if size > 0 {
                acc.push(TokenV { value: s.subrange(start, i), line, col: col - size })
            } else {
                acc
            };
            let acc2 = acc1.push(TokenV { value: s.subrange(i, i + 1), line, col });
            spec_scan_at(s, i + 1, line, col + 1, i + 1, 0, acc2)
        } else if c == '"' {
            spec_scan_string(s, i + 1, line, col + 1, size + 1, start, acc, i)
        } else {
            spec_scan_at(s, i + 1, line, col + 1, start, size + 1, acc)
        }
    }
}

/// The scanner inside a string token that opened at position `open`.  The
/// pending token runs from `start` and already counts the opening quote.
pub open spec fn spec_scan_string(
    s: Seq<char>,
    j: int,
    line: int,
    col: int,
    size: int,
    start: int,
    acc: Seq<TokenV>,
    open: int,
) -> Result<Seq<TokenV>, ErrorV>
    decreases s.len() - j,
{
    if j >= s.len() {
        Err(
            ErrorV::ParseError(
                "Unterminated string"@,
                TokenV { value: s.subrange(start, open), line, col },
            ),
        )
    } else {
        let c = s[j];
        if c == '"' {
            let acc1 = acc.push(
                TokenV { value: s.subrange(start, j + 1), line, col: col + 1 - (size + 1) },
            );
            spec_scan_at(s, j + 1, line, col + 1, j + 1, 0, acc1)
        } else if c == '\n' {
            Err(
                ErrorV::ParseError(
                    "Unterminated string"@,
                    TokenV { value: s.subrange(start, j), line, col: col + 1 },
                ),
            )
        } else if c == '\\' {
            let j2 = if j + 2 <= s.len() {
                j + 2
            } else {
                s.len() as int
            };
            spec_scan_string(s, j2, line, col + 2, size + 2, start, acc, open)
        } else {
            spec_scan_string(s, j + 1, line, col + 1, size + 1, start, acc, open)
        }
    }
}

/// What scanning a whole source text yields.
pub open spec fn spec_scan(s: Seq<char>) -> Result<Seq<TokenV>, ErrorV> {
    spec_scan_at(s, 0, 1, 1, 0, 0, Seq::empty())
}

/// Whether a string whose interior starts at `j` reaches an unescaped
/// closing quote before a raw newline or the end of input.
pub open spec fn string_closes(s: Seq<char>, j: int) -> bool
    decreases s.len() - j,
{
    if j >= s.len() {
        false
    } else if s[j] == '"' {
        true
    } else if s[j] == '\n' {
        false
    } else if s[j] == '\\' {
        string_closes(s, if j + 2 <= s.len() { j + 2 } else { s.len() as int })
    } else {
        string_closes(s, j + 1)
    }
}

/// A string that never closes is an `Unterminated string` parse error
/// reported on the line the scanner carried into the string — and the line
/// counter never advances inside a string, so that is the line of the
/// opening quote.
pub proof fn lemma_unterminated_string_line(
    s: Seq<char>,
    j: int,
    line: int,
    col: int,
    size: int,
    start: int,
    acc: Seq<TokenV>,
    open: int,
)
    requires
        !string_closes(s, j),
    ensures
        ({
            spec_scan_string(s, j, line, col, size, start, acc, open) matches Err(e)
                && e matches ErrorV::ParseError(m, t) && m == "Unterminated string"@
                && t.line == line
        }),
    decreases s.len() - j,
{
    if j < s.len() {
        if s[j] == '\\' {
            lemma_unterminated_string_line(
                s,
                if j + 2 <= s.len() { j + 2 } else { s.len() as int },
                line,
                col + 2,
                size + 2,
                start,
                acc,
                open,
            );
        } else if s[j] != '"' && s[j] != '\n' {
            lemma_unterminated_string_line(s, j + 1, line, col + 1, size + 1, start, acc, open);
        }
    }
}

/// Scans from just after an opening quote at `open` to the matching
/// unescaped quote, pushing the finished string token.  Returns the next
/// position and column on success; an unterminated string is an error.
fn scan_string_part(
    s: &str,
    open: usize,
    j0: usize,
    line: usize,
    col0: usize,
    size0: usize,
    start: usize,
    tokens: &mut Vec<Token>,
) -> (r: Result<(usize, usize), Error>)
    requires
        s@.len() <= usize::MAX - 2,
        open < j0 <= s@.len(),
        start <= open,
        1 <= size0,
        size0 + 1 <= col0,
        col0 <= j0 + 1,
    ensures
        ({
            r matches Ok(rc) ==> j0 <= rc.0 <= s@.len() && 1 <= rc.1 <= rc.0 + 1
                && spec_scan_string(
                s@,
                j0 as int,
                line as int,
                col0 as int,
                size0 as int,
                start as int,
                seq_view(old(tokens)@),
                open as int,
            ) == spec_scan_at(
                s@,
                rc.0 as int,
                line as int,
                rc.1 as int,
                rc.0 as int,
                0,
                seq_view(final(tokens)@),
            )
        }),
        ({
            r matches Err(err) ==> spec_scan_string(
                s@,
                j0 as int,
                line as int,
                col0 as int,
                size0 as int,
                start as int,
                seq_view(old(tokens)@),
                open as int,
            ) == Err::<Seq<TokenV>, ErrorV>(err@)
        }),
{
    let n = s.unicode_len();
    let mut j = j0;
    let mut col = col0;
    let mut size = size0;
    while j < n
        invariant
            n == s@.len(),
            n <= usize::MAX - 2,
            j0 <= j,
            start <= open < j0,
            1 <= size,
            size + 1 <= col,
            j < n ==> col <= j + 1,
            tokens@ == old(tokens)@,
            spec_scan_string(
                s@,
                j0 as int,
                line as int,
                col0 as int,
                size0 as int,
                start as int,
                seq_view(old(tokens)@),
                open as int,
            ) == spec_scan_string(
                s@,
                j as int,
                line as int,
                col as int,
                size as int,
                start as int,
                seq_view(tokens@),
                open as int,
            ),
        decreases n - j,
    {
        let c = s.get_char(j);
        col = col + 1;
        size = size + 1;
        if c == '"' {
            let value = String::from_str(s.substring_char(start, j + 1));
            let ghost pre = tokens@;
            let tok_col = col - size;
            tokens.push(Token { value, line, col: tok_col });
            proof {
                assert(tokens@.drop_last() =~= pre);
                assert(seq_view(tokens@) == seq_view(tokens@.drop_last()).push(
                    tokens@.last()@,
                ));
            }
            return Ok((j + 1, col));
        } else if c == '\n' {
            let value = String::from_str(s.substring_char(start, j));
            return Err(Error::ParseError(
                String::from_str("Unterminated string"),
                Token { value, line, col },
            ));
        } else if c == '\\' {
            col = col + 1;
            size = size + 1;
            if j + 2 <= n {
                j = j + 2;
            } else {
                j = n;
            }
        } else {
            j = j + 1;
        }
    }
    let value = String::from_str(s.substring_char(start, open));
    Err(Error::ParseError(
        String::from_str("Unterminated string"),
        Token { value, line, col },
    ))
}

/// The canonical printing of a token list: the values joined by single
/// spaces.
pub open spec fn spec_print_tokens(ts: Seq<TokenV>) -> Seq<char>
    decreases ts.len(),
{
    if ts.len() == 0 {
        Seq::empty()
    } else if ts.len() == 1 {
        ts[0].value
    } else {
        ts[0].value + " "@ + spec_print_tokens(ts.drop_first())
    }
}

/// A character that neither separates tokens nor is a token by itself.
pub open spec fn word_char(c: char) -> bool {
    !is_blank(c) && !is_punct(c) && c != '"'
}

/// A lexeme the scanner reads as one identifier-like token.
pub open spec fn word_lexeme(v: Seq<char>) -> bool {
    v.len() >= 1 && forall|k: int| 0 <= k < v.len() ==> word_char(#[trigger] v[k])
}

/// A lexeme the scanner reads as one punctuation token.
pub open spec fn punct_lexeme(v: Seq<char>) -> bool {
    v.len() == 1 && is_punct(v[0])
}

/// Scanning a string token's interior from position `j` reaches the closing
/// quote exactly at `close`: no premature unescaped quote, no raw newline,
/// and no escape that swallows the closing quote.
pub open spec fn interior_run(s: Seq<char>, j: int, close: int) -> bool
    decreases close + 1 - j,
{
    if j >= close {
        j == close
    } else if s[j] == '"' || s[j] == '\n' {
        false
    } else if s[j] == '\\' {
        interior_run(s, if j + 2 <= close + 1 { j + 2 } else { close + 1 }, close)
    } else {
        interior_run(s, j + 1, close)
    }
}

/// A lexeme the scanner reads as one string token: `k` word characters,
/// then a quote, an interior that runs to the final quote, and that final
/// quote.  `k > 0` arises when a pending word runs straight into a string
/// literal, which the scanner merges into one token.
pub open spec fn string_lexeme_at(v: Seq<char>, k: int) -> bool {
    &&& 0 <= k
    &&& k + 2 <= v.len()
    &&& (forall|j: int| 0 <= j < k ==> word_char(#[trigger] v[j]))
    &&& v[k] == '"'
    &&& v[v.len() - 1] == '"'
    &&& interior_run(v, k + 1, v.len() - 1)
}

/// A lexeme the scanner reads as one plain string token.
pub open spec fn string_lexeme(v: Seq<char>) -> bool {
    string_lexeme_at(v, 0)
}

/// A lexeme that scans back to exactly one token.
pub open spec fn canonical_lexeme(v: Seq<char>) -> bool {
    word_lexeme(v) || punct_lexeme(v) || exists|k: int| #[trigger] string_lexeme_at(v, k)
}

proof fn lemma_scan_word_run(
    s: Seq<char>,
    i: int,
    j: int,
    line: int,
    col: int,
    start: int,
    acc: Seq<TokenV>,
)
    requires
        0 <= start <= i <= j <= s.len(),
        forall|k: int| i <= k < j ==> word_char(#[trigger] s[k]),
    ensures
        spec_scan_at(s, i, line, col, start, i - start, acc) == spec_scan_at(
            s,
            j,
            line,
            col + (j - i),
            start,
            j - start,
            acc,
        ),
    decreases j - i,
{
    if i < j {
        assert(word_char(s[i]));
        lemma_scan_word_run(s, i + 1, j, line, col + 1, start, acc);
    }
}

proof fn lemma_scan_string_run(
    s: Seq<char>,
    j: int,
    close: int,
    line: int,
    col: int,
    size: int,
    start: int,
    acc: Seq<TokenV>,
    open: int,
)
    requires
        0 <= j <= close < s.len(),
        s[close] == '"',
        interior_run(s, j, close),
    ensures
        spec_scan_string(s, j, line, col, size, start, acc, open) == spec_scan_string(
            s,
            close,
            line,
            col + (close - j),
            size + (close - j),
            start,
            acc,
            open,
        ),
    decreases close - j,
{
    if j < close {
        if s[j] == '\\' {
            assert(interior_run(s, if j + 2 <= close + 1 { j + 2 } else { close + 1 }, close));
            assert(j + 2 <= close) by {
                if j + 2 == close + 1 {
                    assert(!interior_run(s, close + 1, close));
                }
            }
            lemma_scan_string_run(s, j + 2, close, line, col + 2, size + 2, start, acc, open);
        } else {
            lemma_scan_string_run(s, j + 1, close, line, col + 1, size + 1, start, acc, open);
        }
    }
}

proof fn lemma_interior_shift(v: Seq<char>, s: Seq<char>, i: int, k: int)
    requires
        0 <= i,
        v.len() >= 2,
        i + v.len() <= s.len(),
        s.subrange(i, i + v.len()) == v,
        1 <= k <= v.len(),
        interior_run(v, k, v.len() - 1),
    ensures
        interior_run(s, i + k, i + v.len() - 1),
    decreases v.len() - k,
{
    let vclose = v.len() - 1;
    if k >= vclose {
        assert(k == vclose);
    } else {
        assert(v[k] == s.subrange(i, i + v.len())[k]);
        assert(s[i + k] == v[k]);
        if v[k] == '\\' {
            assert(interior_run(v, if k + 2 <= vclose + 1 { k + 2 } else { vclose + 1 }, vclose));
            assert(k + 2 <= vclose) by {
                if k + 2 == vclose + 1 {
                    assert(!interior_run(v, vclose + 1, vclose));
                }
            }
            lemma_interior_shift(v, s, i, k + 2);
        } else {
            lemma_interior_shift(v, s, i, k + 1);
        }
    }
}

proof fn lemma_scan_combine(
    r: Result<Seq<TokenV>, ErrorV>,
    acc: Seq<TokenV>,
    t2: TokenV,
    rest: Seq<TokenV>,
    ts: Seq<TokenV>,
)
    requires
        ts.len() >= 1,
        rest == ts.drop_first(),
        t2.value == ts[0].value,
        ({
            match r {
                Ok(out) => out.len() == acc.push(t2).len() + rest.len() && (forall|k: int|
                    0 <= k < acc.push(t2).len() ==> out[k] == acc.push(t2)[k]) && (forall|k: int|
                    0 <= k < rest.len() ==> out[acc.push(t2).len() + k].value == rest[k].value),
                Err(_) => false,
            }
        }),
    ensures
        ({
            match r {
                Ok(out) => out.len() == acc.len() + ts.len() && (forall|k: int|
                    0 <= k < acc.len() ==> out[k] == acc[k]) && (forall|k: int|
                    0 <= k < ts.len() ==> out[acc.len() + k].value == ts[k].value),
                Err(_) => false,
            }
        }),
{
    let acc2 = acc.push(t2);
    match r {
        Ok(out) => {
            assert forall|k: int| 0 <= k < ts.len() implies out[acc.len() + k].value
                == ts[k].value by {
                if k == 0 {
                    assert(out[acc.len() as int] == acc2[acc.len() as int]);
                } else {
                    assert(out[acc2.len() + (k - 1)].value == rest[k - 1].value);
                    assert(rest[k - 1] == ts[k]);
                }
            }
        }
        Err(_) => {}
    }
}

proof fn lemma_scan_combine_last(
    r: Result<Seq<TokenV>, ErrorV>,
    acc: Seq<TokenV>,
    t2: TokenV,
    ts: Seq<TokenV>,
)
    requires
        ts.len() == 1,
        t2.value == ts[0].value,
        r == Ok::<Seq<TokenV>, ErrorV>(acc.push(t2)),
    ensures
        ({
            match r {
                Ok(out) => out.len() == acc.len() + ts.len() && (forall|k: int|
                    0 <= k < acc.len() ==> out[k] == acc[k]) && (forall|k: int|
                    0 <= k < ts.len() ==> out[acc.len() + k].value == ts[k].value),
                Err(_) => false,
            }
        }),
{
}

#[verifier::spinoff_prover]
proof fn lemma_scan_print_from(
    s: Seq<char>,
    i: int,
    line: int,
    col: int,
    acc: Seq<TokenV>,
    ts: Seq<TokenV>,
)
    requires
        0 <= i <= s.len(),
        s.subrange(i, s.len() as int) == spec_print_tokens(ts),
        forall|k: int| 0 <= k < ts.len() ==> canonical_lexeme(#[trigger] ts[k].value),
    ensures
        ({
            match spec_scan_at(s, i, line, col, i, 0, acc) {
                Ok(out) => out.len() == acc.len() + ts.len() && (forall|k: int|
                    0 <= k < acc.len() ==> out[k] == acc[k]) && (forall|k: int|
                    0 <= k < ts.len() ==> out[acc.len() + k].value == ts[k].value),
                Err(_) => false,
            }
        }),
    decreases ts.len(),
{
    reveal_strlit(" ");
    if ts.len() == 0 {
        assert(spec_print_tokens(ts) =~= Seq::<char>::empty());
        assert(i == s.len());
    } else {
        let v = ts[0].value;
        let rest = ts.drop_first();
        let end = i + v.len();
        assert(canonical_lexeme(v));
        // Split the remaining input into the lexeme, the separator, and
        // the printing of the rest.
        if ts.len() == 1 {
            assert(spec_print_tokens(ts) == v);
            assert(end == s.len());
            assert(s.subrange(i, end) =~= v);
        } else {
            let printed = spec_print_tokens(ts);
            assert(printed == v + " "@ + spec_print_tokens(rest));
            assert(" "@.len() == 1 && " "@[0] == ' ');
            assert forall|k: int| 0 <= k < v.len() implies s[i + k] == v[k] by {
                assert(s.subrange(i, s.len() as int)[k] == printed[k]);
                assert(printed[k] == v[k]);
            }
            assert(s.subrange(i, end) =~= v);
            assert(end < s.len());
            assert(s[end] == ' ') by {
                assert(s.subrange(i, s.len() as int)[v.len() as int] == printed[v.len() as int]);
                assert(printed[v.len() as int] == ' ');
            }
            assert(s.subrange(end + 1, s.len() as int) =~= spec_print_tokens(rest)) by {
                assert forall|k: int|
                    0 <= k < s.len() - end - 1 implies s.subrange(end + 1, s.len() as int)[k]
                    == spec_print_tokens(rest)[k] by {
                    assert(s.subrange(i, s.len() as int)[v.len() + 1 + k] == printed[v.len() + 1
                        + k]);
                    assert(printed[v.len() + 1 + k] == spec_print_tokens(rest)[k]);
                }
            }
        }
        // Scan the first lexeme.
        if word_lexeme(v) {
            assert(forall|k: int| i <= k < end ==> word_char(#[trigger] s[k])) by {
                assert(forall|k: int|
                    i <= k < end ==> s.subrange(i, end)[k - i] == #[trigger] s[k]);
            }
            lemma_scan_word_run(s, i, end, line, col, i, acc);
            if ts.len() == 1 {
                let t2 = TokenV { value: s.subrange(i, s.len() as int), line, col: col + (end
                    - i) - (end - i) };
                assert(spec_scan_at(s, end, line, col + (end - i), i, end - i, acc) == Ok::<
                    Seq<TokenV>,
                    ErrorV,
                >(acc.push(t2)));
                assert(t2.value == v);
                lemma_scan_combine_last(spec_scan_at(s, i, line, col, i, 0, acc), acc, t2, ts);
            } else {
                let t2 = TokenV { value: s.subrange(i, end), line, col: col + (end - i) - (end
                    - i) };
                let acc2 = acc.push(t2);
                assert(spec_scan_at(s, end, line, col + (end - i), i, end - i, acc) == spec_scan_at(
                    s,
                    end + 1,
                    line,
                    col + (end - i) + 1,
                    end + 1,
                    0,
                    acc2,
                ));
                lemma_scan_print_from(s, end + 1, line, col + (end - i) + 1, acc2, rest);
                assert(t2.value == v);
                lemma_scan_combine(spec_scan_at(s, i, line, col, i, 0, acc), acc, t2, rest, ts);
            }
        } else if punct_lexeme(v) {
            assert(s[i] == v[0]) by {
                assert(s.subrange(i, end)[0] == v[0]);
            }
            assert(!is_blank(s[i]));
            let t2 = TokenV { value: s.subrange(i, i + 1), line, col };
            let acc2 = acc.push(t2);
            assert(s.subrange(i, i + 1) =~= v);
            assert(spec_scan_at(s, i, line, col, i, 0, acc) == spec_scan_at(
                s,
                i + 1,
                line,
                col + 1,
                i + 1,
                0,
                acc2,
            ));
            if ts.len() == 1 {
                assert(end == s.len());
                assert(spec_scan_at(s, end, line, col + 1, end, 0, acc2) == Ok::<
                    Seq<TokenV>,
                    ErrorV,
                >(acc2));
                lemma_scan_combine_last(spec_scan_at(s, i, line, col, i, 0, acc), acc, t2, ts);
            } else {
                assert(spec_scan_at(s, end, line, col + 1, end, 0, acc2) == spec_scan_at(
                    s,
                    end + 1,
                    line,
                    col + 2,
                    end + 1,
                    0,
                    acc2,
                ));
                lemma_scan_print_from(s, end + 1, line, col + 2, acc2, rest);
                lemma_scan_combine(spec_scan_at(s, i, line, col, i, 0, acc), acc, t2, rest, ts);
            }
        } else {
            let k = choose|k: int| string_lexeme_at(v, k);
            assert(string_lexeme_at(v, k));
            let opening = i + k;
            let close = i + v.len() - 1;
            assert(forall|j: int| i <= j < opening ==> word_char(#[trigger] s[j])) by {
                assert(forall|j: int|
                    i <= j < opening ==> s.subrange(i, end)[j - i] == #[trigger] s[j]);
            }
            lemma_scan_word_run(s, i, opening, line, col, i, acc);
            assert(s[opening] == v[k] && s[close] == v[v.len() - 1]) by {
                assert(s.subrange(i, end)[k] == v[k]);
                assert(s.subrange(i, end)[v.len() - 1] == v[v.len() - 1]);
            }
            assert(!is_blank('"') && !is_punct('"'));
            assert(spec_scan_at(s, opening, line, col + k, i, k, acc) == spec_scan_string(
                s,
                opening + 1,
                line,
                col + k + 1,
                k + 1,
                i,
                acc,
                opening,
            ));
            lemma_interior_shift(v, s, i, k + 1);
            lemma_scan_string_run(s, opening + 1, close, line, col + k + 1, k + 1, i, acc,
                opening);
            let colc = col + k + 1 + (close - (opening + 1));
            let sizec = k + 1 + (close - (opening + 1));
            let t2 = TokenV { value: s.subrange(i, close + 1), line, col: colc + 1 - (sizec
                + 1) };
            let acc2 = acc.push(t2);
            assert(spec_scan_string(s, close, line, colc, sizec, i, acc, opening)
                == spec_scan_at(s, close + 1, line, colc + 1, close + 1, 0, acc2));
            assert(s.subrange(i, close + 1) =~= v);
            assert(close + 1 == end);
            if ts.len() == 1 {
                assert(end == s.len());
                assert(spec_scan_at(s, end, line, colc + 1, end, 0, acc2) == Ok::<
                    Seq<TokenV>,
                    ErrorV,
                >(acc2));
                lemma_scan_combine_last(spec_scan_at(s, i, line, col, i, 0, acc), acc, t2, ts);
            } else {
                assert(spec_scan_at(s, end, line, colc + 1, end, 0, acc2) == spec_scan_at(
                    s,
                    end + 1,
                    line,
                    colc + 2,
                    end + 1,
                    0,
                    acc2,
                ));
                lemma_scan_print_from(s, end + 1, line, colc + 2, acc2, rest);
                lemma_scan_combine(spec_scan_at(s, i, line, col, i, 0, acc), acc, t2, rest, ts);
            }
        }
    }
}

proof fn lemma_interior_unshift(v: Seq<char>, s: Seq<char>, i: int, k: int)
    requires
        0 <= i,
        v.len() >= 2,
        i + v.len() <= s.len(),
        s.subrange(i, i + v.len()) == v,
        1 <= k <= v.len(),
        interior_run(s, i + k, i + v.len() - 1),
    ensures
        interior_run(v, k, v.len() - 1),
    decreases v.len() - k,
{
    let vclose = v.len() - 1;
    if k < vclose {
        assert(v[k] == s.subrange(i, i + v.len())[k]);
        assert(s[i + k] == v[k]);
        if v[k] == '\\' {
            if k + 2 <= vclose {
                assert(interior_run(s, i + k + 2, i + vclose));
                lemma_interior_unshift(v, s, i, k + 2);
            } else {
                assert(!interior_run(s, i + vclose + 1, i + vclose));
            }
        } else {
            lemma_interior_unshift(v, s, i, k + 1);
        }
    }
}

#[verifier::spinoff_prover]
proof fn lemma_scan_at_canonical(
    s: Seq<char>,
    i: int,
    line: int,
    col: int,
    start: int,
    size: int,
    acc: Seq<TokenV>,
)
    requires
        0 <= start <= i <= s.len(),
        size == i - start,
        forall|j: int| start <= j < i ==> word_char(#[trigger] s[j]),
        forall|q: int| 0 <= q < acc.len() ==> canonical_lexeme(#[trigger] acc[q].value),
    ensures
        ({
            spec_scan_at(s, i, line, col, start, size, acc) matches Ok(out) ==> forall|q: int|
                0 <= q < out.len() ==> canonical_lexeme(#[trigger] out[q].value)
        }),
    decreases s.len() - i,
{
    if i >= s.len() {
        if size > 0 {
            let v = s.subrange(start, s.len() as int);
            assert(word_lexeme(v)) by {
                assert(forall|j: int|
                    0 <= j < v.len() ==> v[j] == #[trigger] s[start + j]);
            }
        }
    } else {
        let c = s[i];
        let flushed = if size > 0 {
            acc.push(TokenV { value: s.subrange(start, i), line, col: col - size })
        } else {
            acc
        };
        if size > 0 {
            let v = s.subrange(start, i);
            assert(word_lexeme(v)) by {
                assert(forall|j: int|
                    0 <= j < v.len() ==> v[j] == #[trigger] s[start + j]);
            }
        }
        assert(forall|q: int|
            0 <= q < flushed.len() ==> canonical_lexeme(#[trigger] flushed[q].value));
        if is_blank(c) {
            if c == '\n' {
                lemma_scan_at_canonical(s, i + 1, line + 1, 1, i + 1, 0, flushed);
            } else {
                lemma_scan_at_canonical(s, i + 1, line, col + 1, i + 1, 0, flushed);
            }
        } else if is_punct(c) {
            let p = s.subrange(i, i + 1);
            assert(p[0] == s[i]);
            assert(punct_lexeme(p));
            let acc2 = flushed.push(TokenV { value: p, line, col });
            assert(forall|q: int|
                0 <= q < acc2.len() ==> canonical_lexeme(#[trigger] acc2[q].value));
            lemma_scan_at_canonical(s, i + 1, line, col + 1, i + 1, 0, acc2);
        } else if c == '"' {
            lemma_scan_string_canonical(s, i + 1, line, col + 1, size + 1, start, acc, i);
        } else {
            assert(word_char(c));
            lemma_scan_at_canonical(s, i + 1, line, col + 1, start, size + 1, acc);
        }
    }
}

#[verifier::spinoff_prover]
proof fn lemma_scan_string_canonical(
    s: Seq<char>,
    j: int,
    line: int,
    col: int,
    size: int,
    start: int,
    acc: Seq<TokenV>,
    open: int,
)
    requires
        0 <= start <= open < j <= s.len(),
        s[open] == '"',
        j <= s.len() ==> size == j - start,
        forall|t: int| start <= t < open ==> word_char(#[trigger] s[t]),
        forall|q: int| 0 <= q < acc.len() ==> canonical_lexeme(#[trigger] acc[q].value),
        forall|c: int| j <= c && #[trigger] interior_run(s, j, c) ==> interior_run(
            s,
            open + 1,
            c,
        ),
    ensures
        ({
            spec_scan_string(s, j, line, col, size, start, acc, open) matches Ok(out)
                ==> forall|q: int| 0 <= q < out.len() ==> canonical_lexeme(
                #[trigger] out[q].value,
            )
        }),
    decreases s.len() - j,
{
    if j >= s.len() {
        // Unterminated: an error, nothing to show.
    } else {
        let c = s[j];
        if c == '"' {
            // The string closes here: the pushed token is a word prefix,
            // the opening quote, the interior, and this quote.
            let v = s.subrange(start, j + 1);
            let k = open - start;
            assert(interior_run(s, j, j));
            assert(interior_run(s, open + 1, j));
            assert(v[k] == s[open] && v[v.len() - 1] == s[j]) by {
                assert(v[k] == s[start + k]);
                assert(v[v.len() - 1] == s[start + (v.len() - 1)]);
            }
            assert(string_lexeme_at(v, k)) by {
                assert(forall|t: int| 0 <= t < k ==> v[t] == #[trigger] s[start + t]);
                lemma_interior_unshift(v, s, start, k + 1);
            }
            assert(canonical_lexeme(v));
            let acc1 = acc.push(
                TokenV { value: v, line, col: col + 1 - (size + 1) },
            );
            assert(forall|q: int|
                0 <= q < acc1.len() ==> canonical_lexeme(#[trigger] acc1[q].value));
            lemma_scan_at_canonical(s, j + 1, line, col + 1, j + 1, 0, acc1);
            assert(spec_scan_string(s, j, line, col, size, start, acc, open) == spec_scan_at(
                s,
                j + 1,
                line,
                col + 1,
                j + 1,
                0,
                acc1,
            ));
        } else if c == '\n' {
            // Unterminated: an error, nothing to show.
            assert(spec_scan_string(s, j, line, col, size, start, acc, open) is Err);
        } else if c == '\\' {
            let j2 = if j + 2 <= s.len() {
                j + 2
            } else {
                s.len() as int
            };
            assert(spec_scan_string(s, j, line, col, size, start, acc, open)
                == spec_scan_string(s, j2, line, col + 2, size + 2, start, acc, open));
            if j2 == j + 2 {
                assert forall|cc: int| j2 <= cc && #[trigger] interior_run(s, j2, cc)
                    implies interior_run(s, open + 1, cc) by {
                    assert(interior_run(s, j, cc));
                }
                lemma_scan_string_canonical(s, j2, line, col + 2, size + 2, start, acc, open);
            } else {
                // The jump was clamped to the end of input: the next step
                // is the unterminated-string error, nothing to show.
                assert(spec_scan_string(s, j2, line, col + 2, size + 2, start, acc, open)
                    is Err);
            }
        } else {
            assert forall|cc: int| j + 1 <= cc && #[trigger] interior_run(s, j + 1, cc)
                implies interior_run(s, open + 1, cc) by {
                assert(interior_run(s, j, cc));
            }
            lemma_scan_string_canonical(s, j + 1, line, col + 1, size + 1, start, acc, open);
            assert(spec_scan_string(s, j, line, col, size, start, acc, open)
                == spec_scan_string(s, j + 1, line, col + 1, size + 1, start, acc, open));
        }
    }
}

/// Every token the scanner makes has a canonical value: a word, one
/// punctuation character, or a string with an optional merged word prefix.
pub proof fn lemma_scan_output_canonical(s: Seq<char>)
    ensures
        ({
            spec_scan(s) matches Ok(out) ==> forall|q: int| 0 <= q < out.len()
                ==> canonical_lexeme(#[trigger] out[q].value)
        }),
{
    lemma_scan_at_canonical(s, 0, 1, 1, 0, 0, Seq::empty());
}

/// Scanning, printing canonically, and scanning again reproduces exactly
/// the token values: `scan` after `print_tokens` is the identity on the
/// values of any scan's output, with positions recomputed from the
/// canonical spacing.
pub proof fn lemma_scan_print_scan(s: Seq<char>)
    ensures
        ({
            spec_scan(s) matches Ok(ts) ==> (match spec_scan(spec_print_tokens(ts)) {
                Ok(out) => out.len() == ts.len() && (forall|k: int|
                    0 <= k < ts.len() ==> out[k].value == ts[k].value),
                Err(_) => false,
            })
        }),
{
    lemma_scan_output_canonical(s);
    match spec_scan(s) {
        Ok(ts) => {
            lemma_scan_print_identity(ts);
        }
        Err(_) => {}
    }
}

/// Scanning the canonical printing of a token list gives back tokens with
/// exactly those values, in order.  Positions are recomputed from the
/// canonical spacing.
pub proof fn lemma_scan_print_identity(ts: Seq<TokenV>)
    requires
        forall|k: int| 0 <= k < ts.len() ==> canonical_lexeme(#[trigger] ts[k].value),
    ensures
        ({
            match spec_scan(spec_print_tokens(ts)) {
                Ok(out) => out.len() == ts.len() && (forall|k: int|
                    0 <= k < ts.len() ==> out[k].value == ts[k].value),
                Err(_) => false,
            }
        }),
{
    let s = spec_print_tokens(ts);
    assert(s.subrange(0, s.len() as int) =~= s);
    lemma_scan_print_from(s, 0, 1, 1, Seq::empty(), ts);
}

/// Prints a token list canonically: the values joined by single spaces.
pub fn print_tokens(tokens: &Vec<Token>) -> (r: String)
    ensures
        r@ == spec_print_tokens(seq_view(tokens@)),
{
    proof {
        assert(seq_view(tokens@).skip(0) =~= seq_view(tokens@));
    }
    print_tokens_from(tokens, 0)
}

fn print_tokens_from(tokens: &Vec<Token>, i: usize) -> (r: String)
    requires
        i <= tokens@.len(),
    ensures
        r@ == spec_print_tokens(seq_view(tokens@).skip(i as int)),
    decreases tokens@.len() - i,
{
    proof {
        lemma_seq_view(tokens@);
    }
    let ghost rest = seq_view(tokens@).skip(i as int);
    if i >= tokens.len() {
        proof {
            assert(rest =~= Seq::<TokenV>::empty());
        }
        String::new()
    } else if i + 1 == tokens.len() {
        proof {
            assert(rest.len() == 1);
            assert(rest[0] == tokens@[i as int]@);
        }
        tokens[i].value.clone()
    } else {
        let head = tokens[i].value.clone();
        let tail = print_tokens_from(tokens, i + 1);
        proof {
            assert(rest[0] == tokens@[i as int]@);
            assert(rest.drop_first() =~= seq_view(tokens@).skip(i as int + 1));
        }
        head.concat(" ").concat(tail.as_str())
    }
}

/// Splits the source text into positioned tokens.
///
/// Whitespace separates tokens; newlines advance the line count and reset
/// the column.  The punctuation characters `{ } ( ) [ ] . , ; :` are always
/// one-character tokens.  A `"` opens a string token that runs to the
/// matching unescaped `"`; a raw newline or the end of input inside a
/// string is an `Unterminated string` parse error.  Every other run of
/// characters is one token.
pub fn scan(s: &str) -> (r: Result<Vec<Token>, Error>)
    requires
        s@.len() <= usize::MAX - 2,
    ensures
        ({
            match spec_scan(s@) {
                Ok(toks) => r matches Ok(v) && seq_view(v@) == toks,
                Err(e) => r matches Err(err) && err@ == e,
            }
        }),
{
    let n = s.unicode_len();
    let mut tokens: Vec<Token> = Vec::new();
    let mut line: usize = 1;
    let mut col: usize = 1;
    let mut token_size: usize = 0;
    let mut token_start: usize = 0;
    let mut i: usize = 0;
    proof {
        assert(seq_view(tokens@) =~= Seq::<TokenV>::empty());
    }
    while i < n
        invariant
            n == s@.len(),
            n <= usize::MAX - 2,
            i <= n,
            token_start <= i,
            1 <= line,
            line <= i + 1,
            1 <= col,
            token_size + 1 <= col,
            col <= i + 1,
            spec_scan(s@) == spec_scan_at(
                s@,
                i as int,
                line as int,
                col as int,
                token_start as int,
                token_size as int,
                seq_view(tokens@),
            ),
        decreases n - i,
    {
        let c = s.get_char(i);
        if c == ' ' || c == '\t' || c == '\r' || c == '\n' {
            if token_size > 0 {
                let value = String::from_str(s.substring_char(token_start, i));
                let ghost pre = tokens@;
                let tok_col = col - token_size;
                tokens.push(Token { value, line, col: tok_col });
                token_size = 0;
                proof {
                    assert(tokens@.drop_last() =~= pre);
                    assert(seq_view(tokens@) == seq_view(tokens@.drop_last()).push(
                        tokens@.last()@,
                    ));
                }
            }
            if c == '\n' {
                line = line + 1;
                col = 1;
            } else {
                col = col + 1;
            }
            token_start = i + 1;
            i = i + 1;
        } else if c == '{' || c == '}' || c == '(' || c == ')' || c == '[' || c == ']'
            || c == '.' || c == ',' || c == ';' || c == ':' {
            if token_size > 0 {
                let value = String::from_str(s.substring_char(token_start, i));
                let ghost pre = tokens@;
                let tok_col = col - token_size;
                tokens.push(Token { value, line, col: tok_col });
                token_size = 0;
                proof {
                    assert(tokens@.drop_last() =~= pre);
                    assert(seq_view(tokens@) == seq_view(tokens@.drop_last()).push(
                        tokens@.last()@,
                    ));
                }
            }
            let value = String::from_str(s.substring_char(i, i + 1));
            let ghost pre = tokens@;
            tokens.push(Token { value, line, col });
            proof {
                assert(tokens@.drop_last() =~= pre);
                assert(seq_view(tokens@) == seq_view(tokens@.drop_last()).push(
                    tokens@.last()@,
                ));
            }
            col = col + 1;
            token_start = i + 1;
            i = i + 1;
        } else if c == '"' {
            match scan_string_part(s, i, i + 1, line, col + 1, token_size + 1, token_start,
                &mut tokens) {
                Ok(rc) => {
                    i = rc.0;
                    col = rc.1;
                    token_start = rc.0;
                    token_size = 0;
                }
                Err(e) => {
                    return Err(e);
                }
            }
        } else {
            col = col + 1;
            token_size = token_size + 1;
            i = i + 1;
        }
    }
    if token_size > 0 {
        let value = String::from_str(s.substring_char(token_start, n));
        let ghost pre = tokens@;
        let tok_col = col - token_size;
        tokens.push(Token { value, line, col: tok_col });
        proof {
            assert(tokens@.drop_last() =~= pre);
            assert(seq_view(tokens@) == seq_view(tokens@.drop_last()).push(tokens@.last()@));
        }
    }
    Ok(tokens)
}

} // verus!
