//! The mathematical model of the documentation scanner.
//!
//! Everything here is specification-level: the functions define, over a
//! `Seq<char>`, which text counts as an inner documentation annotation, what
//! each annotation contributes, and how fragments are joined.  The executable
//! scanner is proved to compute exactly these functions.

use vstd::prelude::*;

verus! {

/// Why a text's inner-annotation region could not be read to its end.
#[derive(Clone, Copy, PartialEq, Eq, Structural, Debug)]
pub enum ParseError {
    /// A `/*` or `/*!` comment is never closed by a matching `*/`.
    UnclosedBlockComment,
    /// A `#![...]` annotation is never closed by a matching `]`.
    UnclosedAttribute,
    /// A string inside a `#![doc = ...]` annotation is never closed.
    UnclosedString,
    /// A string inside a `#![doc = ...]` annotation uses an escape the
    /// language does not define, or one whose value is out of range.
    BadEscape,
}

/// Whitespace as the lexical grammar knows it, between tokens.
pub open spec fn is_source_ws(c: char) -> bool {
    ||| c == ' '
    ||| c == '\t'
    ||| c == '\n'
    ||| c == '\r'
    ||| c == '\u{000B}'
    ||| c == '\u{000C}'
    ||| c == '\u{0085}'
    ||| c == '\u{200E}'
    ||| c == '\u{200F}'
    ||| c == '\u{2028}'
    ||| c == '\u{2029}'
}

/// Whitespace that a string's line-continuation escape swallows.
pub open spec fn is_cont_ws(c: char) -> bool {
    c == ' ' || c == '\t' || c == '\n' || c == '\r'
}

/// A character that may continue an identifier, used to tell the `doc` word
/// from a longer name.
pub open spec fn is_ident_char(c: char) -> bool {
    ||| ('a' <= c && c <= 'z')
    ||| ('A' <= c && c <= 'Z')
    ||| ('0' <= c && c <= '9')
    ||| c == '_'
}

/// A hexadecimal digit.
pub open spec fn is_hex_digit(c: char) -> bool {
    ||| ('0' <= c && c <= '9')
    ||| ('a' <= c && c <= 'f')
    ||| ('A' <= c && c <= 'F')
}

/// The numeric value of a hexadecimal digit.
pub open spec fn hex_digit_val(c: char) -> int {
    if '0' <= c && c <= '9' {
        c as int - '0' as int
    } else if 'a' <= c && c <= 'f' {
        10 + c as int - 'a' as int
    } else {
        10 + c as int - 'A' as int
    }
}

/// Line-break normalization: every carriage return directly before a line
/// feed is removed, as the lexical grammar does before tokens are formed.
pub open spec fn normalize(text: Seq<char>) -> Seq<char>
    decreases text.len(),
{
    if text.len() == 0 {
        Seq::empty()
    } else if text.len() >= 2 && text[0] == '\r' && text[1] == '\n' {
        normalize(text.drop_first())
    } else {
        seq![text[0]] + normalize(text.drop_first())
    }
}

/// A byte-order mark at the very start of the text is not part of the
/// source and is dropped before scanning.
pub open spec fn strip_bom(text: Seq<char>) -> Seq<char> {
    if text.len() > 0 && text[0] == '\u{FEFF}' {
        text.drop_first()
    } else {
        text
    }
}

/// What the scanner actually reads: the text with its byte-order mark
/// dropped and its line breaks normalized.
pub open spec fn preprocess(text: Seq<char>) -> Seq<char> {
    normalize(strip_bom(text))
}

/// The position of the next line feed at or after `i`, or the text's end.
pub open spec fn line_end(text: Seq<char>, i: int) -> int
    decreases text.len() - i,
{
    if i >= text.len() {
        text.len() as int
    } else if text[i] == '\n' {
        i
    } else {
        line_end(text, i + 1)
    }
}

pub proof fn lemma_line_end(text: Seq<char>, i: int)
    requires
        0 <= i <= text.len(),
    ensures
        i <= line_end(text, i) <= text.len(),
        line_end(text, i) < text.len() ==> text[line_end(text, i)] == '\n',
    decreases text.len() - i,
{
    if i < text.len() && text[i] != '\n' {
        lemma_line_end(text, i + 1);
    }
}

/// The position of the first character at or after `i` that a string's
/// line-continuation escape does not swallow, or the text's end.
pub open spec fn cont_ws_end(text: Seq<char>, i: int) -> int
    decreases text.len() - i,
{
    if i >= text.len() {
        text.len() as int
    } else if is_cont_ws(text[i]) {
        cont_ws_end(text, i + 1)
    } else {
        i
    }
}

pub proof fn lemma_cont_ws_end(text: Seq<char>, i: int)
    requires
        0 <= i <= text.len(),
    ensures
        i <= cont_ws_end(text, i) <= text.len(),
    decreases text.len() - i,
{
    if i < text.len() && is_cont_ws(text[i]) {
        lemma_cont_ws_end(text, i + 1);
    }
}

/// The position of the first character at or after `i` that is neither a
/// hexadecimal digit nor an underscore — the end of a `\u{...}` escape's
/// body — or the text's end.
pub open spec fn u_body_end(text: Seq<char>, i: int) -> int
    decreases text.len() - i,
{
    if i >= text.len() {
        text.len() as int
    } else if is_hex_digit(text[i]) || text[i] == '_' {
        u_body_end(text, i + 1)
    } else {
        i
    }
}

pub proof fn lemma_u_body_end(text: Seq<char>, i: int)
    requires
        0 <= i <= text.len(),
    ensures
        i <= u_body_end(text, i) <= text.len(),
    decreases text.len() - i,
{
    if i < text.len() && (is_hex_digit(text[i]) || text[i] == '_') {
        lemma_u_body_end(text, i + 1);
    }
}

/// The number of hexadecimal digits in `text[i..end)`.
pub open spec fn u_digit_count(text: Seq<char>, i: int, end: int) -> int
    decreases end - i,
{
    if end <= i {
        0
    } else {
        u_digit_count(text, i, end - 1) + if is_hex_digit(text[end - 1]) {
            1int
        } else {
            0int
        }
    }
}

/// The value of the hexadecimal digits in `text[i..end)`, most significant
/// first; underscores between them are passed over.
pub open spec fn u_value(text: Seq<char>, i: int, end: int) -> int
    decreases end - i,
{
    if end <= i {
        0
    } else if is_hex_digit(text[end - 1]) {
        u_value(text, i, end - 1) * 16 + hex_digit_val(text[end - 1])
    } else {
        u_value(text, i, end - 1)
    }
}

/// The position just after the `*/` that closes `depth` open block
/// comments, reading from `i`, or `None` when the text ends first.
/// `/*` and `*/` pairs nest.
pub open spec fn block_end(text: Seq<char>, i: int, depth: nat) -> Option<int>
    decreases text.len() - i,
{
    if depth == 0 {
        Some(i)
    } else if i >= text.len() {
        None
    } else if i + 1 < text.len() && text[i] == '*' && text[i + 1] == '/' {
        block_end(text, i + 2, (depth - 1) as nat)
    } else if i + 1 < text.len() && text[i] == '/' && text[i + 1] == '*' {
        block_end(text, i + 2, depth + 1)
    } else {
        block_end(text, i + 1, depth)
    }
}

pub proof fn lemma_block_end(text: Seq<char>, i: int, depth: nat)
    requires
        0 <= i <= text.len(),
    ensures
        block_end(text, i, depth) matches Some(e) ==> i <= e <= text.len(),
        depth > 0 ==> (block_end(text, i, depth) matches Some(e) ==> i + 2 <= e),
    decreases text.len() - i,
{
    if depth == 0 {
    } else if i >= text.len() {
    } else if i + 1 < text.len() && text[i] == '*' && text[i + 1] == '/' {
        lemma_block_end(text, i + 2, (depth - 1) as nat);
    } else if i + 1 < text.len() && text[i] == '/' && text[i + 1] == '*' {
        lemma_block_end(text, i + 2, depth + 1);
    } else {
        lemma_block_end(text, i + 1, depth);
    }
}

/// The position just after the `]` that closes an annotation whose body
/// began at `i` with `depth` brackets already open, or `None` when the text
/// ends first.  Brackets nest; a bracket inside a `"`-delimited string, a
/// raw string, a character literal or a comment does not count; a lone `'`,
/// as in a lifetime mark, is an ordinary character.  `in_str` says whether
/// `i` stands inside a `"`-delimited string.
pub open spec fn attr_end(text: Seq<char>, i: int, depth: nat, in_str: bool) -> Option<int>
    decreases text.len() - i,
{
    if !(0 <= i < text.len()) {
        None
    } else if in_str {
        if text[i] == '\\' {
            if i + 1 < text.len() {
                attr_end(text, i + 2, depth, true)
            } else {
                None
            }
        } else if text[i] == '"' {
            attr_end(text, i + 1, depth, false)
        } else {
            attr_end(text, i + 1, depth, true)
        }
    } else if text[i] == '\'' {
        if i + 1 < text.len() && text[i + 1] == '\\' && i + 3 < text.len() && text[i + 3] == '\'' {
            attr_end(text, i + 4, depth, false)
        } else if i + 2 < text.len() && text[i + 1] != '\\' && text[i + 2] == '\'' {
            attr_end(text, i + 3, depth, false)
        } else {
            attr_end(text, i + 1, depth, false)
        }
    } else if at(text, i, '/') && at(text, i + 1, '/') {
        proof {
            lemma_line_end(text, i + 2);
        }
        attr_end(text, line_end(text, i + 2), depth, false)
    } else if at(text, i, '/') && at(text, i + 1, '*') {
        match block_end(text, i + 2, 1) {
            None => None,
            Some(e) => {
                proof {
                    lemma_block_end(text, i + 2, 1);
                }
                attr_end(text, e, depth, false)
            },
        }
    } else if text[i] == 'r' && raw_quote_at(text, i + 1) {
        let n = hash_run(text, i + 1);
        match raw_end(text, i + 2 + n, n as nat) {
            None => None,
            Some(e) => {
                proof {
                    lemma_hash_run(text, i + 1);
                    lemma_raw_end(text, i + 2 + n, n as nat);
                    lemma_hashes_at(text, e + 1, n as nat);
                }
                attr_end(text, e + 1 + n, depth, false)
            },
        }
    } else if text[i] == ']' {
        if depth == 0 {
            Some(i + 1)
        } else {
            attr_end(text, i + 1, (depth - 1) as nat, false)
        }
    } else if text[i] == '[' {
        attr_end(text, i + 1, depth + 1, false)
    } else if text[i] == '"' {
        attr_end(text, i + 1, depth, true)
    } else {
        attr_end(text, i + 1, depth, false)
    }
}

pub proof fn lemma_attr_end(text: Seq<char>, i: int, depth: nat, in_str: bool)
    requires
        0 <= i <= text.len(),
    ensures
        attr_end(text, i, depth, in_str) matches Some(e) ==> i < e <= text.len(),
    decreases text.len() - i,
{
    if !(0 <= i < text.len()) {
    } else if in_str {
        if text[i] == '\\' {
            if i + 1 < text.len() {
                lemma_attr_end(text, i + 2, depth, true);
            }
        } else {
            lemma_attr_end(text, i + 1, depth, if text[i] == '"' { false } else { true });
        }
    } else if text[i] == '\'' {
        if i + 1 < text.len() && text[i + 1] == '\\' && i + 3 < text.len() && text[i + 3] == '\'' {
            lemma_attr_end(text, i + 4, depth, false);
        } else if i + 2 < text.len() && text[i + 1] != '\\' && text[i + 2] == '\'' {
            lemma_attr_end(text, i + 3, depth, false);
        } else {
            lemma_attr_end(text, i + 1, depth, false);
        }
    } else if at(text, i, '/') && at(text, i + 1, '/') {
        lemma_line_end(text, i + 2);
        lemma_attr_end(text, line_end(text, i + 2), depth, false);
    } else if at(text, i, '/') && at(text, i + 1, '*') {
        match block_end(text, i + 2, 1) {
            None => (),
            Some(e) => {
                lemma_block_end(text, i + 2, 1);
                lemma_attr_end(text, e, depth, false);
            },
        }
    } else if text[i] == 'r' && raw_quote_at(text, i + 1) {
        let n = hash_run(text, i + 1);
        lemma_hash_run(text, i + 1);
        match raw_end(text, i + 2 + n, n as nat) {
            None => (),
            Some(e) => {
                lemma_raw_end(text, i + 2 + n, n as nat);
                lemma_hashes_at(text, e + 1, n as nat);
                lemma_attr_end(text, e + 1 + n, depth, false);
            },
        }
    } else if text[i] == ']' {
        if depth > 0 {
            lemma_attr_end(text, i + 1, (depth - 1) as nat, false);
        }
    } else if text[i] == '[' {
        lemma_attr_end(text, i + 1, depth + 1, false);
    } else if text[i] == '"' {
        lemma_attr_end(text, i + 1, depth, true);
    } else {
        lemma_attr_end(text, i + 1, depth, false);
    }
}

/// A Unicode scalar value: what a character may be.
pub open spec fn is_scalar_value(v: int) -> bool {
    (0 <= v < 0xD800) || (0xDFFF < v <= 0x10FFFF)
}

/// What one escape contributes to a string's value.  `i` is the position of
/// the character after the backslash; the result is the contributed
/// characters and the position after the whole escape.
pub open spec fn esc_step(text: Seq<char>, i: int) -> Result<(Seq<char>, int), ParseError>
    decreases text.len() - i,
{
    if i >= text.len() {
        Err(ParseError::UnclosedString)
    } else if text[i] == 'n' {
        Ok((seq!['\n'], i + 1))
    } else if text[i] == 'r' {
        Ok((seq!['\r'], i + 1))
    } else if text[i] == 't' {
        Ok((seq!['\t'], i + 1))
    } else if text[i] == '\\' {
        Ok((seq!['\\'], i + 1))
    } else if text[i] == '"' {
        Ok((seq!['"'], i + 1))
    } else if text[i] == '\'' {
        Ok((seq!['\''], i + 1))
    } else if text[i] == '0' {
        Ok((seq!['\0'], i + 1))
    } else if text[i] == '\n' || text[i] == '\r' {
        // A backslash directly before a line break continues the string on
        // the next line: the break and the following blanks contribute
        // nothing.
        Ok((Seq::empty(), cont_ws_end(text, i + 1)))
    } else if text[i] == 'x' {
        if i + 2 < text.len() && is_hex_digit(text[i + 1]) && is_hex_digit(text[i + 2]) {
            let v = hex_digit_val(text[i + 1]) * 16 + hex_digit_val(text[i + 2]);
            if v <= 0x7F {
                Ok((seq![((v as u32) as char)], i + 3))
            } else {
                Err(ParseError::BadEscape)
            }
        } else {
            Err(ParseError::BadEscape)
        }
    } else if text[i] == 'u' {
        if i + 1 < text.len() && text[i + 1] == '{' {
            let body_end = u_body_end(text, i + 2);
            let n = u_digit_count(text, i + 2, body_end);
            if 1 <= n <= 6 && i + 2 < body_end && is_hex_digit(text[i + 2]) && body_end
                < text.len() && text[body_end] == '}' {
                let v = u_value(text, i + 2, body_end);
                if is_scalar_value(v) {
                    Ok((seq![((v as u32) as char)], body_end + 1))
                } else {
                    Err(ParseError::BadEscape)
                }
            } else {
                Err(ParseError::BadEscape)
            }
        } else {
            Err(ParseError::BadEscape)
        }
    } else {
        Err(ParseError::BadEscape)
    }
}

pub proof fn lemma_esc_step(text: Seq<char>, i: int)
    requires
        0 <= i <= text.len(),
    ensures
        esc_step(text, i) matches Ok((cs, j)) ==> i < j <= text.len(),
{
    if i < text.len() {
        if text[i] == '\n' || text[i] == '\r' {
            lemma_cont_ws_end(text, i + 1);
        } else if text[i] == 'u' && i + 1 < text.len() && text[i + 1] == '{' {
            lemma_u_body_end(text, i + 2);
        }
    }
}

/// The value of a `"`-delimited string whose content starts at `i`, with
/// escapes replaced by what they contribute, together with the position
/// after the closing quote.
pub open spec fn str_value(text: Seq<char>, i: int) -> Result<(Seq<char>, int), ParseError>
    decreases text.len() - i,
{
    if !(0 <= i < text.len()) {
        Err(ParseError::UnclosedString)
    } else if text[i] == '"' {
        Ok((Seq::empty(), i + 1))
    } else if text[i] == '\\' {
        match esc_step(text, i + 1) {
            Err(e) => Err(e),
            Ok((cs, j)) => {
                proof {
                    lemma_esc_step(text, i + 1);
                }
                match str_value(text, j) {
                    Err(e) => Err(e),
                    Ok((rest, k)) => Ok((cs + rest, k)),
                }
            },
        }
    } else {
        match str_value(text, i + 1) {
            Err(e) => Err(e),
            Ok((rest, k)) => Ok((seq![text[i]] + rest, k)),
        }
    }
}

pub proof fn lemma_str_value(text: Seq<char>, i: int)
    requires
        0 <= i <= text.len(),
    ensures
        str_value(text, i) matches Ok((v, k)) ==> i < k <= text.len(),
    decreases text.len() - i,
{
    if i < text.len() {
        if text[i] == '"' {
        } else if text[i] == '\\' {
            lemma_esc_step(text, i + 1);
            match esc_step(text, i + 1) {
                Ok((cs, j)) => lemma_str_value(text, j),
                Err(_) => (),
            }
        } else {
            lemma_str_value(text, i + 1);
        }
    }
}

/// The length of the run of `#` characters starting at `i`.
pub open spec fn hash_run(text: Seq<char>, i: int) -> int
    decreases text.len() - i,
{
    if 0 <= i < text.len() && text[i] == '#' {
        1 + hash_run(text, i + 1)
    } else {
        0
    }
}

pub proof fn lemma_hash_run(text: Seq<char>, i: int)
    requires
        0 <= i <= text.len(),
    ensures
        0 <= hash_run(text, i) <= text.len() - i,
    decreases text.len() - i,
{
    if i < text.len() && text[i] == '#' {
        lemma_hash_run(text, i + 1);
    }
}

/// Whether `n` `#` characters stand at `i`.
pub open spec fn hashes_at(text: Seq<char>, i: int, n: nat) -> bool
    decreases n,
{
    n == 0 || (0 <= i < text.len() && text[i] == '#' && hashes_at(text, i + 1, (n - 1) as nat))
}

/// The position of the `"` that ends a raw string guarded by `n` hashes,
/// reading its content from `i`, or `None` when the text ends first.
pub open spec fn raw_end(text: Seq<char>, i: int, n: nat) -> Option<int>
    decreases text.len() - i,
{
    if i >= text.len() {
        None
    } else if text[i] == '"' && hashes_at(text, i + 1, n) {
        Some(i)
    } else {
        raw_end(text, i + 1, n)
    }
}

pub proof fn lemma_hashes_at(text: Seq<char>, i: int, n: nat)
    requires
        0 <= i <= text.len(),
        hashes_at(text, i, n),
    ensures
        i + n <= text.len(),
    decreases n,
{
    if n > 0 {
        lemma_hashes_at(text, i + 1, (n - 1) as nat);
    }
}

pub proof fn lemma_raw_end(text: Seq<char>, i: int, n: nat)
    requires
        0 <= i <= text.len(),
    ensures
        raw_end(text, i, n) matches Some(e) ==> i <= e < text.len() && text[e] == '"'
            && hashes_at(text, e + 1, n),
    decreases text.len() - i,
{
    if i < text.len() && !(text[i] == '"' && hashes_at(text, i + 1, n)) {
        lemma_raw_end(text, i + 1, n);
    }
}

/// The position of the first character at or after `i` that is neither
/// whitespace nor part of a `//` or `/* */` comment: where the lexer finds
/// the next token.  An unclosed comment swallows the rest of the text.
pub open spec fn trivia_end(text: Seq<char>, i: int) -> int
    decreases text.len() - i,
{
    if !(0 <= i < text.len()) {
        text.len() as int
    } else if is_source_ws(text[i]) {
        trivia_end(text, i + 1)
    } else if at(text, i, '/') && at(text, i + 1, '/') {
        proof {
            lemma_line_end(text, i + 2);
        }
        trivia_end(text, line_end(text, i + 2))
    } else if at(text, i, '/') && at(text, i + 1, '*') {
        match block_end(text, i + 2, 1) {
            None => text.len() as int,
            Some(e) => {
                proof {
                    lemma_block_end(text, i + 2, 1);
                }
                trivia_end(text, e)
            },
        }
    } else {
        i
    }
}

pub proof fn lemma_trivia_end(text: Seq<char>, i: int)
    requires
        0 <= i <= text.len(),
    ensures
        i <= trivia_end(text, i) <= text.len(),
    decreases text.len() - i,
{
    if 0 <= i < text.len() {
        if is_source_ws(text[i]) {
            lemma_trivia_end(text, i + 1);
        } else if at(text, i, '/') && at(text, i + 1, '/') {
            lemma_line_end(text, i + 2);
            lemma_trivia_end(text, line_end(text, i + 2));
        } else if at(text, i, '/') && at(text, i + 1, '*') {
            match block_end(text, i + 2, 1) {
                None => (),
                Some(e) => {
                    lemma_block_end(text, i + 2, 1);
                    lemma_trivia_end(text, e);
                },
            }
        }
    }
}

/// Whether the `doc` word, and no longer identifier, stands at `i`.
pub open spec fn doc_word_at(text: Seq<char>, i: int) -> bool {
    &&& i + 3 <= text.len()
    &&& text[i] == 'd'
    &&& text[i + 1] == 'o'
    &&& text[i + 2] == 'c'
    &&& (i + 3 == text.len() || !is_ident_char(text[i + 3]))
}

/// One inner annotation, read from position `a` (just after its `#![`).
/// The result is the documentation fragment it contributes, if any, and the
/// position after its closing `]`.
///
/// A `doc = "..."` or `doc = r"..."` annotation, its tokens parted by any
/// amount of whitespace and comments, contributes its string's value; any
/// other well-bracketed annotation — another name, a list form, a value
/// that is more than one string — contributes nothing.
pub open spec fn attr_step(text: Seq<char>, a: int) -> Result<(Option<Seq<char>>, int), ParseError> {
    let j = trivia_end(text, a);
    if doc_word_at(text, j) {
        let k = trivia_end(text, j + 3);
        if k < text.len() && text[k] == '=' {
            let m = trivia_end(text, k + 1);
            if m < text.len() && text[m] == '"' {
                match str_value(text, m + 1) {
                    Err(e) => Err(e),
                    Ok((v, p)) => {
                        let q = trivia_end(text, p);
                        if q < text.len() && text[q] == ']' {
                            Ok((Some(v), q + 1))
                        } else {
                            attr_skip(text, m)
                        }
                    },
                }
            } else if m < text.len() && text[m] == 'r' && raw_quote_at(text, m + 1) {
                let n = hash_run(text, m + 1);
                match raw_end(text, m + 2 + n, n as nat) {
                    None => Err(ParseError::UnclosedString),
                    Some(e) => {
                        let q = trivia_end(text, e + 1 + n);
                        if q < text.len() && text[q] == ']' {
                            Ok((Some(text.subrange(m + 2 + n, e)), q + 1))
                        } else {
                            attr_skip(text, m)
                        }
                    },
                }
            } else {
                attr_skip(text, m)
            }
        } else {
            attr_skip(text, j + 3)
        }
    } else {
        attr_skip(text, a)
    }
}

/// The rest of an annotation that contributes no fragment: everything to
/// its closing `]`.
pub open spec fn attr_skip(text: Seq<char>, i: int) -> Result<
    (Option<Seq<char>>, int),
    ParseError,
> {
    match attr_end(text, i, 0, false) {
        None => Err(ParseError::UnclosedAttribute),
        Some(e) => Ok((None, e)),
    }
}

/// Whether a raw string's opening quote, behind its run of hashes, stands
/// at `i`.
pub open spec fn raw_quote_at(text: Seq<char>, i: int) -> bool {
    let n = hash_run(text, i);
    i + n < text.len() && text[i + n] == '"'
}

pub proof fn lemma_attr_step(text: Seq<char>, a: int)
    requires
        0 <= a <= text.len(),
    ensures
        attr_step(text, a) matches Ok((f, e)) ==> a < e <= text.len(),
{
    lemma_trivia_end(text, a);
    let j = trivia_end(text, a);
    if doc_word_at(text, j) {
        lemma_trivia_end(text, j + 3);
        let k = trivia_end(text, j + 3);
        if k < text.len() && text[k] == '=' {
            lemma_trivia_end(text, k + 1);
            let m = trivia_end(text, k + 1);
            lemma_attr_end(text, m, 0, false);
            if m < text.len() && text[m] == '"' {
                lemma_str_value(text, m + 1);
                match str_value(text, m + 1) {
                    Err(_) => (),
                    Ok((v, p)) => {
                        lemma_trivia_end(text, p);
                    },
                }
            } else if m < text.len() && text[m] == 'r' && raw_quote_at(text, m + 1) {
                let n = hash_run(text, m + 1);
                lemma_hash_run(text, m + 1);
                lemma_raw_end(text, m + 2 + n, n as nat);
                match raw_end(text, m + 2 + n, n as nat) {
                    None => (),
                    Some(e) => {
                        lemma_hashes_at(text, e + 1, n as nat);
                        lemma_trivia_end(text, e + 1 + n);
                    },
                }
            }
        } else {
            lemma_attr_end(text, j + 3, 0, false);
        }
    } else {
        lemma_attr_end(text, a, 0, false);
    }
}

/// Whether character `c` stands at position `k`.
pub open spec fn at(text: Seq<char>, k: int, c: char) -> bool {
    0 <= k < text.len() && text[k] == c
}

/// The ordered documentation fragments of the text's inner-annotation
/// region, read from position `i`.
///
/// The region holds, in any order: whitespace; plain `//` and `/* */`
/// comments, which contribute nothing; `//!` lines, each contributing the
/// rest of its line; `/*! */` blocks, each contributing the text between its
/// delimiters; and `#![...]` annotations, of which the `doc = "..."` forms
/// contribute their string's value.  A shebang line at the very start is
/// skipped.  The first character that fits none of these — the start of an
/// item, or of documentation belonging to one, such as `///` or `/**` —
/// ends the region, and nothing after it is read.
pub open spec fn scan(text: Seq<char>, i: int) -> Result<Seq<Seq<char>>, ParseError>
    decreases text.len() - i,
{
    if !(0 <= i < text.len()) {
        Ok(Seq::empty())
    } else if is_source_ws(text[i]) {
        scan(text, i + 1)
    } else if at(text, i, '/') && at(text, i + 1, '/') && at(text, i + 2, '!') {
        let e = line_end(text, i + 3);
        proof {
            lemma_line_end(text, i + 3);
        }
        match scan(text, e) {
            Err(er) => Err(er),
            Ok(rest) => Ok(seq![text.subrange(i + 3, e)] + rest),
        }
    } else if at(text, i, '/') && at(text, i + 1, '/') && at(text, i + 2, '/') && !at(
        text,
        i + 3,
        '/',
    ) {
        Ok(Seq::empty())
    } else if at(text, i, '/') && at(text, i + 1, '/') {
        proof {
            lemma_line_end(text, i + 2);
        }
        scan(text, line_end(text, i + 2))
    } else if at(text, i, '/') && at(text, i + 1, '*') && at(text, i + 2, '!') {
        match block_end(text, i + 3, 1) {
            None => Err(ParseError::UnclosedBlockComment),
            Some(e) => {
                proof {
                    lemma_block_end(text, i + 3, 1);
                }
                match scan(text, e) {
                    Err(er) => Err(er),
                    Ok(rest) => Ok(seq![text.subrange(i + 3, e - 2)] + rest),
                }
            },
        }
    } else if at(text, i, '/') && at(text, i + 1, '*') && at(text, i + 2, '*') && !at(
        text,
        i + 3,
        '*',
    ) && !at(text, i + 3, '/') && i + 3 < text.len() {
        Ok(Seq::empty())
    } else if at(text, i, '/') && at(text, i + 1, '*') {
        match block_end(text, i + 2, 1) {
            None => Err(ParseError::UnclosedBlockComment),
            Some(e) => {
                proof {
                    lemma_block_end(text, i + 2, 1);
                }
                scan(text, e)
            },
        }
    } else if at(text, i, '#') && at(text, trivia_end(text, i + 1), '!') && at(
        text,
        trivia_end(text, trivia_end(text, i + 1) + 1),
        '[',
    ) {
        // `#`, `!` and `[` may be parted by whitespace and comments; a `#!`
        // followed by `[` is an annotation, never a shebang.
        let a = trivia_end(text, trivia_end(text, i + 1) + 1) + 1;
        match attr_step(text, a) {
            Err(er) => Err(er),
            Ok((f, e)) => {
                proof {
                    lemma_trivia_end(text, i + 1);
                    lemma_trivia_end(text, trivia_end(text, i + 1) + 1);
                    lemma_attr_step(text, a);
                }
                match scan(text, e) {
                    Err(er) => Err(er),
                    Ok(rest) => match f {
                        None => Ok(rest),
                        Some(v) => Ok(seq![v] + rest),
                    },
                }
            },
        }
    } else if i == 0 && at(text, 0, '#') && at(text, 1, '!') {
        proof {
            lemma_line_end(text, 2);
        }
        scan(text, line_end(text, 2))
    } else {
        Ok(Seq::empty())
    }
}

/// Fragments joined by single line feeds.
pub open spec fn join_frags(frags: Seq<Seq<char>>) -> Seq<char>
    decreases frags.len(),
{
    if frags.len() == 0 {
        Seq::empty()
    } else if frags.len() == 1 {
        frags[0]
    } else {
        join_frags(frags.drop_last()) + seq!['\n'] + frags.last()
    }
}

/// The text's inner documentation: the fragments of its inner-annotation
/// region, joined by line feeds — or the reason the region could not be
/// read to its end.
pub open spec fn spec_extract(text: Seq<char>) -> Result<Seq<char>, ParseError> {
    match scan(preprocess(text), 0) {
        Err(e) => Err(e),
        Ok(frags) => Ok(join_frags(frags)),
    }
}

} // verus!
