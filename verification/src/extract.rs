//! The executable documentation scanner.
//!
//! Each function here computes one of the model's functions exactly, and
//! says so in its contract.  The one trusted step is the well-formedness
//! check of the whole text, which defers to the reference parser.

use vstd::prelude::*;
use vstd::string::StrSliceExecFns;

use crate::model;
use crate::model::ParseError;

verus! {

impl ParseError {
    /// A fixed human-readable description of the failure.
    pub fn message(&self) -> (m: &'static str)
        ensures
            m@ == self.spec_message(),
    {
        match self {
            ParseError::UnclosedBlockComment => "unterminated block comment",
            ParseError::UnclosedAttribute => "unterminated inner attribute",
            ParseError::UnclosedString => "unterminated string in doc attribute",
            ParseError::BadEscape => "unsupported escape in doc attribute",
        }
    }

    /// The description `message` returns.
    pub open spec fn spec_message(&self) -> Seq<char> {
        match self {
            ParseError::UnclosedBlockComment => "unterminated block comment"@,
            ParseError::UnclosedAttribute => "unterminated inner attribute"@,
            ParseError::UnclosedString => "unterminated string in doc attribute"@,
            ParseError::BadEscape => "unsupported escape in doc attribute"@,
        }
    }
}

/// The text's characters, in order, as a vector.
fn to_char_vec(s: &str) -> (v: Vec<char>)
    ensures
        v@ == s@,
{
    let n: usize = s.unicode_len();
    let mut v: Vec<char> = Vec::new();
    let mut i: usize = 0;
    while i < n
        invariant
            n == s@.len(),
            0 <= i <= n,
            v@ == s@.subrange(0, i as int),
        decreases n - i,
    {
        v.push(s.get_char(i));
        i = i + 1;
        assert(v@ =~= s@.subrange(0, i as int));
    }
    assert(v@ =~= s@);
    v
}

/// Whether `c` is lexical whitespace, as the model defines it.
fn is_ws_char(c: char) -> (r: bool)
    ensures
        r == model::is_source_ws(c),
{
    c == ' ' || c == '\t' || c == '\n' || c == '\r' || c == '\u{000B}' || c == '\u{000C}' || c
        == '\u{0085}' || c == '\u{200E}' || c == '\u{200F}' || c == '\u{2028}' || c == '\u{2029}'
}

/// The scanner's working copy of the text: byte-order mark dropped, line
/// breaks normalized.
fn preprocess_chars(v: &Vec<char>) -> (w: Vec<char>)
    ensures
        w@ == model::preprocess(v@),
{
    let start: usize = if v.len() > 0 && v[0] == '\u{FEFF}' {
        1
    } else {
        0
    };
    let ghost s = model::strip_bom(v@);
    assert(s =~= v@.subrange(start as int, v@.len() as int));
    let mut w: Vec<char> = Vec::new();
    assert(model::normalize(s) =~= w@ + model::normalize(s));
    let mut i: usize = start;
    while i < v.len()
        invariant
            start <= i <= v@.len(),
            s == v@.subrange(start as int, v@.len() as int),
            model::normalize(s) == w@ + model::normalize(
                v@.subrange(i as int, v@.len() as int),
            ),
        decreases v@.len() - i,
    {
        let ghost rest = v@.subrange(i as int, v@.len() as int);
        let ghost rest1 = v@.subrange(i + 1, v@.len() as int);
        assert(rest.drop_first() =~= rest1);
        if v[i] == '\r' && i + 1 < v.len() && v[i + 1] == '\n' {
            assert(model::normalize(rest) == model::normalize(rest1));
        } else {
            let ghost w0 = w@;
            w.push(v[i]);
            assert(model::normalize(rest) == seq![rest[0]] + model::normalize(rest1));
            assert(w@ + model::normalize(rest1) =~= w0 + model::normalize(rest));
        }
        i = i + 1;
    }
    assert(v@.subrange(v@.len() as int, v@.len() as int) =~= Seq::<char>::empty());
    assert(model::normalize(Seq::<char>::empty()) == Seq::<char>::empty());
    assert(w@ =~= model::normalize(s));
    w
}

/// The position of the next line feed at or after `i`, or the text's end.
fn find_line_end(w: &Vec<char>, i: usize) -> (e: usize)
    requires
        i <= w@.len(),
    ensures
        e == model::line_end(w@, i as int),
        i <= e <= w@.len(),
{
    let mut e: usize = i;
    while e < w.len() && w[e] != '\n'
        invariant
            i <= e <= w@.len(),
            model::line_end(w@, i as int) == model::line_end(w@, e as int),
        decreases w@.len() - e,
    {
        assert(model::line_end(w@, e as int) == model::line_end(w@, e + 1));
        e = e + 1;
    }
    e
}

/// The position of the first character at or after `i` that a string's
/// line continuation does not swallow, or the text's end.
fn find_cont_ws_end(w: &Vec<char>, i: usize) -> (e: usize)
    requires
        i <= w@.len(),
    ensures
        e == model::cont_ws_end(w@, i as int),
        i <= e <= w@.len(),
{
    let mut e: usize = i;
    while e < w.len() && (w[e] == ' ' || w[e] == '\t' || w[e] == '\n' || w[e] == '\r')
        invariant
            i <= e <= w@.len(),
            model::cont_ws_end(w@, i as int) == model::cont_ws_end(w@, e as int),
        decreases w@.len() - e,
    {
        assert(model::cont_ws_end(w@, e as int) == model::cont_ws_end(w@, e + 1));
        e = e + 1;
    }
    e
}

/// Whether `c` is a hexadecimal digit.
fn is_hex_char(c: char) -> (r: bool)
    ensures
        r == model::is_hex_digit(c),
{
    ('0' <= c && c <= '9') || ('a' <= c && c <= 'f') || ('A' <= c && c <= 'F')
}

/// The end of a `\u{...}` escape's body at or after `i`: the first
/// character that is neither a hexadecimal digit nor an underscore.
fn find_u_body_end(w: &Vec<char>, i: usize) -> (e: usize)
    requires
        i <= w@.len(),
    ensures
        e == model::u_body_end(w@, i as int),
        i <= e <= w@.len(),
{
    let mut e: usize = i;
    while e < w.len() && (is_hex_char(w[e]) || w[e] == '_')
        invariant
            i <= e <= w@.len(),
            model::u_body_end(w@, i as int) == model::u_body_end(w@, e as int),
        decreases w@.len() - e,
    {
        assert(model::u_body_end(w@, e as int) == model::u_body_end(w@, e + 1));
        e = e + 1;
    }
    e
}

/// The position just after the `*/` that closes `depth` open block
/// comments, or `None` when the text ends first.
fn find_block_end(w: &Vec<char>, i: usize, depth_in: usize) -> (r: Option<usize>)
    requires
        i <= w@.len(),
        depth_in >= 1,
        2 * (depth_in - 1) <= i,
    ensures
        match r {
            Some(e) => model::block_end(w@, i as int, depth_in as nat) == Some(e as int) && i <= e
                <= w@.len(),
            None => model::block_end(w@, i as int, depth_in as nat) is None,
        },
{
    let mut e: usize = i;
    let mut depth: usize = depth_in;
    loop
        invariant
            i <= e <= w@.len(),
            depth >= 1,
            2 * (depth - 1) <= e,
            model::block_end(w@, i as int, depth_in as nat) == model::block_end(
                w@,
                e as int,
                depth as nat,
            ),
        decreases w@.len() - e,
    {
        if e >= w.len() {
            return None;
        }
        if e + 1 < w.len() && w[e] == '*' && w[e + 1] == '/' {
            if depth == 1 {
                assert(model::block_end(w@, e as int, depth as nat) == model::block_end(
                    w@,
                    e + 2,
                    0nat,
                ));
                return Some(e + 2);
            }
            depth = depth - 1;
            e = e + 2;
        } else if e + 1 < w.len() && w[e] == '/' && w[e + 1] == '*' {
            assert(2 * ((depth + 1) - 1) <= e + 2);
            depth = depth + 1;
            e = e + 2;
        } else {
            assert(model::block_end(w@, e as int, depth as nat) == model::block_end(
                w@,
                e + 1,
                depth as nat,
            ));
            e = e + 1;
        }
    }
}

/// Relies on char::from_u32: it returns the character with scalar value
/// `v`, and `None` exactly when `v` is a surrogate or above the scalar
/// range.
#[verifier::external_body]
fn char_from_u32(v: u32) -> (r: Option<char>)
    ensures
        r is Some <==> model::is_scalar_value(v as int),
        r matches Some(c) ==> c as u32 == v,
{
    char::from_u32(v)
}

/// Relies on String::from_iter over characters: the string holds exactly
/// the characters handed to it, in order.
#[verifier::external_body]
fn chars_to_string(v: &Vec<char>) -> (r: String)
    ensures
        r@ == v@,
{
    v.iter().collect()
}

/// Appends `w[a..b]` to `out`.
fn push_range(out: &mut Vec<char>, w: &Vec<char>, a: usize, b: usize)
    requires
        a <= b <= w@.len(),
    ensures
        final(out)@ == old(out)@ + w@.subrange(a as int, b as int),
{
    let mut k: usize = a;
    while k < b
        invariant
            a <= k <= b <= w@.len(),
            out@ == old(out)@ + w@.subrange(a as int, k as int),
        decreases b - k,
    {
        let ghost o0 = out@;
        out.push(w[k]);
        k = k + 1;
        assert(out@ =~= old(out)@ + w@.subrange(a as int, k as int));
    }
    assert(out@ =~= old(out)@ + w@.subrange(a as int, b as int));
}

/// Appends all of `f` to `out`.
fn push_all(out: &mut Vec<char>, f: &Vec<char>)
    ensures
        final(out)@ == old(out)@ + f@,
{
    push_range(out, f, 0, f.len());
    assert(f@.subrange(0, f@.len() as int) =~= f@);
}

/// What one escape contributes: nothing (a line continuation) or one
/// character.
pub open spec fn opt_char_seq(oc: Option<char>) -> Seq<char> {
    match oc {
        None => Seq::empty(),
        Some(c) => seq![c],
    }
}

/// The numeric value of a hexadecimal digit.
fn hex_val_char(c: char) -> (d: u8)
    requires
        model::is_hex_digit(c),
    ensures
        d as int == model::hex_digit_val(c),
        d < 16,
{
    let u: u32 = c as u32;
    if '0' <= c && c <= '9' {
        (u - 48) as u8
    } else if 'a' <= c && c <= 'f' {
        (10 + u - 97) as u8
    } else {
        (10 + u - 65) as u8
    }
}

/// Sixteen to the power `n`.
pub open spec fn sixteen_pow(n: nat) -> int
    decreases n,
{
    if n == 0 {
        1
    } else {
        16 * sixteen_pow((n - 1) as nat)
    }
}

proof fn lemma_u_digit_count(text: Seq<char>, i: int, k: int, end: int)
    requires
        i <= k <= end,
    ensures
        0 <= model::u_digit_count(text, i, k) <= model::u_digit_count(text, i, end),
    decreases end - k,
{
    lemma_u_count_nonneg(text, i, k);
    if k < end {
        lemma_u_digit_count(text, i, k + 1, end);
    }
}

proof fn lemma_u_count_nonneg(text: Seq<char>, i: int, end: int)
    ensures
        model::u_digit_count(text, i, end) >= 0,
    decreases end - i,
{
    if end > i {
        lemma_u_count_nonneg(text, i, end - 1);
    }
}

proof fn lemma_u_value_bound(text: Seq<char>, i: int, end: int)
    ensures
        model::u_digit_count(text, i, end) >= 0,
        0 <= model::u_value(text, i, end) < sixteen_pow(
            model::u_digit_count(text, i, end) as nat,
        ),
    decreases end - i,
{
    if end > i {
        lemma_u_value_bound(text, i, end - 1);
        if model::is_hex_digit(text[end - 1]) {
            assert(0 <= model::hex_digit_val(text[end - 1]) < 16);
        }
    }
}

/// The value of the `\u{...}` body `w[a..b]`: its hexadecimal digits read
/// most significant first, underscores passed over.
fn u_body_value(w: &Vec<char>, a: usize, b: usize) -> (v: u32)
    requires
        a <= b <= w@.len(),
        model::u_digit_count(w@, a as int, b as int) <= 6,
    ensures
        v as int == model::u_value(w@, a as int, b as int),
{
    let mut v: u32 = 0;
    let mut k: usize = a;
    while k < b
        invariant
            a <= k <= b <= w@.len(),
            model::u_digit_count(w@, a as int, b as int) <= 6,
            v as int == model::u_value(w@, a as int, k as int),
        decreases b - k,
    {
        let c = w[k];
        if is_hex_char(c) {
            proof {
                lemma_u_value_bound(w@, a as int, k as int);
                lemma_u_digit_count(w@, a as int, k + 1, b as int);
                assert(model::u_digit_count(w@, a as int, k + 1) == model::u_digit_count(
                    w@,
                    a as int,
                    k as int,
                ) + 1);
                lemma_sixteen_pow_mono(model::u_digit_count(w@, a as int, k as int) as nat, 5);
                assert(sixteen_pow(5) == 0x100000) by {
                    reveal_with_fuel(sixteen_pow, 6);
                }
            }
            let d = hex_val_char(c);
            v = v * 16 + (d as u32);
        }
        k = k + 1;
    }
    v
}

/// The number of hexadecimal digits in `w[a..b]`.
fn count_u_digits(w: &Vec<char>, a: usize, b: usize) -> (n: usize)
    requires
        a <= b <= w@.len(),
    ensures
        n as int == model::u_digit_count(w@, a as int, b as int),
{
    let mut n: usize = 0;
    let mut k: usize = a;
    while k < b
        invariant
            a <= k <= b <= w@.len(),
            n <= k - a,
            n as int == model::u_digit_count(w@, a as int, k as int),
        decreases b - k,
    {
        if is_hex_char(w[k]) {
            n = n + 1;
        }
        k = k + 1;
    }
    n
}

proof fn lemma_sixteen_pow_pos(n: nat)
    ensures
        sixteen_pow(n) >= 1,
    decreases n,
{
    if n > 0 {
        lemma_sixteen_pow_pos((n - 1) as nat);
    }
}

proof fn lemma_sixteen_pow_mono(a: nat, b: nat)
    requires
        a <= b,
    ensures
        sixteen_pow(a) <= sixteen_pow(b),
    decreases b,
{
    if a < b {
        lemma_sixteen_pow_mono(a, (b - 1) as nat);
        lemma_sixteen_pow_pos((b - 1) as nat);
    }
}

/// One escape of a `"`-delimited string, whose first character stands at
/// `i` (just after the backslash): what it contributes and where it ends.
fn read_escape(w: &Vec<char>, i: usize) -> (r: Result<(Option<char>, usize), ParseError>)
    requires
        i <= w@.len(),
    ensures
        match r {
            Ok((oc, j)) => model::esc_step(w@, i as int) == Ok::<(Seq<char>, int), ParseError>(
                (opt_char_seq(oc), j as int),
            ) && i < j <= w@.len(),
            Err(e) => model::esc_step(w@, i as int) == Err::<(Seq<char>, int), ParseError>(e),
        },
{
    if i >= w.len() {
        return Err(ParseError::UnclosedString);
    }
    let c = w[i];
    if c == 'n' {
        Ok((Some('\n'), i + 1))
    } else if c == 'r' {
        Ok((Some('\r'), i + 1))
    } else if c == 't' {
        Ok((Some('\t'), i + 1))
    } else if c == '\\' {
        Ok((Some('\\'), i + 1))
    } else if c == '"' {
        Ok((Some('"'), i + 1))
    } else if c == '\'' {
        Ok((Some('\''), i + 1))
    } else if c == '0' {
        Ok((Some('\0'), i + 1))
    } else if c == '\n' || c == '\r' {
        let j = find_cont_ws_end(w, i + 1);
        Ok((None, j))
    } else if c == 'x' {
        if w.len() - i > 2 && is_hex_char(w[i + 1]) && is_hex_char(w[i + 2]) {
            let h = hex_val_char(w[i + 1]);
            let l = hex_val_char(w[i + 2]);
            let v: u8 = h * 16 + l;
            if v <= 0x7F {
                let ghost sv = model::hex_digit_val(w@[i + 1]) * 16 + model::hex_digit_val(
                    w@[i + 2],
                );
                assert(v as int == sv);
                assert((v as char) as u32 == v as u32);
                proof {
                    vstd::utf8::char_u32_cast(v as char, v as u32);
                }
                Ok((Some(v as char), i + 3))
            } else {
                Err(ParseError::BadEscape)
            }
        } else {
            Err(ParseError::BadEscape)
        }
    } else if c == 'u' {
        if i + 1 < w.len() && w[i + 1] == '{' {
            let body_end = find_u_body_end(w, i + 2);
            let n = count_u_digits(w, i + 2, body_end);
            if 1 <= n && n <= 6 && i + 2 < body_end && is_hex_char(w[i + 2]) && body_end < w.len()
                && w[body_end] == '}' {
                let v = u_body_value(w, i + 2, body_end);
                match char_from_u32(v) {
                    Some(c2) => {
                        proof {
                            vstd::utf8::char_u32_cast(c2, v);
                        }
                        Ok((Some(c2), body_end + 1))
                    },
                    None => Err(ParseError::BadEscape),
                }
            } else {
                Err(ParseError::BadEscape)
            }
        } else {
            Err(ParseError::BadEscape)
        }
    } else {
        Err(ParseError::BadEscape)
    }
}

/// The value of a `"`-delimited string whose content starts at `i`,
/// together with the position after its closing quote.
fn parse_str_value(w: &Vec<char>, i: usize) -> (r: Result<(Vec<char>, usize), ParseError>)
    requires
        i <= w@.len(),
    ensures
        match r {
            Ok((val, k)) => model::str_value(w@, i as int) == Ok::<(Seq<char>, int), ParseError>(
                ((val@, k as int)),
            ) && i < k <= w@.len(),
            Err(e) => model::str_value(w@, i as int) == Err::<(Seq<char>, int), ParseError>(e),
        },
{
    let mut val: Vec<char> = Vec::new();
    let mut pos: usize = i;
    loop
        invariant
            i <= pos <= w@.len(),
            (match model::str_value(w@, pos as int) {
                Ok((rest, k)) => model::str_value(w@, i as int) == Ok::<
                    (Seq<char>, int),
                    ParseError,
                >(((val@ + rest, k))),
                Err(e) => model::str_value(w@, i as int) == Err::<(Seq<char>, int), ParseError>(e),
            }),
        decreases w@.len() - pos,
    {
        if pos >= w.len() {
            return Err(ParseError::UnclosedString);
        }
        let c = w[pos];
        if c == '"' {
            proof {
                model::lemma_str_value(w@, i as int);
                assert(val@ + Seq::<char>::empty() =~= val@);
            }
            return Ok((val, pos + 1));
        } else if c == '\\' {
            let ghost val0 = val@;
            match read_escape(w, pos + 1) {
                Err(e) => {
                    return Err(e);
                },
                Ok((oc, j)) => {
                    match oc {
                        Some(ch) => val.push(ch),
                        None => (),
                    }
                    proof {
                        let cs = opt_char_seq(oc);
                        assert(val@ =~= val0 + cs);
                        match model::str_value(w@, j as int) {
                            Ok((rest, k)) => {
                                assert(val0 + (cs + rest) =~= (val0 + cs) + rest);
                            },
                            Err(e) => {},
                        }
                    }
                    pos = j;
                },
            }
        } else {
            let ghost pos0 = pos as int;
            let ghost val0 = val@;
            val.push(c);
            proof {
                match model::str_value(w@, pos0 + 1) {
                    Ok((rest, k)) => {
                        assert(val0 + (seq![w@[pos0]] + rest) =~= (val0 + seq![w@[pos0]]) + rest);
                        assert(val@ =~= val0 + seq![w@[pos0]]);
                    },
                    Err(e) => {},
                }
            }
            pos = pos + 1;
        }
    }
}

/// The length of the run of `#` characters starting at `i`.
fn find_hash_run(w: &Vec<char>, i: usize) -> (n: usize)
    requires
        i <= w@.len(),
    ensures
        n as int == model::hash_run(w@, i as int),
        i + n <= w@.len(),
{
    let mut e: usize = i;
    while e < w.len() && w[e] == '#'
        invariant
            i <= e <= w@.len(),
            model::hash_run(w@, i as int) == e - i + model::hash_run(w@, e as int),
        decreases w@.len() - e,
    {
        assert(model::hash_run(w@, e as int) == 1 + model::hash_run(w@, e + 1));
        e = e + 1;
    }
    assert(model::hash_run(w@, e as int) == 0);
    e - i
}

/// Whether `n` `#` characters stand at `i`.
fn has_hashes(w: &Vec<char>, i: usize, n: usize) -> (b: bool)
    requires
        i <= w@.len(),
    ensures
        b == model::hashes_at(w@, i as int, n as nat),
{
    let mut k: usize = 0;
    while k < n
        invariant
            0 <= k <= n,
            i <= w@.len(),
            i + k <= usize::MAX,
            model::hashes_at(w@, i as int, n as nat) == model::hashes_at(
                w@,
                i + k,
                (n - k) as nat,
            ),
        decreases n - k,
    {
        if w.len() - i <= k {
            assert(!model::hashes_at(w@, i + k, (n - k) as nat));
            return false;
        }
        if w[i + k] != '#' {
            assert(!model::hashes_at(w@, i + k, (n - k) as nat));
            return false;
        }
        assert(model::hashes_at(w@, i + k, (n - k) as nat) == model::hashes_at(
            w@,
            i + k + 1,
            (n - k - 1) as nat,
        ));
        k = k + 1;
    }
    assert(model::hashes_at(w@, i + n, 0nat));
    true
}

/// The position of the `"` that ends a raw string guarded by `n` hashes,
/// or `None` when the text ends first.
fn find_raw_end(w: &Vec<char>, i: usize, n: usize) -> (r: Option<usize>)
    requires
        i <= w@.len(),
    ensures
        match r {
            Some(e) => model::raw_end(w@, i as int, n as nat) == Some(e as int) && i <= e
                < w@.len(),
            None => model::raw_end(w@, i as int, n as nat) is None,
        },
{
    let mut e: usize = i;
    loop
        invariant
            i <= e <= w@.len(),
            model::raw_end(w@, i as int, n as nat) == model::raw_end(w@, e as int, n as nat),
        decreases w@.len() - e,
    {
        if e >= w.len() {
            return None;
        }
        if w[e] == '"' && has_hashes(w, e + 1, n) {
            return Some(e);
        }
        assert(model::raw_end(w@, e as int, n as nat) == model::raw_end(w@, e + 1, n as nat));
        e = e + 1;
    }
}

/// The position just after the `]` that closes an inner annotation's body,
/// or `None` when the text ends first.
fn find_attr_end(w: &Vec<char>, i: usize) -> (r: Option<usize>)
    requires
        i <= w@.len(),
    ensures
        match r {
            Some(e) => model::attr_end(w@, i as int, 0, false) == Some(e as int) && i < e
                <= w@.len(),
            None => model::attr_end(w@, i as int, 0, false) is None,
        },
{
    let mut e: usize = i;
    let mut depth: usize = 0;
    let mut in_str: bool = false;
    loop
        invariant
            i <= e <= w@.len(),
            depth <= e,
            model::attr_end(w@, i as int, 0, false) == model::attr_end(
                w@,
                e as int,
                depth as nat,
                in_str,
            ),
        decreases w@.len() - e,
    {
        if e >= w.len() {
            return None;
        }
        let c = w[e];
        if in_str {
            if c == '\\' {
                if e + 1 < w.len() {
                    e = e + 2;
                } else {
                    return None;
                }
            } else {
                if c == '"' {
                    in_str = false;
                }
                e = e + 1;
            }
        } else if c == '\'' {
            if w.len() - e > 3 && w[e + 1] == '\\' && w[e + 3] == '\'' {
                e = e + 4;
            } else if w.len() - e > 2 && w[e + 1] != '\\' && w[e + 2] == '\'' {
                e = e + 3;
            } else {
                e = e + 1;
            }
        } else if c == '/' && e + 1 < w.len() && w[e + 1] == '/' {
            let le = find_line_end(w, e + 2);
            assert(model::attr_end(w@, e as int, depth as nat, false) == model::attr_end(
                w@,
                le as int,
                depth as nat,
                false,
            ));
            e = le;
        } else if c == '/' && e + 1 < w.len() && w[e + 1] == '*' {
            match find_block_end(w, e + 2, 1) {
                None => {
                    return None;
                },
                Some(be) => {
                    proof {
                        model::lemma_block_end(w@, e + 2, 1nat);
                    }
                    assert(model::attr_end(w@, e as int, depth as nat, false) == model::attr_end(
                        w@,
                        be as int,
                        depth as nat,
                        false,
                    ));
                    e = be;
                },
            }
        } else if c == 'r' {
            let nh = find_hash_run(w, e + 1);
            if e + 1 + nh < w.len() && w[e + 1 + nh] == '"' {
                assert(model::raw_quote_at(w@, e + 1));
                match find_raw_end(w, e + 2 + nh, nh) {
                    None => {
                        return None;
                    },
                    Some(re) => {
                        proof {
                            model::lemma_raw_end(w@, e + 2 + nh, nh as nat);
                            model::lemma_hashes_at(w@, re + 1, nh as nat);
                        }
                        assert(model::attr_end(w@, e as int, depth as nat, false)
                            == model::attr_end(w@, re + 1 + nh, depth as nat, false));
                        e = re + 1 + nh;
                    },
                }
            } else {
                assert(!model::raw_quote_at(w@, e + 1));
                e = e + 1;
            }
        } else if c == ']' {
            if depth == 0 {
                proof {
                    model::lemma_attr_end(w@, i as int, 0, false);
                }
                return Some(e + 1);
            }
            depth = depth - 1;
            e = e + 1;
        } else if c == '[' {
            depth = depth + 1;
            e = e + 1;
        } else {
            if c == '"' {
                in_str = true;
            }
            e = e + 1;
        }
    }
}

/// The position of the first character at or after `i` that is neither
/// whitespace nor part of a comment, or the text's end.
fn find_trivia_end(w: &Vec<char>, i: usize) -> (e: usize)
    requires
        i <= w@.len(),
    ensures
        e as int == model::trivia_end(w@, i as int),
        i <= e <= w@.len(),
{
    let n = w.len();
    let mut e: usize = i;
    loop
        invariant
            i <= e <= n,
            n == w@.len(),
            model::trivia_end(w@, i as int) == model::trivia_end(w@, e as int),
        decreases w@.len() - e,
    {
        if e >= n {
            return e;
        }
        let c = w[e];
        if is_ws_char(c) {
            assert(model::trivia_end(w@, e as int) == model::trivia_end(w@, e + 1));
            e = e + 1;
        } else if c == '/' && e + 1 < n && w[e + 1] == '/' {
            let le = find_line_end(w, e + 2);
            assert(model::trivia_end(w@, e as int) == model::trivia_end(w@, le as int));
            e = le;
        } else if c == '/' && e + 1 < n && w[e + 1] == '*' {
            match find_block_end(w, e + 2, 1) {
                None => {
                    assert(model::trivia_end(w@, e as int) == n as int);
                    return n;
                },
                Some(be) => {
                    proof {
                        model::lemma_block_end(w@, e + 2, 1nat);
                    }
                    assert(model::trivia_end(w@, e as int) == model::trivia_end(w@, be as int));
                    e = be;
                },
            }
        } else {
            return e;
        }
    }
}

/// The fragment an annotation contributes, seen abstractly.
pub open spec fn opt_vec_view(f: Option<Vec<char>>) -> Option<Seq<char>> {
    match f {
        None => None,
        Some(v) => Some(v@),
    }
}

/// One inner annotation, read from just after its `#![`: the documentation
/// fragment it contributes, if any, and the position after its closing
/// `]`.
fn read_attr(w: &Vec<char>, a: usize) -> (r: Result<(Option<Vec<char>>, usize), ParseError>)
    requires
        a <= w@.len(),
    ensures
        match r {
            Ok((f, e)) => model::attr_step(w@, a as int) == Ok::<
                (Option<Seq<char>>, int),
                ParseError,
            >(((opt_vec_view(f), e as int))) && a < e <= w@.len(),
            Err(er) => model::attr_step(w@, a as int) == Err::<
                (Option<Seq<char>>, int),
                ParseError,
            >(er),
        },
{
    proof {
        model::lemma_attr_step(w@, a as int);
    }
    let j = find_trivia_end(w, a);
    let is_doc: bool = w.len() - j >= 3 && w[j] == 'd' && w[j + 1] == 'o' && w[j + 2] == 'c' && (j
        + 3 == w.len() || !is_ident_continue(w[j + 3]));
    assert(is_doc == model::doc_word_at(w@, j as int));
    if is_doc {
        let k = find_trivia_end(w, j + 3);
        if k < w.len() && w[k] == '=' {
            let m = find_trivia_end(w, k + 1);
            if m < w.len() && w[m] == '"' {
                match parse_str_value(w, m + 1) {
                    Err(e) => Err(e),
                    Ok((val, p)) => {
                        let q = find_trivia_end(w, p);
                        if q < w.len() && w[q] == ']' {
                            Ok((Some(val), q + 1))
                        } else {
                            skip_attr(w, m)
                        }
                    },
                }
            } else if m < w.len() && w[m] == 'r' {
                let nh = find_hash_run(w, m + 1);
                if m + 1 + nh < w.len() && w[m + 1 + nh] == '"' {
                    assert(model::raw_quote_at(w@, m + 1));
                    match find_raw_end(w, m + 2 + nh, nh) {
                        None => Err(ParseError::UnclosedString),
                        Some(e) => {
                            proof {
                                model::lemma_raw_end(w@, m + 2 + nh, nh as nat);
                                model::lemma_hashes_at(w@, e + 1, nh as nat);
                            }
                            let q = find_trivia_end(w, e + 1 + nh);
                            if q < w.len() && w[q] == ']' {
                                let mut val: Vec<char> = Vec::new();
                                push_range(&mut val, w, m + 2 + nh, e);
                                assert(val@ =~= w@.subrange(m + 2 + nh, e as int));
                                Ok((Some(val), q + 1))
                            } else {
                                skip_attr(w, m)
                            }
                        },
                    }
                } else {
                    assert(!model::raw_quote_at(w@, m + 1));
                    skip_attr(w, m)
                }
            } else {
                skip_attr(w, m)
            }
        } else {
            skip_attr(w, j + 3)
        }
    } else {
        skip_attr(w, a)
    }
}

/// The rest of an annotation that contributes no fragment: everything to
/// its closing `]`.
fn skip_attr(w: &Vec<char>, i: usize) -> (r: Result<(Option<Vec<char>>, usize), ParseError>)
    requires
        i <= w@.len(),
    ensures
        match r {
            Ok((f, e)) => model::attr_skip(w@, i as int) == Ok::<
                (Option<Seq<char>>, int),
                ParseError,
            >(((opt_vec_view(f), e as int))) && f is None && i < e <= w@.len(),
            Err(er) => model::attr_skip(w@, i as int) == Err::<
                (Option<Seq<char>>, int),
                ParseError,
            >(er),
        },
{
    match find_attr_end(w, i) {
        None => Err(ParseError::UnclosedAttribute),
        Some(e) => Ok((None, e)),
    }
}

/// Whether `c` may continue an identifier.
fn is_ident_continue(c: char) -> (r: bool)
    ensures
        r == model::is_ident_char(c),
{
    ('a' <= c && c <= 'z') || ('A' <= c && c <= 'Z') || ('0' <= c && c <= '9') || c == '_'
}

/// Fragments already collected, in front of whatever a scan from the
/// current position still finds.
pub open spec fn scan_with(frags: Seq<Seq<char>>, r: Result<Seq<Seq<char>>, ParseError>) -> Result<
    Seq<Seq<char>>,
    ParseError,
> {
    match r {
        Ok(rest) => Ok(frags + rest),
        Err(e) => Err(e),
    }
}

proof fn lemma_scan_with_push(
    frags: Seq<Seq<char>>,
    f: Seq<char>,
    r: Result<Seq<Seq<char>>, ParseError>,
)
    ensures
        scan_with(
            frags,
            match r {
                Ok(rest) => Ok(seq![f] + rest),
                Err(e) => Err(e),
            },
        ) == scan_with(frags.push(f), r),
{
    match r {
        Ok(rest) => {
            assert(frags + (seq![f] + rest) =~= frags.push(f) + rest);
        },
        Err(_) => {},
    }
}

proof fn lemma_join_push(frags: Seq<Seq<char>>, f: Seq<char>)
    ensures
        model::join_frags(frags.push(f)) == if frags.len() == 0 {
            f
        } else {
            model::join_frags(frags) + seq!['\n'] + f
        },
{
    let p = frags.push(f);
    assert(p.drop_last() =~= frags);
    assert(p.last() == f);
    if frags.len() == 0 {
        assert(model::join_frags(p) == p[0]);
        assert(p[0] == f);
    }
}

/// The reference parser's verdict on the text: `None` when it is a
/// well-formed source file, otherwise the diagnostic explaining why not.
/// Named here and decided by `check_source_syntax`.
pub uninterp spec fn parse_verdict(text: Seq<char>) -> Option<Seq<char>>;

/// Whether the reference parser accepts the text as a well-formed source
/// file.
pub open spec fn parses_as_source(text: Seq<char>) -> bool {
    parse_verdict(text) is None
}

/// Relies on syn::parse_file, the reference parser for the source grammar:
/// it accepts a text or reports a diagnostic, depending on the text alone.
/// The parser resolves its lexer per process — the compiler's own inside a
/// macro expansion, its independent twin elsewhere — so the named verdict
/// is that of the lexer in use, taken as one fixed grammar.
#[verifier::external_body]
fn check_source_syntax(text: &str) -> (r: Result<(), String>)
    ensures
        r is Ok <==> parses_as_source(text@),
        r matches Err(m) ==> parse_verdict(text@) matches Some(d) && m@ == d,
{
    match syn::parse_file(text) {
        Ok(_) => Ok(()),
        Err(e) => Err(e.to_string()),
    }
}

/// Why a text's inner documentation could not be extracted.
#[derive(Clone, PartialEq, Eq, Debug)]
pub enum ExtractError {
    /// The text is not a well-formed source file; the message is the
    /// parser's diagnostic.
    Unparsable { message: String },
    /// The inner-annotation region itself is malformed, whether or not the
    /// rest of the text is.
    Region { error: ParseError },
}

impl ExtractError {
    /// A human-readable description of the failure.
    pub fn message(&self) -> (m: String)
        ensures
            m@ == self.spec_message(),
    {
        match self {
            ExtractError::Unparsable { message } => message.clone(),
            ExtractError::Region { error } => {
                let m: String = error.message().to_owned();
                m
            },
        }
    }

    /// The description `message` returns.
    pub open spec fn spec_message(&self) -> Seq<char> {
        match self {
            ExtractError::Unparsable { message } => message@,
            ExtractError::Region { error } => error.spec_message(),
        }
    }
}

/// The inner documentation of `text`: every fragment of its
/// inner-annotation region, in source order, joined by single line feeds.
///
/// A well-formed text without inner annotations yields the empty string;
/// annotations that document a declaration inside the text, rather than
/// the text itself, are never part of the result.  Extraction fails, and
/// never degrades to empty output, when the region is malformed or when
/// the text as a whole is not a well-formed source file.
pub fn extract_inner_docs(text: &str) -> (r: Result<String, ExtractError>)
    ensures
        match r {
            Ok(out) => parses_as_source(text@) && model::spec_extract(text@) == Ok::<
                Seq<char>,
                ParseError,
            >(out@),
            Err(e) => match e {
                ExtractError::Unparsable { message } => !parses_as_source(text@)
                    && model::spec_extract(text@) is Ok && parse_verdict(text@) == Some(message@),
                ExtractError::Region { error } => model::spec_extract(text@) == Err::<
                    Seq<char>,
                    ParseError,
                >(error),
            },
        },
{
    match extract_region(text) {
        Err(error) => Err(ExtractError::Region { error }),
        Ok(out) => match check_source_syntax(text) {
            Ok(()) => Ok(out),
            Err(message) => Err(ExtractError::Unparsable { message }),
        },
    }
}

/// The fragments of the text's inner-annotation region, joined by single
/// line feeds, read without regard to what follows the region.
#[verifier::rlimit(100)]
fn extract_region(text: &str) -> (r: Result<String, ParseError>)
    ensures
        match r {
            Ok(out) => model::spec_extract(text@) == Ok::<Seq<char>, ParseError>(out@),
            Err(e) => model::spec_extract(text@) == Err::<Seq<char>, ParseError>(e),
        },
{
    let v = to_char_vec(text);
    let w = preprocess_chars(&v);
    let ghost t = w@;
    let mut out: Vec<char> = Vec::new();
    let ghost mut frags: Seq<Seq<char>> = Seq::empty();
    let mut first: bool = true;
    let mut i: usize = 0;
    proof {
        assert(frags + Seq::<Seq<char>>::empty() =~= frags);
    }
    loop
        invariant
            i <= w@.len(),
            w@ == t,
            t == model::preprocess(text@),
            first <==> frags.len() == 0,
            out@ == model::join_frags(frags),
            model::scan(t, 0) == scan_with(frags, model::scan(t, i as int)),
        decreases w@.len() - i,
    {
        if i >= w.len() {
            assert(model::scan(t, i as int) == Ok::<Seq<Seq<char>>, ParseError>(Seq::empty()));
            assert(frags + Seq::<Seq<char>>::empty() =~= frags);
            return Ok(chars_to_string(&out));
        }
        let c = w[i];
        let ghost i0 = i as int;
        if is_ws_char(c) {
            assert(model::scan(t, i0) == model::scan(t, i0 + 1));
            i = i + 1;
        } else if c == '/' && i + 1 < w.len() && w[i + 1] == '/' && i + 2 < w.len() && w[i + 2]
            == '!' {
            // A `//!` line: the rest of the line is one fragment.
            let e = find_line_end(&w, i + 3);
            let ghost f = t.subrange(i0 + 3, e as int);
            proof {
                lemma_scan_with_push(frags, f, model::scan(t, e as int));
            }
            append_fragment(&mut out, &mut first, &w, i + 3, e);
            proof {
                lemma_join_push(frags, f);
                frags = frags.push(f);
            }
            i = e;
        } else if c == '/' && i + 1 < w.len() && w[i + 1] == '/' && i + 2 < w.len() && w[i + 2]
            == '/' && !(i + 3 < w.len() && w[i + 3] == '/') {
            // A `///` line documents the next declaration: the region ends.
            assert(model::scan(t, i0) == Ok::<Seq<Seq<char>>, ParseError>(Seq::empty()));
            assert(frags + Seq::<Seq<char>>::empty() =~= frags);
            return Ok(chars_to_string(&out));
        } else if c == '/' && i + 1 < w.len() && w[i + 1] == '/' {
            // A plain `//` comment contributes nothing.
            let e = find_line_end(&w, i + 2);
            assert(model::scan(t, i0) == model::scan(t, e as int));
            i = e;
        } else if c == '/' && i + 1 < w.len() && w[i + 1] == '*' && i + 2 < w.len() && w[i + 2]
            == '!' {
            // A `/*! */` block: the text between the delimiters is one
            // fragment.
            match find_block_end(&w, i + 3, 1) {
                None => {
                    assert(model::scan(t, i0) == Err::<Seq<Seq<char>>, ParseError>(
                        ParseError::UnclosedBlockComment,
                    ));
                    return Err(ParseError::UnclosedBlockComment);
                },
                Some(e) => {
                    proof {
                        model::lemma_block_end(t, i0 + 3, 1nat);
                    }
                    let ghost f = t.subrange(i0 + 3, e - 2);
                    proof {
                        lemma_scan_with_push(frags, f, model::scan(t, e as int));
                    }
                    append_fragment(&mut out, &mut first, &w, i + 3, e - 2);
                    proof {
                        lemma_join_push(frags, f);
                        frags = frags.push(f);
                    }
                    i = e;
                },
            }
        } else if c == '/' && i + 1 < w.len() && w[i + 1] == '*' && i + 2 < w.len() && w[i + 2]
            == '*' && i + 3 < w.len() && w[i + 3] != '*' && w[i + 3] != '/' {
            // A `/** */` block documents the next declaration: the region
            // ends.
            assert(model::scan(t, i0) == Ok::<Seq<Seq<char>>, ParseError>(Seq::empty()));
            assert(frags + Seq::<Seq<char>>::empty() =~= frags);
            return Ok(chars_to_string(&out));
        } else if c == '/' && i + 1 < w.len() && w[i + 1] == '*' {
            // A plain `/* */` comment contributes nothing.
            match find_block_end(&w, i + 2, 1) {
                None => {
                    assert(model::scan(t, i0) == Err::<Seq<Seq<char>>, ParseError>(
                        ParseError::UnclosedBlockComment,
                    ));
                    return Err(ParseError::UnclosedBlockComment);
                },
                Some(e) => {
                    proof {
                        model::lemma_block_end(t, i0 + 2, 1nat);
                    }
                    assert(model::scan(t, i0) == model::scan(t, e as int));
                    i = e;
                },
            }
        } else {
            match attr_open_at(&w, i) {
                Some(a) => {
                    // An inner `#![...]` annotation; its `doc = ...` forms
                    // contribute their string's value.
                    match read_attr(&w, a) {
                        Err(er) => {
                            assert(model::scan(t, i0) == Err::<Seq<Seq<char>>, ParseError>(er));
                            return Err(er);
                        },
                        Ok((fr, e)) => {
                            match fr {
                                None => {
                                    assert(model::scan(t, i0) == model::scan(t, e as int));
                                },
                                Some(val) => {
                                    let ghost f = val@;
                                    proof {
                                        lemma_scan_with_push(frags, f, model::scan(t, e as int));
                                    }
                                    if first {
                                        push_all(&mut out, &val);
                                        first = false;
                                    } else {
                                        out.push('\n');
                                        push_all(&mut out, &val);
                                    }
                                    proof {
                                        lemma_join_push(frags, f);
                                        frags = frags.push(f);
                                    }
                                },
                            }
                            i = e;
                        },
                    }
                },
                None => {
                    if i == 0 && c == '#' && w.len() > 1 && w[1] == '!' {
                        // A shebang line at the very start is not an
                        // annotation.
                        let e = find_line_end(&w, 2);
                        assert(model::scan(t, i0) == model::scan(t, e as int));
                        i = e;
                    } else {
                        // The first character of an item: the region ends
                        // here.
                        assert(model::scan(t, i0) == Ok::<Seq<Seq<char>>, ParseError>(
                            Seq::empty(),
                        ));
                        assert(frags + Seq::<Seq<char>>::empty() =~= frags);
                        return Ok(chars_to_string(&out));
                    }
                },
            }
        }
    }
}

/// Where an inner annotation's body starts at `i` — just after `#`,
/// whitespace, `!`, whitespace, `[` — or `None` when no annotation opens
/// here.
fn attr_open_at(w: &Vec<char>, i: usize) -> (r: Option<usize>)
    requires
        i < w@.len(),
    ensures
        ({
            let opens = model::at(w@, i as int, '#') && model::at(
                w@,
                model::trivia_end(w@, i + 1),
                '!',
            ) && model::at(w@, model::trivia_end(w@, model::trivia_end(w@, i + 1) + 1), '[');
            match r {
                Some(a) => opens && a as int == model::trivia_end(
                    w@,
                    model::trivia_end(w@, i + 1) + 1,
                ) + 1 && i < a <= w@.len(),
                None => !opens,
            }
        }),
{
    let n = w.len();
    if w[i] != '#' {
        return None;
    }
    let j1 = find_trivia_end(w, i + 1);
    if !(j1 < n && w[j1] == '!') {
        return None;
    }
    let j2 = find_trivia_end(w, j1 + 1);
    if !(j2 < n && w[j2] == '[') {
        return None;
    }
    Some(j2 + 1)
}

/// Appends `w[a..b]` to `out` as one more fragment, behind a line feed
/// when a fragment is already there.
fn append_fragment(out: &mut Vec<char>, first: &mut bool, w: &Vec<char>, a: usize, b: usize)
    requires
        a <= b <= w@.len(),
    ensures
        final(out)@ == if *old(first) {
            old(out)@ + w@.subrange(a as int, b as int)
        } else {
            old(out)@ + seq!['\n'] + w@.subrange(a as int, b as int)
        },
        *final(first) == false,
{
    if *first {
        push_range(out, w, a, b);
        *first = false;
    } else {
        out.push('\n');
        push_range(out, w, a, b);
    }
}

} // verus!
