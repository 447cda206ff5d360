//! The tokenizer: consumes the reader's character sequence and classifies it
//! into a flat, eagerly produced sequence of lexical tokens.
//!
//! Dispatch on the next character, in priority order: whitespace is skipped;
//! `"` frames a string read verbatim (a backslash is an ordinary character);
//! `-` or a digit starts a number; `t`, `f`, `n` must spell `true`, `false`,
//! `null` exactly; the six structural characters map to their tokens; NUL is
//! the end-of-input sentinel; anything else is an error.
//!
//! Number lexing keeps a mantissa and an exponent accumulator. A `+` is
//! dropped, a `.` always joins the mantissa and forces floating point, an
//! exponent marker switches accumulation to the exponent (a second one is an
//! error), and `}` `,` `]` `:` or NUL end the number unconsumed. Whitespace
//! inside a number is skipped and does not end it, so two whitespace-separated
//! numbers lex as one numeric token; this quirk is part of the contract.
use crate::reader::read_stream;
use crate::reader::JsonReader;
use crate::value::Number;
use crate::value::NumberV;
use crate::JsonError;
use vstd::prelude::*;

verus! {

/// One lexical unit: a structural delimiter, a quote marker framing a string
/// literal, or a literal-bearing token.
#[derive(Debug, Clone, PartialEq)]
pub enum Token {
    CurlyOpen,
    CurlyClose,
    Quotes,
    Colon,
    String(String),
    Number(Number),
    ArrayOpen,
    ArrayClose,
    Comma,
    Boolean(bool),
    Null,
}

/// Spec-level token.
pub enum TokenV {
    CurlyOpen,
    CurlyClose,
    Quotes,
    Colon,
    String(Seq<char>),
    Number(NumberV),
    ArrayOpen,
    ArrayClose,
    Comma,
    Boolean(bool),
    Null,
}

impl View for Token {
    type V = TokenV;

    open spec fn view(&self) -> TokenV {
        match self {
            Token::CurlyOpen => TokenV::CurlyOpen,
            Token::CurlyClose => TokenV::CurlyClose,
            Token::Quotes => TokenV::Quotes,
            Token::Colon => TokenV::Colon,
            Token::String(s) => TokenV::String(s@),
            Token::Number(n) => TokenV::Number(n@),
            Token::ArrayOpen => TokenV::ArrayOpen,
            Token::ArrayClose => TokenV::ArrayClose,
            Token::Comma => TokenV::Comma,
            Token::Boolean(b) => TokenV::Boolean(*b),
            Token::Null => TokenV::Null,
        }
    }
}

/// The views of a run of tokens, in order.
pub open spec fn token_views(ts: Seq<Token>) -> Seq<TokenV> {
    Seq::new(ts.len(), |i: int| ts[i]@)
}

/// ASCII decimal digit.
pub open spec fn is_digit(c: char) -> bool {
    48 <= c as u32 <= 57
}

/// ASCII whitespace: space, tab, line feed, form feed, carriage return.
pub open spec fn is_ws(c: char) -> bool {
    c == ' ' || c == '\t' || c == '\n' || c == '\u{c}' || c == '\r'
}

/// String lexing from position `i` (just past the opening quote): characters
/// join the literal verbatim, a quote ends it consumed, and an exhausted
/// character sequence ends it too. Returns the literal and the position after
/// it.
pub open spec fn spec_lex_string(cs: Seq<char>, i: int, acc: Seq<char>) -> (Seq<char>, int)
    decreases cs.len() - i,
    when 0 <= i
{
    if i >= cs.len() {
        (acc, i)
    } else if cs[i] == '"' {
        (acc, i + 1)
    } else {
        spec_lex_string(cs, i + 1, acc.push(cs[i]))
    }
}

/// Numeric value of a run of digit characters, most significant first.
pub open spec fn digits_val(s: Seq<char>) -> int
    decreases s.len(),
{
    if s.len() == 0 {
        0
    } else {
        digits_val(s.drop_last()) * 10 + (s.last() as u32 - 48)
    }
}

/// Every character is an ASCII digit.
pub open spec fn all_digits(s: Seq<char>) -> bool {
    forall|k: int| 0 <= k < s.len() ==> is_digit(#[trigger] s[k])
}

/// The text parses as a decimal integer: an optional leading minus sign and
/// at least one digit, nothing else.
pub open spec fn valid_int_lit(s: Seq<char>) -> bool {
    if s.len() == 0 {
        false
    } else if s[0] == '-' {
        s.len() >= 2 && all_digits(s.skip(1))
    } else {
        all_digits(s)
    }
}

/// The signed value of a valid decimal integer text.
pub open spec fn int_lit_val(s: Seq<char>) -> int
    recommends
        valid_int_lit(s),
{
    if s[0] == '-' {
        -digits_val(s.skip(1))
    } else {
        digits_val(s)
    }
}

/// The text after an optional leading minus sign.
pub open spec fn float_body(s: Seq<char>) -> Seq<char> {
    if s.len() > 0 && s[0] == '-' {
        s.skip(1)
    } else {
        s
    }
}

/// Every character is an ASCII digit or a decimal point.
pub open spec fn digits_and_dots(b: Seq<char>) -> bool {
    forall|k: int| 0 <= k < b.len() ==> is_digit(#[trigger] b[k]) || b[k] == '.'
}

/// No two characters are decimal points.
pub open spec fn at_most_one_dot(b: Seq<char>) -> bool {
    forall|a: int, b2: int| 0 <= a < b2 < b.len() && b[a] == '.' ==> b[b2] != '.'
}

/// Some character is an ASCII digit.
pub open spec fn has_digit(b: Seq<char>) -> bool {
    exists|k: int| 0 <= k < b.len() && is_digit(#[trigger] b[k])
}

/// The text parses as a decimal floating-point literal: an optional leading
/// minus sign, then digits with at most one decimal point among them and at
/// least one digit.
pub open spec fn valid_float_lit(s: Seq<char>) -> bool {
    &&& float_body(s).len() >= 1
    &&& digits_and_dots(float_body(s))
    &&& at_most_one_dot(float_body(s))
    &&& has_digit(float_body(s))
}

/// The number a finished numeric token stands for, or the error when its text
/// does not parse. An exponent was seen: both parts must be floating-point
/// texts, and the value is `mantissa × 10^exponent`. A decimal point alone:
/// the mantissa must be a floating-point text. Otherwise the mantissa must be
/// a decimal integer within the signed 64-bit range.
pub open spec fn spec_number_value(
    mant: Seq<char>,
    expo: Seq<char>,
    is_dec: bool,
    is_eps: bool,
) -> Result<NumberV, JsonError> {
    if is_eps {
        if valid_float_lit(mant) && valid_int_lit(expo) {
            Ok(NumberV::Float { mantissa: mant, exponent: Some(expo) })
        } else {
            Err(JsonError::InvalidNumber)
        }
    } else if is_dec {
        if valid_float_lit(mant) {
            Ok(NumberV::Float { mantissa: mant, exponent: None })
        } else {
            Err(JsonError::InvalidNumber)
        }
    } else {
        if valid_int_lit(mant) && -0x8000_0000_0000_0000 <= int_lit_val(mant)
            <= 0x7fff_ffff_ffff_ffff {
            Ok(NumberV::Integer(int_lit_val(mant)))
        } else {
            Err(JsonError::InvalidNumber)
        }
    }
}

/// Number lexing from position `i` with the accumulators so far: `mant` and
/// `expo` are the mantissa and exponent texts, `is_dec` records a decimal
/// point, `is_eps` that accumulation switched to the exponent. Returns the
/// number and the position of the unconsumed terminator.
pub open spec fn spec_lex_number(
    cs: Seq<char>,
    i: int,
    mant: Seq<char>,
    expo: Seq<char>,
    is_dec: bool,
    is_eps: bool,
) -> Result<(NumberV, int), JsonError>
    decreases cs.len() - i,
    when 0 <= i
{
    if i >= cs.len() {
        match spec_number_value(mant, expo, is_dec, is_eps) {
            Ok(n) => Ok((n, i)),
            Err(e) => Err(e),
        }
    } else {
        let c = cs[i];
        if c == '-' {
            if is_eps {
                spec_lex_number(cs, i + 1, mant, expo.push('-'), is_dec, is_eps)
            } else {
                spec_lex_number(cs, i + 1, mant.push('-'), expo, is_dec, is_eps)
            }
        } else if c == '+' {
            spec_lex_number(cs, i + 1, mant, expo, is_dec, is_eps)
        } else if is_digit(c) {
            if is_eps {
                spec_lex_number(cs, i + 1, mant, expo.push(c), is_dec, is_eps)
            } else {
                spec_lex_number(cs, i + 1, mant.push(c), expo, is_dec, is_eps)
            }
        } else if c == '.' {
            spec_lex_number(cs, i + 1, mant.push('.'), expo, true, is_eps)
        } else if c == '}' || c == ',' || c == ']' || c == ':' || c == '\0' {
            match spec_number_value(mant, expo, is_dec, is_eps) {
                Ok(n) => Ok((n, i)),
                Err(e) => Err(e),
            }
        } else if c == 'e' || c == 'E' {
            if is_eps {
                Err(JsonError::DoubleExponent)
            } else {
                spec_lex_number(cs, i + 1, mant, expo, is_dec, true)
            }
        } else if is_ws(c) {
            spec_lex_number(cs, i + 1, mant, expo, is_dec, is_eps)
        } else {
            Err(JsonError::UnexpectedCharacter)
        }
    }
}

/// Tokenization from position `i` with the tokens lexed so far. `Ok` holds
/// the complete token sequence of the input up to its end or its first NUL
/// sentinel; `Err` tells which lexical rule failed.
pub open spec fn spec_tokenize(cs: Seq<char>, i: int, acc: Seq<TokenV>) -> Result<
    Seq<TokenV>,
    JsonError,
>
    decreases cs.len() - i,
    when 0 <= i
{
    if i >= cs.len() {
        Ok(acc)
    } else {
        let c = cs[i];
        if c == '"' {
            let sj = spec_lex_string(cs, i + 1, Seq::empty());
            let j = if i < sj.1 <= cs.len() {
                sj.1
            } else {
                i + 1
            };
            spec_tokenize(
                cs,
                j,
                acc + seq![TokenV::Quotes, TokenV::String(sj.0), TokenV::Quotes],
            )
        } else if c == '-' || is_digit(c) {
            match spec_lex_number(cs, i, Seq::empty(), Seq::empty(), false, false) {
                Ok((n, j0)) => {
                    let j = if i < j0 <= cs.len() {
                        j0
                    } else {
                        i + 1
                    };
                    spec_tokenize(cs, j, acc.push(TokenV::Number(n)))
                },
                Err(e) => Err(e),
            }
        } else if c == 't' {
            if i + 4 <= cs.len() && cs[i + 1] == 'r' && cs[i + 2] == 'u' && cs[i + 3] == 'e' {
                spec_tokenize(cs, i + 4, acc.push(TokenV::Boolean(true)))
            } else {
                Err(JsonError::MalformedLiteral)
            }
        } else if c == 'f' {
            if i + 5 <= cs.len() && cs[i + 1] == 'a' && cs[i + 2] == 'l' && cs[i + 3] == 's' && cs[i
                + 4] == 'e' {
                spec_tokenize(cs, i + 5, acc.push(TokenV::Boolean(false)))
            } else {
                Err(JsonError::MalformedLiteral)
            }
        } else if c == 'n' {
            if i + 4 <= cs.len() && cs[i + 1] == 'u' && cs[i + 2] == 'l' && cs[i + 3] == 'l' {
                spec_tokenize(cs, i + 4, acc.push(TokenV::Null))
            } else {
                Err(JsonError::MalformedLiteral)
            }
        } else if c == '{' {
            spec_tokenize(cs, i + 1, acc.push(TokenV::CurlyOpen))
        } else if c == '}' {
            spec_tokenize(cs, i + 1, acc.push(TokenV::CurlyClose))
        } else if c == '[' {
            spec_tokenize(cs, i + 1, acc.push(TokenV::ArrayOpen))
        } else if c == ']' {
            spec_tokenize(cs, i + 1, acc.push(TokenV::ArrayClose))
        } else if c == ',' {
            spec_tokenize(cs, i + 1, acc.push(TokenV::Comma))
        } else if c == ':' {
            spec_tokenize(cs, i + 1, acc.push(TokenV::Colon))
        } else if c == '\0' {
            Ok(acc)
        } else if is_ws(c) {
            spec_tokenize(cs, i + 1, acc)
        } else {
            Err(JsonError::UnexpectedCharacter)
        }
    }
}

/// Relies on String::from_iter over characters: collecting characters yields
/// the string of exactly those characters, in order.
#[verifier::external_body]
fn string_from_chars(v: &Vec<char>) -> (r: String)
    ensures
        r@ == v@,
{
    String::from_iter(v.iter())
}

/// Whether `c` is ASCII whitespace.
fn ws_char(c: char) -> (r: bool)
    ensures
        r == is_ws(c),
{
    c == ' ' || c == '\t' || c == '\n' || c == '\u{c}' || c == '\r'
}

/// Whether `c` is an ASCII digit.
fn digit_char(c: char) -> (r: bool)
    ensures
        r == is_digit(c),
{
    let u = c as u32;
    48 <= u && u <= 57
}

/// A run of digit characters has a non-negative value.
proof fn lemma_digits_val_nonneg(s: Seq<char>)
    requires
        all_digits(s),
    ensures
        digits_val(s) >= 0,
    decreases s.len(),
{
    if s.len() > 0 {
        assert(all_digits(s.drop_last()));
        lemma_digits_val_nonneg(s.drop_last());
    }
}

/// Extending a run of digits never lowers its value.
proof fn lemma_digits_val_prefix(s: Seq<char>, k: int)
    requires
        all_digits(s),
        0 <= k <= s.len(),
    ensures
        digits_val(s) >= digits_val(s.subrange(0, k)),
    decreases s.len() - k,
{
    if k == s.len() {
        assert(s.subrange(0, k) =~= s);
    } else {
        lemma_digits_val_prefix(s, k + 1);
        let p = s.subrange(0, k + 1);
        assert(p.drop_last() =~= s.subrange(0, k));
        assert(all_digits(s.subrange(0, k)));
        lemma_digits_val_nonneg(s.subrange(0, k));
        assert(digits_val(p) == digits_val(s.subrange(0, k)) * 10 + (s[k] as u32 - 48));
    }
}

/// Parses a decimal integer text into a signed 64-bit value; `None` exactly
/// when the text is not a valid integer literal or its value does not fit.
fn parse_i64(v: &Vec<char>) -> (r: Option<i64>)
    ensures
        match r {
            Some(x) => valid_int_lit(v@) && -0x8000_0000_0000_0000 <= int_lit_val(v@)
                <= 0x7fff_ffff_ffff_ffff && x as int == int_lit_val(v@),
            None => !(valid_int_lit(v@) && -0x8000_0000_0000_0000 <= int_lit_val(v@)
                <= 0x7fff_ffff_ffff_ffff),
        },
{
    let n = v.len();
    if n == 0 {
        return None;
    }
    let neg = v[0] == '-';
    let start: usize = if neg {
        1
    } else {
        0
    };
    if start >= n {
        return None;
    }
    let ghost digits = if neg {
        v@.skip(1)
    } else {
        v@
    };
    let mut mag: u64 = 0;
    let mut over = false;
    let mut k: usize = start;
    while k < n
        invariant
            n == v@.len(),
            start <= k <= n,
            start == (if neg {
                1int
            } else {
                0int
            }),
            neg <==> v@[0] == '-',
            digits == (if neg {
                v@.skip(1)
            } else {
                v@
            }),
            forall|j: int| start <= j < k ==> is_digit(#[trigger] v@[j]),
            !over ==> mag as int == digits_val(v@.subrange(start as int, k as int)) && mag
                <= 0x8000_0000_0000_0000,
            over ==> digits_val(v@.subrange(start as int, k as int)) > 0x8000_0000_0000_0000,
        decreases n - k,
    {
        let c = v[k];
        if !digit_char(c) {
            assert(!all_digits(digits)) by {
                assert(digits[k - start] == v@[k as int]);
            }
            return None;
        }
        let d: u32 = (c as u32) - 48;
        let ghost pre = v@.subrange(start as int, k as int);
        let ghost ext = v@.subrange(start as int, k + 1);
        proof {
            assert(ext.drop_last() =~= pre);
            assert(ext.last() == v@[k as int]);
            assert(digits_val(ext) == digits_val(pre) * 10 + d);
        }
        if over {
            proof {
                assert(digits_val(ext) > 0x8000_0000_0000_0000);
            }
        } else {
            let wide: u128 = (mag as u128) * 10 + (d as u128);
            if wide > 0x8000_0000_0000_0000u128 {
                over = true;
            } else {
                mag = wide as u64;
            }
        }
        k = k + 1;
    }
    proof {
        assert(v@.subrange(start as int, n as int) =~= digits);
        assert(all_digits(digits));
        if neg {
            assert(valid_int_lit(v@));
            assert(int_lit_val(v@) == -digits_val(digits));
        } else {
            assert(v@[0] != '-');
            assert(valid_int_lit(v@));
            assert(int_lit_val(v@) == digits_val(digits));
        }
    }
    if over {
        return None;
    }
    if neg {
        if mag == 0x8000_0000_0000_0000u64 {
            Some(i64::MIN)
        } else {
            Some(-(mag as i64))
        }
    } else {
        if mag >= 0x8000_0000_0000_0000u64 {
            None
        } else {
            Some(mag as i64)
        }
    }
}

/// Checks whether a text is a valid decimal floating-point literal.
fn check_float_lit(v: &Vec<char>) -> (r: bool)
    ensures
        r == valid_float_lit(v@),
{
    let n = v.len();
    let start: usize = if n > 0 && v[0] == '-' {
        1
    } else {
        0
    };
    let ghost b = float_body(v@);
    proof {
        if start == 1 {
            assert(b =~= v@.skip(1));
        } else {
            assert(b =~= v@);
        }
    }
    if start >= n {
        assert(b.len() == 0);
        return false;
    }
    let mut dot_seen = false;
    let mut digit_seen = false;
    let mut k: usize = start;
    while k < n
        invariant
            n == v@.len(),
            start <= k <= n,
            b == float_body(v@),
            b.len() == n - start,
            forall|j: int| 0 <= j < b.len() ==> #[trigger] b[j] == v@[j + start],
            forall|j: int| 0 <= j < k - start ==> is_digit(#[trigger] b[j]) || b[j] == '.',
            dot_seen <==> exists|j: int| 0 <= j < k - start && #[trigger] b[j] == '.',
            digit_seen <==> exists|j: int| 0 <= j < k - start && is_digit(#[trigger] b[j]),
            forall|a: int, b2: int| 0 <= a < b2 < k - start && b[a] == '.' ==> b[b2] != '.',
        decreases n - k,
    {
        let c = v[k];
        proof {
            assert(b[k - start] == v@[k as int]);
        }
        if digit_char(c) {
            digit_seen = true;
        } else if c == '.' {
            if dot_seen {
                proof {
                    let a = choose|j: int| 0 <= j < k - start && #[trigger] b[j] == '.';
                    assert(b[a] == '.' && b[k - start] == '.');
                    assert(0 <= a < k - start < b.len());
                    assert(!at_most_one_dot(b));
                    assert(!valid_float_lit(v@));
                }
                return false;
            }
            dot_seen = true;
        } else {
            proof {
                assert(!is_digit(b[k - start]) && b[k - start] != '.');
                assert(0 <= k - start < b.len());
                assert(!digits_and_dots(b));
                assert(!valid_float_lit(v@));
            }
            return false;
        }
        k = k + 1;
    }
    if digit_seen {
        assert(valid_float_lit(v@));
        true
    } else {
        assert(!valid_float_lit(v@));
        false
    }
}

/// Checks whether a text is a valid decimal integer literal (any size).
fn check_int_lit(v: &Vec<char>) -> (r: bool)
    ensures
        r == valid_int_lit(v@),
{
    let n = v.len();
    if n == 0 {
        return false;
    }
    let neg = v[0] == '-';
    let start: usize = if neg {
        1
    } else {
        0
    };
    if start >= n {
        return false;
    }
    let ghost digits = if neg {
        v@.skip(1)
    } else {
        v@
    };
    let mut k: usize = start;
    while k < n
        invariant
            n == v@.len(),
            start <= k <= n,
            start == (if neg {
                1int
            } else {
                0int
            }),
            neg <==> v@[0] == '-',
            digits == (if neg {
                v@.skip(1)
            } else {
                v@
            }),
            digits.len() == n - start,
            forall|j: int| 0 <= j < k - start ==> is_digit(#[trigger] digits[j]),
        decreases n - k,
    {
        let c = v[k];
        proof {
            assert(digits[k - start] == v@[k as int]);
        }
        if !digit_char(c) {
            return false;
        }
        k = k + 1;
    }
    assert(all_digits(digits));
    true
}

/// Builds the number a finished numeric token stands for, from its mantissa
/// and exponent accumulators and mode flags.
fn number_from_parts(mant: Vec<char>, expo: Vec<char>, is_dec: bool, is_eps: bool) -> (r: Result<
    Number,
    JsonError,
>)
    ensures
        match spec_number_value(mant@, expo@, is_dec, is_eps) {
            Ok(n) => r is Ok && r->Ok_0@ == n,
            Err(e) => r == Err::<Number, JsonError>(e),
        },
{
    if is_eps {
        if check_float_lit(&mant) && check_int_lit(&expo) {
            Ok(
                Number::Float {
                    mantissa: string_from_chars(&mant),
                    exponent: Some(string_from_chars(&expo)),
                },
            )
        } else {
            Err(JsonError::InvalidNumber)
        }
    } else if is_dec {
        if check_float_lit(&mant) {
            Ok(Number::Float { mantissa: string_from_chars(&mant), exponent: None })
        } else {
            Err(JsonError::InvalidNumber)
        }
    } else {
        match parse_i64(&mant) {
            Some(x) => Ok(Number::Integer(x)),
            None => Err(JsonError::InvalidNumber),
        }
    }
}

/// Turns the reader's character sequence into the token sequence. Owns the
/// reader and drains it destructively; one tokenizer serves one parse call.
pub struct JsonTokenizer {
    /// The character source for this parse call.
    reader: JsonReader,
}

impl View for JsonTokenizer {
    type V = Seq<char>;

    /// The characters this tokenizer still has to consume.
    closed spec fn view(&self) -> Seq<char> {
        self.reader@
    }
}

impl JsonTokenizer {
    /// Creates a tokenizer over an existing reader.
    pub fn new(reader: JsonReader) -> (t: JsonTokenizer)
        ensures
            t@ == reader@,
    {
        JsonTokenizer { reader }
    }

    /// Creates a tokenizer reading from a copy of the given bytes.
    pub fn from_bytes(input: &[u8]) -> (t: JsonTokenizer)
        ensures
            t@ == read_stream(input@, 0),
    {
        JsonTokenizer { reader: JsonReader::from_bytes(input) }
    }

    /// Lexes one string literal from `*i` (just past the opening quote):
    /// characters verbatim until a quote or the end of input.
    fn parse_string(cs: &Vec<char>, i: &mut usize) -> (s: String)
        requires
            *old(i) <= cs@.len(),
        ensures
            (s@, *final(i) as int) == spec_lex_string(cs@, *old(i) as int, Seq::empty()),
            *old(i) <= *final(i) <= cs@.len(),
    {
        let mut acc: Vec<char> = Vec::new();
        let n = cs.len();
        loop
            invariant_except_break
                spec_lex_string(cs@, *old(i) as int, Seq::empty()) == spec_lex_string(
                    cs@,
                    *i as int,
                    acc@,
                ),
            invariant
                n == cs@.len(),
                *i <= n,
                *old(i) <= *i,
            ensures
                (acc@, *i as int) == spec_lex_string(cs@, *old(i) as int, Seq::empty()),
                *old(i) <= *i <= n,
            decreases n - *i,
        {
            if *i >= n {
                break ;
            }
            let c = cs[*i];
            *i = *i + 1;
            if c == '"' {
                break ;
            }
            acc.push(c);
        }
        string_from_chars(&acc)
    }

    /// Lexes one number from `*i` (at its first character). On success `*i`
    /// rests on the unconsumed terminator.
    fn parse_number(cs: &Vec<char>, i: &mut usize) -> (r: Result<Number, JsonError>)
        requires
            *old(i) < cs@.len(),
            cs@[*old(i) as int] == '-' || is_digit(cs@[*old(i) as int]),
        ensures
            match spec_lex_number(cs@, *old(i) as int, Seq::empty(), Seq::empty(), false, false) {
                Ok((nv, j)) => r is Ok && r->Ok_0@ == nv && *final(i) as int == j && *old(i)
                    < *final(i) <= cs@.len(),
                Err(e) => r == Err::<Number, JsonError>(e),
            },
    {
        let n = cs.len();
        let mut mant: Vec<char> = Vec::new();
        let mut expo: Vec<char> = Vec::new();
        let mut is_dec = false;
        let mut is_eps = false;
        loop
            invariant
                n == cs@.len(),
                *old(i) <= *i <= n,
                *old(i) < cs@.len(),
                cs@[*old(i) as int] == '-' || is_digit(cs@[*old(i) as int]),
                *i == *old(i) ==> mant@.len() == 0 && expo@.len() == 0 && !is_dec && !is_eps,
                spec_lex_number(cs@, *old(i) as int, Seq::empty(), Seq::empty(), false, false)
                    == spec_lex_number(cs@, *i as int, mant@, expo@, is_dec, is_eps),
            ensures
                *old(i) < *i <= n,
                spec_lex_number(cs@, *old(i) as int, Seq::empty(), Seq::empty(), false, false)
                    == spec_lex_number(cs@, *i as int, mant@, expo@, is_dec, is_eps),
                *i as int >= cs@.len() || cs@[*i as int] == '}' || cs@[*i as int] == ','
                    || cs@[*i as int] == ']' || cs@[*i as int] == ':' || cs@[*i as int] == '\0',
            decreases n - *i,
        {
            if *i >= n {
                break ;
            }
            let c = cs[*i];
            if c == '-' {
                if is_eps {
                    expo.push('-');
                } else {
                    mant.push('-');
                }
                *i = *i + 1;
            } else if c == '+' {
                *i = *i + 1;
            } else if digit_char(c) {
                if is_eps {
                    expo.push(c);
                } else {
                    mant.push(c);
                }
                *i = *i + 1;
            } else if c == '.' {
                mant.push('.');
                is_dec = true;
                *i = *i + 1;
            } else if c == '}' || c == ',' || c == ']' || c == ':' || c == '\0' {
                break ;
            } else if c == 'e' || c == 'E' {
                if is_eps {
                    return Err(JsonError::DoubleExponent);
                }
                is_eps = true;
                *i = *i + 1;
            } else if ws_char(c) {
                *i = *i + 1;
            } else {
                return Err(JsonError::UnexpectedCharacter);
            }
        }
        number_from_parts(mant, expo, is_dec, is_eps)
    }

    /// Consumes the whole character sequence and produces the complete token
    /// sequence for it, eagerly, or the first lexical error.
    pub fn tokenize_json(&mut self) -> (r: Result<Vec<Token>, JsonError>)
        ensures
            final(self)@.len() == 0,
            match spec_tokenize(old(self)@, 0, Seq::empty()) {
                Ok(ts) => r is Ok && token_views(r->Ok_0@) == ts,
                Err(e) => r == Err::<Vec<Token>, JsonError>(e),
            },
    {
        let cs = self.reader.read_to_end();
        let n = cs.len();
        let mut toks: Vec<Token> = Vec::new();
        let mut i: usize = 0;
        proof {
            assert(token_views(toks@) =~= Seq::<TokenV>::empty());
        }
        loop
            invariant
                n == cs@.len(),
                cs@ == old(self)@,
                self@.len() == 0,
                i <= n,
                spec_tokenize(cs@, 0, Seq::empty()) == spec_tokenize(
                    cs@,
                    i as int,
                    token_views(toks@),
                ),
            ensures
                i >= n || cs@[i as int] == '\0',
                spec_tokenize(cs@, 0, Seq::empty()) == spec_tokenize(
                    cs@,
                    i as int,
                    token_views(toks@),
                ),
            decreases n - i,
        {
            if i >= n {
                break ;
            }
            let ghost tv0 = token_views(toks@);
            let c = cs[i];
            if c == '"' {
                let ghost i_at: int = i as int;
                i = i + 1;
                toks.push(Token::Quotes);
                let s = JsonTokenizer::parse_string(&cs, &mut i);
                let ghost sv: Seq<char> = s@;
                toks.push(Token::String(s));
                toks.push(Token::Quotes);
                proof {
                    let sj = spec_lex_string(cs@, i_at + 1, Seq::empty());
                    assert(sv == sj.0 && i as int == sj.1);
                    assert(token_views(toks@) =~= tv0 + seq![
                        TokenV::Quotes,
                        TokenV::String(sj.0),
                        TokenV::Quotes,
                    ]);
                }
            } else if c == '-' || digit_char(c) {
                match JsonTokenizer::parse_number(&cs, &mut i) {
                    Ok(num) => {
                        toks.push(Token::Number(num));
                        proof {
                            assert(token_views(toks@) =~= tv0.push(TokenV::Number(num@)));
                        }
                    },
                    Err(e) => {
                        return Err(e);
                    },
                }
            } else if c == 't' {
                if n - i >= 4 && cs[i + 1] == 'r' && cs[i + 2] == 'u' && cs[i + 3] == 'e' {
                    toks.push(Token::Boolean(true));
                    proof {
                        assert(token_views(toks@) =~= tv0.push(TokenV::Boolean(true)));
                    }
                    i = i + 4;
                } else {
                    return Err(JsonError::MalformedLiteral);
                }
            } else if c == 'f' {
                if n - i >= 5 && cs[i + 1] == 'a' && cs[i + 2] == 'l' && cs[i + 3] == 's' && cs[i
                    + 4] == 'e' {
                    toks.push(Token::Boolean(false));
                    proof {
                        assert(token_views(toks@) =~= tv0.push(TokenV::Boolean(false)));
                    }
                    i = i + 5;
                } else {
                    return Err(JsonError::MalformedLiteral);
                }
            } else if c == 'n' {
                if n - i >= 4 && cs[i + 1] == 'u' && cs[i + 2] == 'l' && cs[i + 3] == 'l' {
                    toks.push(Token::Null);
                    proof {
                        assert(token_views(toks@) =~= tv0.push(TokenV::Null));
                    }
                    i = i + 4;
                } else {
                    return Err(JsonError::MalformedLiteral);
                }
            } else if c == '{' {
                toks.push(Token::CurlyOpen);
                proof {
                    assert(token_views(toks@) =~= tv0.push(TokenV::CurlyOpen));
                }
                i = i + 1;
            } else if c == '}' {
                toks.push(Token::CurlyClose);
                proof {
                    assert(token_views(toks@) =~= tv0.push(TokenV::CurlyClose));
                }
                i = i + 1;
            } else if c == '[' {
                toks.push(Token::ArrayOpen);
                proof {
                    assert(token_views(toks@) =~= tv0.push(TokenV::ArrayOpen));
                }
                i = i + 1;
            } else if c == ']' {
                toks.push(Token::ArrayClose);
                proof {
                    assert(token_views(toks@) =~= tv0.push(TokenV::ArrayClose));
                }
                i = i + 1;
            } else if c == ',' {
                toks.push(Token::Comma);
                proof {
                    assert(token_views(toks@) =~= tv0.push(TokenV::Comma));
                }
                i = i + 1;
            } else if c == ':' {
                toks.push(Token::Colon);
                proof {
                    assert(token_views(toks@) =~= tv0.push(TokenV::Colon));
                }
                i = i + 1;
            } else if c == '\0' {
                break ;
            } else if ws_char(c) {
                i = i + 1;
            } else {
                return Err(JsonError::UnexpectedCharacter);
            }
        }
        Ok(toks)
    }
}

} // verus!
