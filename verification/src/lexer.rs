//! The tokenizer: one left-to-right pass that turns expression text into a
//! sequence of typed tokens.
//!
//! The accepted characters are digits, the letters `d`/`D`, `h`/`H`, `l`/`L`,
//! the operators `+ - * / ( )`, and whitespace. Digits accumulate into a
//! pending integer literal, which is flushed when a symbol, whitespace or the
//! end of the input is reached. Any other character aborts the scan.

use vstd::prelude::*;

use crate::dice_error::DiceError;

verus! {

/// The kind of a single token.
#[derive(Debug, PartialEq, Eq, Structural, Clone, Copy)]
pub enum TokenType {
    D,
    KeepHigh,
    KeepLow,
    Add,
    Subtract,
    Multiply,
    Divide,
    OpenParenthesis,
    CloseParenthesis,
    Integer,
}

/// One token. `integer` is meaningful only when `token_type` is
/// [`TokenType::Integer`]; for every other kind it is zero.
#[derive(Debug, PartialEq, Eq, Structural, Clone, Copy)]
pub struct Token {
    pub token_type: TokenType,
    pub integer: u64,
}

/// The token kind produced by a single non-digit, non-whitespace character,
/// or `None` if the character is not one of the accepted symbols.
pub open spec fn symbol_token_type(c: char) -> Option<TokenType> {
    if c == 'd' || c == 'D' {
        Some(TokenType::D)
    } else if c == 'h' || c == 'H' {
        Some(TokenType::KeepHigh)
    } else if c == 'l' || c == 'L' {
        Some(TokenType::KeepLow)
    } else if c == '+' {
        Some(TokenType::Add)
    } else if c == '-' {
        Some(TokenType::Subtract)
    } else if c == '*' {
        Some(TokenType::Multiply)
    } else if c == '/' {
        Some(TokenType::Divide)
    } else if c == '(' {
        Some(TokenType::OpenParenthesis)
    } else if c == ')' {
        Some(TokenType::CloseParenthesis)
    } else {
        None
    }
}

/// Whitespace characters are skipped by the scan.
pub open spec fn is_whitespace_char(c: char) -> bool {
    c == ' ' || c == '\n' || c == '\t' || c == '\r'
}

pub open spec fn is_digit_char(c: char) -> bool {
    48 <= c as int && c as int <= 57
}

/// The numeric value of a digit character.
pub open spec fn digit_value(c: char) -> nat
    recommends
        is_digit_char(c),
{
    (c as int - 48) as nat
}

/// Whether the tokenizer accepts the character at all.
pub open spec fn accepted_char(c: char) -> bool {
    is_digit_char(c) || is_whitespace_char(c) || symbol_token_type(c) is Some
}

/// The numeric value of a sequence of digit characters, most significant
/// digit first.
pub open spec fn digits_value(s: Seq<char>) -> nat
    decreases s.len(),
{
    if s.len() == 0 {
        0
    } else {
        digits_value(s.drop_last()) * 10 + digit_value(s.last())
    }
}

/// The message produced for an unaccepted character.
pub open spec fn unexpected_char_message(c: char) -> Seq<char> {
    "Unexpected character: "@ + seq![c]
}

/// The message produced when a pending integer literal exceeds the 64-bit
/// range.
pub open spec fn overflow_message() -> Seq<char> {
    "Unexpected error: number too large to fit in target type"@
}

/// Flushes a pending literal: an empty buffer adds nothing, a buffer whose
/// value fits in 64 bits becomes an integer token, and anything larger is the
/// overflow error.
pub open spec fn spec_flush(pending: Seq<char>, acc: Seq<Token>) -> Result<Seq<Token>, Seq<char>> {
    if pending.len() == 0 {
        Ok(acc)
    } else if digits_value(pending) <= u64::MAX {
        Ok(acc.push(Token { token_type: TokenType::Integer, integer: digits_value(pending) as u64 }))
    } else {
        Err(overflow_message())
    }
}

/// One scan over the remaining input, carrying the pending digit buffer and
/// the tokens produced so far. Returns the final scan state without flushing
/// the buffer left over at the end of the input.
pub open spec fn spec_scan(s: Seq<char>, pending: Seq<char>, acc: Seq<Token>) -> Result<
    (Seq<char>, Seq<Token>),
    Seq<char>,
>
    decreases s.len(),
{
    if s.len() == 0 {
        Ok((pending, acc))
    } else {
        let c = s[0];
        if is_digit_char(c) {
            spec_scan(s.drop_first(), pending.push(c), acc)
        } else if is_whitespace_char(c) {
            match spec_flush(pending, acc) {
                Ok(acc2) => spec_scan(s.drop_first(), Seq::empty(), acc2),
                Err(m) => Err(m),
            }
        } else {
            match symbol_token_type(c) {
                Some(tt) => match spec_flush(pending, acc) {
                    Ok(acc2) => spec_scan(
                        s.drop_first(),
                        Seq::empty(),
                        acc2.push(Token { token_type: tt, integer: 0 }),
                    ),
                    Err(m) => Err(m),
                },
                None => Err(unexpected_char_message(c)),
            }
        }
    }
}

/// What `tokenize` returns, as a function of the input characters: the scan
/// runs over the whole input and the pending literal left at the end is
/// flushed.
pub open spec fn spec_tokenize(s: Seq<char>) -> Result<Seq<Token>, Seq<char>> {
    match spec_scan(s, Seq::empty(), Seq::empty()) {
        Ok((pending, acc)) => spec_flush(pending, acc),
        Err(m) => Err(m),
    }
}

/// Scanning a concatenation is scanning the first part and carrying its
/// state into the second.
proof fn lemma_scan_append(s1: Seq<char>, s2: Seq<char>, pending: Seq<char>, acc: Seq<Token>)
    ensures
        spec_scan(s1 + s2, pending, acc) == match spec_scan(s1, pending, acc) {
            Ok((p2, a2)) => spec_scan(s2, p2, a2),
            Err(m) => Err(m),
        },
    decreases s1.len(),
{
    if s1.len() == 0 {
        assert(s1 + s2 =~= s2);
    } else {
        let s = s1 + s2;
        assert(s[0] == s1[0]);
        assert(s.drop_first() =~= s1.drop_first() + s2);
        let c = s1[0];
        if is_digit_char(c) {
            lemma_scan_append(s1.drop_first(), s2, pending.push(c), acc);
        } else if is_whitespace_char(c) {
            match spec_flush(pending, acc) {
                Ok(acc2) => {
                    lemma_scan_append(s1.drop_first(), s2, Seq::empty(), acc2);
                },
                Err(_) => {},
            }
        } else {
            match symbol_token_type(c) {
                Some(tt) => match spec_flush(pending, acc) {
                    Ok(acc2) => {
                        lemma_scan_append(
                            s1.drop_first(),
                            s2,
                            Seq::empty(),
                            acc2.push(Token { token_type: tt, integer: 0 }),
                        );
                    },
                    Err(_) => {},
                },
                None => {},
            }
        }
    }
}

/// A scan that ends well saw only accepted characters.
proof fn lemma_scan_ok_all_accepted(s: Seq<char>, pending: Seq<char>, acc: Seq<Token>)
    requires
        spec_scan(s, pending, acc) is Ok,
    ensures
        forall|i: int| 0 <= i < s.len() ==> accepted_char(#[trigger] s[i]),
    decreases s.len(),
{
    if s.len() > 0 {
        let c = s[0];
        if is_digit_char(c) {
            lemma_scan_ok_all_accepted(s.drop_first(), pending.push(c), acc);
        } else if is_whitespace_char(c) {
            match spec_flush(pending, acc) {
                Ok(acc2) => {
                    lemma_scan_ok_all_accepted(s.drop_first(), Seq::empty(), acc2);
                },
                Err(_) => {},
            }
        } else {
            match symbol_token_type(c) {
                Some(tt) => match spec_flush(pending, acc) {
                    Ok(acc2) => {
                        lemma_scan_ok_all_accepted(
                            s.drop_first(),
                            Seq::empty(),
                            acc2.push(Token { token_type: tt, integer: 0 }),
                        );
                    },
                    Err(_) => {},
                },
                None => {},
            }
        }
        assert forall|i: int| 0 <= i < s.len() implies accepted_char(#[trigger] s[i]) by {
            if i > 0 {
                assert(s.drop_first()[i - 1] == s[i]);
            }
        }
    }
}

/// An input of whitespace alone — the empty input included — tokenizes to
/// the empty sequence, and parsing that empty sequence fails with the
/// empty-input error.
pub proof fn lemma_whitespace_only(s: Seq<char>)
    requires
        forall|i: int| 0 <= i < s.len() ==> is_whitespace_char(#[trigger] s[i]),
    ensures
        spec_tokenize(s) == Ok::<Seq<Token>, Seq<char>>(Seq::empty()),
        crate::parser::spec_parse(Seq::empty())
            == Err::<crate::ast::AST, Seq<char>>(crate::parser::invalid_expression_message()),
{
    lemma_whitespace_scan(s, Seq::empty());
}

/// Whitespace only moves the scan along: the pending buffer stays empty and
/// no token is produced.
proof fn lemma_whitespace_scan(s: Seq<char>, acc: Seq<Token>)
    requires
        forall|i: int| 0 <= i < s.len() ==> is_whitespace_char(#[trigger] s[i]),
    ensures
        spec_scan(s, Seq::empty(), acc) == Ok::<(Seq<char>, Seq<Token>), Seq<char>>(
            (Seq::empty(), acc),
        ),
    decreases s.len(),
{
    if s.len() > 0 {
        assert(!is_digit_char(s[0]) && symbol_token_type(s[0]) is None) by {
            assert(is_whitespace_char(s[0]));
        }
        assert forall|i: int| 0 <= i < s.drop_first().len() implies is_whitespace_char(
            #[trigger] s.drop_first()[i],
        ) by {
            assert(s.drop_first()[i] == s[i + 1]);
        }
        lemma_whitespace_scan(s.drop_first(), acc);
    }
}

/// Any character outside the accepted set, anywhere in the input, makes
/// `tokenize` fail.
pub proof fn lemma_any_unaccepted_character_fails(s: Seq<char>)
    requires
        exists|i: int| 0 <= i < s.len() && !accepted_char(#[trigger] s[i]),
    ensures
        spec_tokenize(s) is Err,
{
    match spec_scan(s, Seq::empty(), Seq::empty()) {
        Ok(_) => {
            lemma_scan_ok_all_accepted(s, Seq::empty(), Seq::empty());
        },
        Err(_) => {},
    }
}

/// A character outside the accepted set always makes `tokenize` fail: with
/// the message naming the first such character, unless a literal beyond the
/// 64-bit range aborts the scan first with the overflow message.
pub proof fn lemma_unexpected_character(s: Seq<char>, i: int)
    requires
        0 <= i < s.len(),
        forall|j: int| 0 <= j < i ==> accepted_char(#[trigger] s[j]),
        !accepted_char(s[i]),
    ensures
        spec_tokenize(s) is Err,
        spec_tokenize(s) == Err::<Seq<Token>, Seq<char>>(unexpected_char_message(s[i]))
            || spec_tokenize(s) == Err::<Seq<Token>, Seq<char>>(overflow_message()),
        unexpected_char_message(s[i]).last() == s[i],
    decreases s.len(),
{
    lemma_unexpected_scan(s, Seq::empty(), Seq::empty(), i);
    if spec_scan(s, Seq::empty(), Seq::empty()) is Ok {
        lemma_scan_ok_all_accepted(s, Seq::empty(), Seq::empty());
    }
}

/// The scan stops at the first unaccepted character with that character's
/// message, unless an overflowing literal stops it first.
proof fn lemma_unexpected_scan(s: Seq<char>, pending: Seq<char>, acc: Seq<Token>, i: int)
    requires
        0 <= i < s.len(),
        forall|j: int| 0 <= j < i ==> accepted_char(#[trigger] s[j]),
        !accepted_char(s[i]),
    ensures
        spec_scan(s, pending, acc) == Err::<(Seq<char>, Seq<Token>), Seq<char>>(
            unexpected_char_message(s[i]),
        ) || spec_scan(s, pending, acc) == Err::<(Seq<char>, Seq<Token>), Seq<char>>(
            overflow_message(),
        ),
    decreases s.len(),
{
    if i == 0 {
        assert(!is_digit_char(s[0]) && !is_whitespace_char(s[0]) && symbol_token_type(s[0]) is None);
    } else {
        let c = s[0];
        assert(accepted_char(c));
        assert forall|j: int| 0 <= j < i - 1 implies accepted_char(#[trigger] s.drop_first()[j]) by {
            assert(s.drop_first()[j] == s[j + 1]);
        }
        assert(s.drop_first()[i - 1] == s[i]);
        if is_digit_char(c) {
            lemma_unexpected_scan(s.drop_first(), pending.push(c), acc, i - 1);
        } else if is_whitespace_char(c) {
            match spec_flush(pending, acc) {
                Ok(acc2) => {
                    lemma_unexpected_scan(s.drop_first(), Seq::empty(), acc2, i - 1);
                },
                Err(_) => {},
            }
        } else {
            match symbol_token_type(c) {
                Some(tt) => match spec_flush(pending, acc) {
                    Ok(acc2) => {
                        lemma_unexpected_scan(
                            s.drop_first(),
                            Seq::empty(),
                            acc2.push(Token { token_type: tt, integer: 0 }),
                            i - 1,
                        );
                    },
                    Err(_) => {},
                },
                None => {},
            }
        }
    }
}

/// When the scan reaches an unaccepted character — every earlier character
/// accepted and every literal before it in range — the failure names exactly
/// that character.
pub proof fn lemma_unexpected_character_reached(s: Seq<char>, i: int)
    requires
        0 <= i < s.len(),
        forall|j: int| 0 <= j < i ==> accepted_char(#[trigger] s[j]),
        !accepted_char(s[i]),
        spec_scan(s.take(i), Seq::empty(), Seq::empty()) is Ok,
    ensures
        spec_tokenize(s) == Err::<Seq<Token>, Seq<char>>(unexpected_char_message(s[i])),
{
    assert(s =~= s.take(i) + s.skip(i));
    lemma_scan_append(s.take(i), s.skip(i), Seq::empty(), Seq::empty());
    let rest = s.skip(i);
    assert(rest[0] == s[i]);
    assert(!is_digit_char(rest[0]) && !is_whitespace_char(rest[0]) && symbol_token_type(
        rest[0],
    ) is None);
}

/// The state of the pending digit buffer kept by the executable scan: its
/// value when it fits in 64 bits, or the overflow mark when it does not.
spec fn pending_tracked(pending: Seq<char>, val: u64, overflow: bool, empty: bool) -> bool {
    &&& (empty <==> pending.len() == 0)
    &&& (!overflow ==> val == digits_value(pending) && digits_value(pending) <= u64::MAX)
    &&& (overflow ==> digits_value(pending) > u64::MAX)
}

/// Flushes the pending literal into the token list, mirroring [`spec_flush`].
fn flush_pending(
    results: &mut Vec<Token>,
    val: u64,
    overflow: bool,
    empty: bool,
    Ghost(pending): Ghost<Seq<char>>,
) -> (r: Result<(), DiceError>)
    requires
        pending_tracked(pending, val, overflow, empty),
    ensures
        match r {
            Ok(_) => spec_flush(pending, old(results)@) == Ok::<Seq<Token>, Seq<char>>(
                final(results)@,
            ),
            Err(e) => spec_flush(pending, old(results)@) == Err::<Seq<Token>, Seq<char>>(
                e.message@,
            ) && final(results)@ == old(results)@,
        },
{
    if empty {
        return Ok(());
    }
    if overflow {
        return Err(DiceError::new("Unexpected error: number too large to fit in target type"));
    }
    results.push(Token { token_type: TokenType::Integer, integer: val });
    Ok(())
}

/// Converts expression text into tokens in one left-to-right pass, exactly as
/// [`spec_tokenize`] describes: digits accumulate into integer literals,
/// whitespace and symbols flush the pending literal, and the first unaccepted
/// character (or a literal beyond the 64-bit range) aborts the scan with an
/// error carrying that message.
pub fn tokenize(input: &str) -> (r: Result<Vec<Token>, DiceError>)
    ensures
        match r {
            Ok(tokens) => spec_tokenize(input@) == Ok::<Seq<Token>, Seq<char>>(tokens@),
            Err(e) => spec_tokenize(input@) == Err::<Seq<Token>, Seq<char>>(e.message@),
        },
{
    let n: usize = input.unicode_len();
    let mut results: Vec<Token> = Vec::new();
    let mut val: u64 = 0;
    let mut overflow: bool = false;
    let mut empty: bool = true;
    let ghost mut pending: Seq<char> = Seq::empty();
    let mut i: usize = 0;
    proof {
        assert(input@.skip(0) =~= input@);
    }
    while i < n
        invariant
            n == input@.len(),
            i <= n,
            pending_tracked(pending, val, overflow, empty),
            spec_scan(input@.skip(i as int), pending, results@) == spec_scan(
                input@,
                Seq::empty(),
                Seq::empty(),
            ),
        decreases n - i,
    {
        let c = input.get_char(i);
        proof {
            assert(input@.skip(i as int)[0] == c);
            assert(input@.skip(i as int).drop_first() =~= input@.skip(i as int + 1));
        }
        let cv: u32 = c as u32;
        if 48 <= cv && cv <= 57 {
            let d: u64 = (cv - 48) as u64;
            proof {
                assert(digits_value(pending.push(c)) == digits_value(pending) * 10 + d) by {
                    assert(pending.push(c).drop_last() =~= pending);
                    assert(pending.push(c).last() == c);
                };
            }
            if !overflow {
                if val <= (u64::MAX - d) / 10 {
                    assert(val * 10 + d <= u64::MAX) by (nonlinear_arith)
                        requires
                            val <= (u64::MAX - d) / 10,
                            d <= 9,
                    {}
                    val = val * 10 + d;
                } else {
                    assert(val * 10 + d > u64::MAX) by (nonlinear_arith)
                        requires
                            val > (u64::MAX - d) / 10,
                            d <= 9,
                            val <= u64::MAX,
                    {}
                    overflow = true;
                }
            } else {
                proof {
                    assert(digits_value(pending) * 10 + d > u64::MAX);
                }
            }
            proof {
                pending = pending.push(c);
            }
            empty = false;
        } else if c == ' ' || c == '\n' || c == '\t' || c == '\r' {
            match flush_pending(&mut results, val, overflow, empty, Ghost(pending)) {
                Ok(_) => {},
                Err(e) => {
                    return Err(e);
                },
            }
            proof {
                pending = Seq::empty();
            }
            val = 0;
            overflow = false;
            empty = true;
        } else {
            let tt: Option<TokenType> = if c == 'd' || c == 'D' {
                Some(TokenType::D)
            } else if c == 'h' || c == 'H' {
                Some(TokenType::KeepHigh)
            } else if c == 'l' || c == 'L' {
                Some(TokenType::KeepLow)
            } else if c == '+' {
                Some(TokenType::Add)
            } else if c == '-' {
                Some(TokenType::Subtract)
            } else if c == '*' {
                Some(TokenType::Multiply)
            } else if c == '/' {
                Some(TokenType::Divide)
            } else if c == '(' {
                Some(TokenType::OpenParenthesis)
            } else if c == ')' {
                Some(TokenType::CloseParenthesis)
            } else {
                None
            };
            proof {
                assert(tt == symbol_token_type(c));
            }
            match tt {
                Some(token_type) => {
                    match flush_pending(&mut results, val, overflow, empty, Ghost(pending)) {
                        Ok(_) => {},
                        Err(e) => {
                            return Err(e);
                        },
                    }
                    results.push(Token { token_type, integer: 0 });
                    proof {
                        pending = Seq::empty();
                    }
                    val = 0;
                    overflow = false;
                    empty = true;
                },
                None => {
                    let mut message = String::new();
                    message.append("Unexpected character: ");
                    crate::text::push_char(&mut message, c);
                    proof {
                        assert(message@ =~= unexpected_char_message(c));
                    }
                    return Err(DiceError { message });
                },
            }
        }
        i += 1;
    }
    proof {
        assert(input@.skip(n as int) =~= Seq::empty());
    }
    match flush_pending(&mut results, val, overflow, empty, Ghost(pending)) {
        Ok(_) => Ok(results),
        Err(e) => Err(e),
    }
}

} // verus!
