//! The parser: recursive descent with precedence climbing over the token
//! sequence.
//!
//! The grammar, lowest precedence first:
//! ```text
//! expr      := term (('+' | '-') term)*            (left-associative)
//! term      := atom (('*' | '/') atom)*            (left-associative)
//! atom      := '(' expr ')' | roll
//! roll      := shortroll | longroll | integer
//! shortroll := D integer
//! longroll  := integer D integer [ ('h' | 'l') integer ]
//! integer   := IntegerLiteral
//! ```
//! Before any tree is built, the token sequence must be non-empty and its
//! parenthesis counts must match.

use vstd::prelude::*;

use crate::ast::AST;
use crate::ast::IntegerAST;
use crate::ast::LongRollAST;
use crate::ast::MathAST;
use crate::ast::MathOperation;
use crate::ast::ShortRollAST;
use crate::dice_error::DiceError;
use crate::lexer::Token;
use crate::lexer::TokenType;

verus! {

/// The generic message for any structural grammar violation.
pub open spec fn invalid_expression_message() -> Seq<char> {
    "Invalid expression."@
}

/// The message for mismatched parenthesis counts, checked before any tree
/// construction.
pub open spec fn unclosed_parenthetical_message() -> Seq<char> {
    "Expression contains an unclosed parenthetical."@
}

/// How many tokens of the given kind the sequence holds.
pub open spec fn count_of_type(t: Seq<Token>, tt: TokenType) -> nat
    decreases t.len(),
{
    if t.len() == 0 {
        0
    } else {
        count_of_type(t.drop_last(), tt) + if t.last().token_type == tt {
            1nat
        } else {
            0nat
        }
    }
}

/// The token at a cursor position, if any.
pub open spec fn tok_at(t: Seq<Token>, pos: int) -> Option<Token> {
    if 0 <= pos < t.len() {
        Some(t[pos])
    } else {
        None
    }
}

/// Keeps the cursor strictly advancing and within the token sequence. Every
/// production of this grammar consumes at least one token when it succeeds
/// and never runs past the end, so this changes nothing on the positions that
/// actually occur; it lets the recursion's termination measure stand on its
/// own.
pub open spec fn advanced(t: Seq<Token>, pos: int, p: int) -> int {
    if p <= pos {
        pos + 1
    } else if p > t.len() {
        t.len() as int
    } else {
        p
    }
}

/// One parsed production: the subtree or error message, and the cursor
/// position after it.
pub type SpecParsed = (Result<AST, Seq<char>>, int);

/// `integer := IntegerLiteral`, consuming one token and yielding its value.
pub open spec fn spec_parse_integer_raw(t: Seq<Token>, pos: int) -> (Result<u64, Seq<char>>, int) {
    match tok_at(t, pos) {
        None => (Err(invalid_expression_message()), pos),
        Some(tok) => if tok.token_type == TokenType::Integer {
            (Ok(tok.integer), pos + 1)
        } else {
            (Err(invalid_expression_message()), pos + 1)
        },
    }
}

/// A bare integer literal as a leaf node.
pub open spec fn spec_parse_integer(t: Seq<Token>, pos: int) -> SpecParsed {
    let (r, p) = spec_parse_integer_raw(t, pos);
    match r {
        Ok(v) => (Ok(AST::Integer(IntegerAST { integer: v })), p),
        Err(m) => (Err(m), p),
    }
}

/// `shortroll := D integer`: one implicit die.
pub open spec fn spec_parse_shortroll(t: Seq<Token>, pos: int) -> SpecParsed {
    match tok_at(t, pos) {
        Some(tok) => if tok.token_type == TokenType::D {
            let (r, p) = spec_parse_integer_raw(t, pos + 1);
            match r {
                Ok(faces) => (Ok(AST::ShortRoll(ShortRollAST { faces })), p),
                Err(m) => (Err(m), p),
            }
        } else {
            (Err(invalid_expression_message()), pos + 1)
        },
        None => (Err(invalid_expression_message()), pos),
    }
}

/// `longroll := integer D integer [ ('h' | 'l') integer ]`: the die count,
/// the face count, and an optional keep-modifier parsed greedily right after
/// the faces.
pub open spec fn spec_parse_longroll(t: Seq<Token>, pos: int) -> SpecParsed {
    let (r1, p1) = spec_parse_integer_raw(t, pos);
    match r1 {
        Err(m) => (Err(m), p1),
        Ok(die) => match tok_at(t, p1) {
            None => (Err(invalid_expression_message()), p1),
            Some(tok) => if tok.token_type != TokenType::D {
                (Err(invalid_expression_message()), p1 + 1)
            } else {
                let (r2, p2) = spec_parse_integer_raw(t, p1 + 1);
                match r2 {
                    Err(m) => (Err(m), p2),
                    Ok(faces) => match tok_at(t, p2) {
                        Some(tok2) => if tok2.token_type == TokenType::KeepHigh {
                            let (r3, p3) = spec_parse_integer_raw(t, p2 + 1);
                            match r3 {
                                Err(m) => (Err(m), p3),
                                Ok(kh) => (
                                    Ok(
                                        AST::LongRoll(
                                            LongRollAST {
                                                die,
                                                faces,
                                                keep_high: Some(kh),
                                                keep_low: None,
                                            },
                                        ),
                                    ),
                                    p3,
                                ),
                            }
                        } else if tok2.token_type == TokenType::KeepLow {
                            let (r3, p3) = spec_parse_integer_raw(t, p2 + 1);
                            match r3 {
                                Err(m) => (Err(m), p3),
                                Ok(kl) => (
                                    Ok(
                                        AST::LongRoll(
                                            LongRollAST {
                                                die,
                                                faces,
                                                keep_high: None,
                                                keep_low: Some(kl),
                                            },
                                        ),
                                    ),
                                    p3,
                                ),
                            }
                        } else {
                            (
                                Ok(
                                    AST::LongRoll(
                                        LongRollAST { die, faces, keep_high: None, keep_low: None },
                                    ),
                                ),
                                p2,
                            )
                        },
                        None => (
                            Ok(
                                AST::LongRoll(
                                    LongRollAST { die, faces, keep_high: None, keep_low: None },
                                ),
                            ),
                            p2,
                        ),
                    },
                }
            }
        },
    }
}

/// `roll := shortroll | longroll | integer`, disambiguated by one-token
/// lookahead: a leading `D` starts a short roll, a `D` in second position
/// starts a long roll, anything else is a bare integer.
pub open spec fn spec_parse_roll(t: Seq<Token>, pos: int) -> SpecParsed {
    match tok_at(t, pos) {
        None => (Err(invalid_expression_message()), pos),
        Some(tok) => if tok.token_type == TokenType::D {
            spec_parse_shortroll(t, pos)
        } else {
            match tok_at(t, pos + 1) {
                Some(tok2) => if tok2.token_type == TokenType::D {
                    spec_parse_longroll(t, pos)
                } else {
                    spec_parse_integer(t, pos)
                },
                None => spec_parse_integer(t, pos),
            }
        },
    }
}

/// `atom := '(' expr ')' | roll`. The token after the nested expression is
/// discarded without inspection; the matching-counts pre-validation is what
/// guarantees it is the closing parenthesis on accepted inputs.
pub open spec fn spec_parse_atom(t: Seq<Token>, pos: int) -> SpecParsed
    decreases t.len() - pos, 3int,
{
    match tok_at(t, pos) {
        None => (Err(invalid_expression_message()), pos),
        Some(tok) => if tok.token_type != TokenType::OpenParenthesis {
            spec_parse_roll(t, pos)
        } else {
            let (r, p) = spec_parse_add(t, pos + 1);
            let p2 = if p < t.len() {
                p + 1
            } else {
                p
            };
            (r, p2)
        },
    }
}

/// The fold of `term (('*' | '/') atom)*`: while the next token is `*` or
/// `/`, the subtree built so far becomes the left operand of a new node.
pub open spec fn spec_parse_mult_loop(t: Seq<Token>, pos: int, left: AST) -> SpecParsed
    decreases t.len() - pos, 5int,
{
    match tok_at(t, pos) {
        None => (Ok(left), pos),
        Some(tok) => {
            let op = if tok.token_type == TokenType::Multiply {
                Some(MathOperation::Multiply)
            } else if tok.token_type == TokenType::Divide {
                Some(MathOperation::Divide)
            } else {
                None
            };
            match op {
                None => (Ok(left), pos),
                Some(operation) => {
                    let (r, p) = spec_parse_atom(t, pos + 1);
                    match r {
                        Err(m) => (Err(m), p),
                        Ok(right) => spec_parse_mult_loop(
                            t,
                            advanced(t, pos, p),
                            AST::Math(
                                MathAST {
                                    operation,
                                    left: Box::new(left),
                                    right: Box::new(right),
                                },
                            ),
                        ),
                    }
                },
            }
        },
    }
}

/// `term := atom (('*' | '/') atom)*`, left-associative.
pub open spec fn spec_parse_mult(t: Seq<Token>, pos: int) -> SpecParsed
    decreases t.len() - pos, 4int,
{
    if !(0 <= pos < t.len()) {
        (Err(invalid_expression_message()), pos)
    } else {
        let (r, p) = spec_parse_atom(t, pos);
        match r {
            Err(m) => (Err(m), p),
            Ok(left) => spec_parse_mult_loop(t, advanced(t, pos, p), left),
        }
    }
}

/// The fold of `expr (('+' | '-') term)*`: while the next token is `+` or
/// `-`, the subtree built so far becomes the left operand of a new node.
pub open spec fn spec_parse_add_loop(t: Seq<Token>, pos: int, left: AST) -> SpecParsed
    decreases t.len() - pos, 7int,
{
    match tok_at(t, pos) {
        None => (Ok(left), pos),
        Some(tok) => {
            let op = if tok.token_type == TokenType::Add {
                Some(MathOperation::Add)
            } else if tok.token_type == TokenType::Subtract {
                Some(MathOperation::Subtract)
            } else {
                None
            };
            match op {
                None => (Ok(left), pos),
                Some(operation) => {
                    let (r, p) = spec_parse_mult(t, pos + 1);
                    match r {
                        Err(m) => (Err(m), p),
                        Ok(right) => spec_parse_add_loop(
                            t,
                            advanced(t, pos, p),
                            AST::Math(
                                MathAST {
                                    operation,
                                    left: Box::new(left),
                                    right: Box::new(right),
                                },
                            ),
                        ),
                    }
                },
            }
        },
    }
}

/// `expr := term (('+' | '-') term)*`, left-associative: the entry point of
/// the precedence climb.
pub open spec fn spec_parse_add(t: Seq<Token>, pos: int) -> SpecParsed
    decreases t.len() - pos, 6int,
{
    if !(0 <= pos < t.len()) {
        (Err(invalid_expression_message()), pos)
    } else {
        let (r, p) = spec_parse_mult(t, pos);
        match r {
            Err(m) => (Err(m), p),
            Ok(left) => spec_parse_add_loop(t, advanced(t, pos, p), left),
        }
    }
}

/// Whether an executable parse result and a parsed production agree: the same
/// tree, or an error carrying the same message.
pub open spec fn parsed_eq(r: Result<AST, DiceError>, sr: Result<AST, Seq<char>>) -> bool {
    match (r, sr) {
        (Ok(a), Ok(sa)) => a == sa,
        (Err(e), Err(m)) => e.message@ == m,
        _ => false,
    }
}

/// What `parse` returns for a token sequence: the two pre-validations (a
/// non-empty sequence, matching parenthesis counts), then the precedence
/// climb from the first token, which must consume every token.
pub open spec fn spec_parse(t: Seq<Token>) -> Result<AST, Seq<char>> {
    if t.len() == 0 {
        Err(invalid_expression_message())
    } else if count_of_type(t, TokenType::OpenParenthesis) != count_of_type(
        t,
        TokenType::CloseParenthesis,
    ) {
        Err(unclosed_parenthetical_message())
    } else {
        let (r, p) = spec_parse_add(t, 0);
        if p < t.len() {
            Err(invalid_expression_message())
        } else {
            r
        }
    }
}

/// An integer-literal token, as the tokenizer produces it.
pub open spec fn integer_token(v: u64) -> Token {
    Token { token_type: TokenType::Integer, integer: v }
}

/// A non-literal token, as the tokenizer produces it.
pub open spec fn symbol_token(tt: TokenType) -> Token {
    Token { token_type: tt, integer: 0 }
}

/// An integer-literal leaf.
pub open spec fn integer_leaf(v: u64) -> AST {
    AST::Integer(IntegerAST { integer: v })
}

/// A binary node over two subtrees.
pub open spec fn math_node(operation: MathOperation, left: AST, right: AST) -> AST {
    AST::Math(MathAST { operation, left: Box::new(left), right: Box::new(right) })
}

/// Mismatched parenthesis counts fail with the unclosed-parenthetical error,
/// before any tree construction, whatever else the sequence holds.
pub proof fn lemma_unbalanced_parentheses(t: Seq<Token>)
    requires
        count_of_type(t, TokenType::OpenParenthesis) != count_of_type(
            t,
            TokenType::CloseParenthesis,
        ),
    ensures
        spec_parse(t) == Err::<AST, Seq<char>>(unclosed_parenthetical_message()),
{
}

/// `*` and `/` bind tighter than `+` and `-`: for all literal values, the
/// multiplication groups with its own operands on either side of an
/// addition.
pub proof fn lemma_multiplication_binds_tighter(x: u64, y: u64, z: u64)
    ensures
        spec_parse(
            seq![
                integer_token(x),
                symbol_token(TokenType::Add),
                integer_token(y),
                symbol_token(TokenType::Multiply),
                integer_token(z),
            ],
        ) == Ok::<AST, Seq<char>>(
            math_node(
                MathOperation::Add,
                integer_leaf(x),
                math_node(MathOperation::Multiply, integer_leaf(y), integer_leaf(z)),
            ),
        ),
        spec_parse(
            seq![
                integer_token(x),
                symbol_token(TokenType::Multiply),
                integer_token(y),
                symbol_token(TokenType::Subtract),
                integer_token(z),
            ],
        ) == Ok::<AST, Seq<char>>(
            math_node(
                MathOperation::Subtract,
                math_node(MathOperation::Multiply, integer_leaf(x), integer_leaf(y)),
                integer_leaf(z),
            ),
        ),
{
    reveal_with_fuel(spec_parse_add, 8);
    reveal_with_fuel(spec_parse_add_loop, 8);
    reveal_with_fuel(spec_parse_mult, 8);
    reveal_with_fuel(spec_parse_mult_loop, 8);
    reveal_with_fuel(spec_parse_atom, 8);
    reveal_with_fuel(count_of_type, 9);
}

/// Both precedence levels are left-associative: for all literal values, two
/// subtractions fold to the left, and so do two divisions.
pub proof fn lemma_left_associative(x: u64, y: u64, z: u64)
    ensures
        spec_parse(
            seq![
                integer_token(x),
                symbol_token(TokenType::Subtract),
                integer_token(y),
                symbol_token(TokenType::Subtract),
                integer_token(z),
            ],
        ) == Ok::<AST, Seq<char>>(
            math_node(
                MathOperation::Subtract,
                math_node(MathOperation::Subtract, integer_leaf(x), integer_leaf(y)),
                integer_leaf(z),
            ),
        ),
        spec_parse(
            seq![
                integer_token(x),
                symbol_token(TokenType::Divide),
                integer_token(y),
                symbol_token(TokenType::Divide),
                integer_token(z),
            ],
        ) == Ok::<AST, Seq<char>>(
            math_node(
                MathOperation::Divide,
                math_node(MathOperation::Divide, integer_leaf(x), integer_leaf(y)),
                integer_leaf(z),
            ),
        ),
{
    reveal_with_fuel(spec_parse_add, 8);
    reveal_with_fuel(spec_parse_add_loop, 8);
    reveal_with_fuel(spec_parse_mult, 8);
    reveal_with_fuel(spec_parse_mult_loop, 8);
    reveal_with_fuel(spec_parse_atom, 8);
    reveal_with_fuel(count_of_type, 9);
}

/// Parentheses override precedence: for all literal values, a parenthesized
/// addition becomes the left operand of the multiplication after it.
pub proof fn lemma_parentheses_override(x: u64, y: u64, z: u64)
    ensures
        spec_parse(
            seq![
                symbol_token(TokenType::OpenParenthesis),
                integer_token(x),
                symbol_token(TokenType::Add),
                integer_token(y),
                symbol_token(TokenType::CloseParenthesis),
                symbol_token(TokenType::Multiply),
                integer_token(z),
            ],
        ) == Ok::<AST, Seq<char>>(
            math_node(
                MathOperation::Multiply,
                math_node(MathOperation::Add, integer_leaf(x), integer_leaf(y)),
                integer_leaf(z),
            ),
        ),
{
    reveal_with_fuel(spec_parse_add, 8);
    reveal_with_fuel(spec_parse_add_loop, 8);
    reveal_with_fuel(spec_parse_mult, 8);
    reveal_with_fuel(spec_parse_mult_loop, 8);
    reveal_with_fuel(spec_parse_atom, 8);
    reveal_with_fuel(count_of_type, 9);
    let t = seq![
        symbol_token(TokenType::OpenParenthesis),
        integer_token(x),
        symbol_token(TokenType::Add),
        integer_token(y),
        symbol_token(TokenType::CloseParenthesis),
        symbol_token(TokenType::Multiply),
        integer_token(z),
    ];
    assert(count_of_type(t, TokenType::OpenParenthesis) == 1);
    assert(count_of_type(t, TokenType::CloseParenthesis) == 1);
}

/// A cursor over the token sequence, with one- and two-token lookahead.
struct TokenItr<'a> {
    tokens: &'a [Token],
    cur_token: usize,
}

impl<'a> TokenItr<'a> {
    /// The whole token sequence under the cursor.
    spec fn toks(&self) -> Seq<Token> {
        self.tokens@
    }

    /// The cursor position: how many tokens have been consumed.
    spec fn pos(&self) -> int {
        self.cur_token as int
    }

    /// The cursor never runs past the end of the sequence.
    spec fn wf(&self) -> bool {
        self.cur_token <= self.tokens@.len()
    }

    /// Consumes and returns the current token, if any.
    fn next(&mut self) -> (r: Option<&'a Token>)
        ensures
            final(self).toks() == old(self).toks(),
            match r {
                Some(tok) => tok_at(old(self).toks(), old(self).pos()) == Some(*tok)
                    && final(self).pos() == old(self).pos() + 1,
                None => tok_at(old(self).toks(), old(self).pos()) is None
                    && *final(self) == *old(self),
            },
            old(self).wf() ==> final(self).wf(),
    {
        if self.cur_token >= self.tokens.len() {
            return None;
        }
        let result = &self.tokens[self.cur_token];
        self.cur_token += 1;
        Some(result)
    }

    /// The current token without consuming it.
    fn peek(&self) -> (r: Option<&'a Token>)
        ensures
            match r {
                Some(tok) => tok_at(self.toks(), self.pos()) == Some(*tok),
                None => tok_at(self.toks(), self.pos()) is None,
            },
    {
        if self.cur_token >= self.tokens.len() {
            return None;
        }
        Some(&self.tokens[self.cur_token])
    }

    /// The token after the current one, without consuming anything.
    fn peek_next(&self) -> (r: Option<&'a Token>)
        ensures
            match r {
                Some(tok) => tok_at(self.toks(), self.pos() + 1) == Some(*tok),
                None => tok_at(self.toks(), self.pos() + 1) is None,
            },
    {
        if self.cur_token >= self.tokens.len() {
            return None;
        }
        let peek_idx = self.cur_token + 1;
        if peek_idx >= self.tokens.len() {
            return None;
        }
        Some(&self.tokens[peek_idx])
    }

    /// Whether every token has been consumed.
    fn is_empty(&self) -> (r: bool)
        ensures
            r <==> self.pos() >= self.toks().len(),
    {
        self.cur_token >= self.tokens.len()
    }
}

/// `integer := IntegerLiteral`: consumes one token, which must be an integer
/// literal, and yields its value.
fn parse_integer_raw(tokens: &mut TokenItr) -> (r: Result<u64, DiceError>)
    requires
        old(tokens).wf(),
    ensures
        final(tokens).wf(),
        final(tokens).toks() == old(tokens).toks(),
        ({
            let (sr, sp) = spec_parse_integer_raw(old(tokens).toks(), old(tokens).pos());
            &&& final(tokens).pos() == sp
            &&& match (r, sr) {
                (Ok(v), Ok(sv)) => v == sv,
                (Err(e), Err(m)) => e.message@ == m,
                _ => false,
            }
        }),
        old(tokens).pos() <= final(tokens).pos() <= old(tokens).toks().len(),
        r is Ok ==> final(tokens).pos() > old(tokens).pos(),
{
    match tokens.next() {
        Some(token) => {
            if token.token_type == TokenType::Integer {
                Ok(token.integer)
            } else {
                Err(DiceError::new("Invalid expression."))
            }
        },
        None => Err(DiceError::new("Invalid expression.")),
    }
}

/// A bare integer literal as a leaf node.
fn parse_integer(tokens: &mut TokenItr) -> (r: Result<AST, DiceError>)
    requires
        old(tokens).wf(),
    ensures
        final(tokens).wf(),
        final(tokens).toks() == old(tokens).toks(),
        ({
            let (sr, sp) = spec_parse_integer(old(tokens).toks(), old(tokens).pos());
            parsed_eq(r, sr) && final(tokens).pos() == sp
        }),
        old(tokens).pos() <= final(tokens).pos() <= old(tokens).toks().len(),
        r is Ok ==> final(tokens).pos() > old(tokens).pos(),
{
    match parse_integer_raw(tokens) {
        Ok(integer) => Ok(AST::Integer(IntegerAST { integer })),
        Err(e) => Err(e),
    }
}

/// `shortroll := D integer`: one implicit die.
fn parse_shortroll(tokens: &mut TokenItr) -> (r: Result<AST, DiceError>)
    requires
        old(tokens).wf(),
    ensures
        final(tokens).wf(),
        final(tokens).toks() == old(tokens).toks(),
        ({
            let (sr, sp) = spec_parse_shortroll(old(tokens).toks(), old(tokens).pos());
            parsed_eq(r, sr) && final(tokens).pos() == sp
        }),
        old(tokens).pos() <= final(tokens).pos() <= old(tokens).toks().len(),
        r is Ok ==> final(tokens).pos() > old(tokens).pos(),
{
    match tokens.next() {
        Some(token) => {
            if token.token_type == TokenType::D {
                match parse_integer_raw(tokens) {
                    Ok(faces) => Ok(AST::ShortRoll(ShortRollAST { faces })),
                    Err(e) => Err(e),
                }
            } else {
                Err(DiceError::new("Invalid expression."))
            }
        },
        None => Err(DiceError::new("Invalid expression.")),
    }
}

/// `longroll := integer D integer [ ('h' | 'l') integer ]`.
fn parse_longroll(tokens: &mut TokenItr) -> (r: Result<AST, DiceError>)
    requires
        old(tokens).wf(),
    ensures
        final(tokens).wf(),
        final(tokens).toks() == old(tokens).toks(),
        ({
            let (sr, sp) = spec_parse_longroll(old(tokens).toks(), old(tokens).pos());
            parsed_eq(r, sr) && final(tokens).pos() == sp
        }),
        old(tokens).pos() <= final(tokens).pos() <= old(tokens).toks().len(),
        r is Ok ==> final(tokens).pos() > old(tokens).pos(),
{
    let die = match parse_integer_raw(tokens) {
        Ok(v) => v,
        Err(e) => {
            return Err(e);
        },
    };
    match tokens.next() {
        None => {
            return Err(DiceError::new("Invalid expression."));
        },
        Some(token) => {
            if token.token_type != TokenType::D {
                return Err(DiceError::new("Invalid expression."));
            }
        },
    };
    let faces = match parse_integer_raw(tokens) {
        Ok(v) => v,
        Err(e) => {
            return Err(e);
        },
    };
    let mut keep_high: Option<u64> = None;
    let mut keep_low: Option<u64> = None;
    let maybe_token = tokens.peek();
    match maybe_token {
        Some(token) => {
            if token.token_type == TokenType::KeepHigh {
                tokens.next();
                match parse_integer_raw(tokens) {
                    Ok(v) => {
                        keep_high = Some(v);
                    },
                    Err(e) => {
                        return Err(e);
                    },
                }
            } else if token.token_type == TokenType::KeepLow {
                tokens.next();
                match parse_integer_raw(tokens) {
                    Ok(v) => {
                        keep_low = Some(v);
                    },
                    Err(e) => {
                        return Err(e);
                    },
                }
            }
        },
        None => {},
    }
    Ok(AST::LongRoll(LongRollAST { die, faces, keep_high, keep_low }))
}

/// `roll := shortroll | longroll | integer`, chosen by one-token lookahead.
fn parse_roll(tokens: &mut TokenItr) -> (r: Result<AST, DiceError>)
    requires
        old(tokens).wf(),
    ensures
        final(tokens).wf(),
        final(tokens).toks() == old(tokens).toks(),
        ({
            let (sr, sp) = spec_parse_roll(old(tokens).toks(), old(tokens).pos());
            parsed_eq(r, sr) && final(tokens).pos() == sp
        }),
        old(tokens).pos() <= final(tokens).pos() <= old(tokens).toks().len(),
        r is Ok ==> final(tokens).pos() > old(tokens).pos(),
{
    let next_token = match tokens.peek() {
        None => {
            return Err(DiceError::new("Invalid expression."));
        },
        Some(token) => token,
    };
    if next_token.token_type == TokenType::D {
        return parse_shortroll(tokens);
    }
    match tokens.peek_next() {
        Some(token) => {
            if token.token_type == TokenType::D {
                parse_longroll(tokens)
            } else {
                parse_integer(tokens)
            }
        },
        None => parse_integer(tokens),
    }
}

/// `atom := '(' expr ')' | roll`.
fn parse_atom(tokens: &mut TokenItr) -> (r: Result<AST, DiceError>)
    requires
        old(tokens).wf(),
    ensures
        final(tokens).wf(),
        final(tokens).toks() == old(tokens).toks(),
        ({
            let (sr, sp) = spec_parse_atom(old(tokens).toks(), old(tokens).pos());
            parsed_eq(r, sr) && final(tokens).pos() == sp
        }),
        old(tokens).pos() <= final(tokens).pos() <= old(tokens).toks().len(),
        r is Ok ==> final(tokens).pos() > old(tokens).pos(),
    decreases old(tokens).toks().len() - old(tokens).pos(), 3int,
{
    let is_paren = match tokens.peek() {
        None => {
            return Err(DiceError::new("Invalid expression."));
        },
        Some(token) => token.token_type == TokenType::OpenParenthesis,
    };
    if !is_paren {
        return parse_roll(tokens);
    }
    tokens.next();
    let result = parse_add(tokens);
    tokens.next();
    result
}

/// `term := atom (('*' | '/') atom)*`, folding left.
#[verifier::loop_isolation(false)]
fn parse_mult(tokens: &mut TokenItr) -> (r: Result<AST, DiceError>)
    requires
        old(tokens).wf(),
    ensures
        final(tokens).wf(),
        final(tokens).toks() == old(tokens).toks(),
        ({
            let (sr, sp) = spec_parse_mult(old(tokens).toks(), old(tokens).pos());
            parsed_eq(r, sr) && final(tokens).pos() == sp
        }),
        old(tokens).pos() <= final(tokens).pos() <= old(tokens).toks().len(),
        r is Ok ==> final(tokens).pos() > old(tokens).pos(),
    decreases old(tokens).toks().len() - old(tokens).pos(), 4int,
{
    let ghost t = old(tokens).toks();
    let ghost pos0 = old(tokens).pos();
    let mut left: AST = match parse_atom(tokens) {
        Ok(a) => a,
        Err(e) => {
            return Err(e);
        },
    };
    loop
        invariant
            tokens.wf(),
            tokens.toks() == t,
            pos0 < tokens.pos() <= t.len(),
            spec_parse_mult(t, pos0) == spec_parse_mult_loop(t, tokens.pos(), left),
        decreases t.len() - tokens.pos(),
    {
        let op = match tokens.peek() {
            None => {
                return Ok(left);
            },
            Some(token) => {
                if token.token_type == TokenType::Multiply {
                    MathOperation::Multiply
                } else if token.token_type == TokenType::Divide {
                    MathOperation::Divide
                } else {
                    return Ok(left);
                }
            },
        };
        tokens.next();
        let right = match parse_atom(tokens) {
            Ok(a) => a,
            Err(e) => {
                return Err(e);
            },
        };
        left = AST::Math(MathAST { operation: op, left: Box::new(left), right: Box::new(right) });
    }
}

/// `expr := term (('+' | '-') term)*`, folding left: the parser's entry
/// production.
#[verifier::loop_isolation(false)]
fn parse_add(tokens: &mut TokenItr) -> (r: Result<AST, DiceError>)
    requires
        old(tokens).wf(),
    ensures
        final(tokens).wf(),
        final(tokens).toks() == old(tokens).toks(),
        ({
            let (sr, sp) = spec_parse_add(old(tokens).toks(), old(tokens).pos());
            parsed_eq(r, sr) && final(tokens).pos() == sp
        }),
        old(tokens).pos() <= final(tokens).pos() <= old(tokens).toks().len(),
        r is Ok ==> final(tokens).pos() > old(tokens).pos(),
    decreases old(tokens).toks().len() - old(tokens).pos(), 6int,
{
    let ghost t = old(tokens).toks();
    let ghost pos0 = old(tokens).pos();
    let mut left: AST = match parse_mult(tokens) {
        Ok(a) => a,
        Err(e) => {
            return Err(e);
        },
    };
    loop
        invariant
            tokens.wf(),
            tokens.toks() == t,
            pos0 < tokens.pos() <= t.len(),
            spec_parse_add(t, pos0) == spec_parse_add_loop(t, tokens.pos(), left),
        decreases t.len() - tokens.pos(),
    {
        let op = match tokens.peek() {
            None => {
                return Ok(left);
            },
            Some(token) => {
                if token.token_type == TokenType::Add {
                    MathOperation::Add
                } else if token.token_type == TokenType::Subtract {
                    MathOperation::Subtract
                } else {
                    return Ok(left);
                }
            },
        };
        tokens.next();
        let right = match parse_mult(tokens) {
            Ok(a) => a,
            Err(e) => {
                return Err(e);
            },
        };
        left = AST::Math(MathAST { operation: op, left: Box::new(left), right: Box::new(right) });
    }
}

/// The whole token sequence must have been consumed by the precedence climb.
fn validate_consumed_all_tokens(tokens: &TokenItr) -> (r: Result<(), DiceError>)
    ensures
        match r {
            Ok(_) => tokens.pos() >= tokens.toks().len(),
            Err(e) => tokens.pos() < tokens.toks().len() && e.message@
                == invalid_expression_message(),
        },
{
    if !tokens.is_empty() {
        return Err(DiceError::new("Invalid expression."));
    }
    Ok(())
}

/// The token sequence may not be empty.
fn validate_not_empty(tokens: &[Token]) -> (r: Result<(), DiceError>)
    ensures
        match r {
            Ok(_) => tokens@.len() > 0,
            Err(e) => tokens@.len() == 0 && e.message@ == invalid_expression_message(),
        },
{
    if tokens.len() < 1 {
        return Err(DiceError::new("Invalid expression."));
    }
    Ok(())
}

/// The counts of opening and closing parentheses must match, checked before
/// any tree construction.
fn validate_parenthesis(tokens: &[Token]) -> (r: Result<(), DiceError>)
    ensures
        match r {
            Ok(_) => count_of_type(tokens@, TokenType::OpenParenthesis) == count_of_type(
                tokens@,
                TokenType::CloseParenthesis,
            ),
            Err(e) => count_of_type(tokens@, TokenType::OpenParenthesis) != count_of_type(
                tokens@,
                TokenType::CloseParenthesis,
            ) && e.message@ == unclosed_parenthetical_message(),
        },
{
    let mut open_count: usize = 0;
    let mut close_count: usize = 0;
    let mut i: usize = 0;
    proof {
        assert(tokens@.take(0) =~= Seq::empty());
    }
    while i < tokens.len()
        invariant
            i <= tokens@.len(),
            open_count == count_of_type(tokens@.take(i as int), TokenType::OpenParenthesis),
            close_count == count_of_type(tokens@.take(i as int), TokenType::CloseParenthesis),
            open_count <= i,
            close_count <= i,
        decreases tokens@.len() - i,
    {
        proof {
            assert(tokens@.take(i as int + 1).drop_last() =~= tokens@.take(i as int));
            assert(tokens@.take(i as int + 1).last() == tokens@[i as int]);
        }
        if tokens[i].token_type == TokenType::OpenParenthesis {
            open_count += 1;
        }
        if tokens[i].token_type == TokenType::CloseParenthesis {
            close_count += 1;
        }
        i += 1;
    }
    proof {
        assert(tokens@.take(tokens@.len() as int) =~= tokens@);
    }
    if open_count != close_count {
        return Err(DiceError::new("Expression contains an unclosed parenthetical."));
    }
    Ok(())
}

/// Parses a token sequence into an expression tree, exactly as [`spec_parse`]
/// describes: the sequence must be non-empty with matching parenthesis
/// counts, the grammar's precedence climb must succeed, and every token must
/// be consumed; otherwise the matching error is returned.
pub fn parse(tokens: &[Token]) -> (r: Result<AST, DiceError>)
    ensures
        parsed_eq(r, spec_parse(tokens@)),
{
    match validate_not_empty(tokens) {
        Ok(_) => {},
        Err(e) => {
            return Err(e);
        },
    }
    match validate_parenthesis(tokens) {
        Ok(_) => {},
        Err(e) => {
            return Err(e);
        },
    }
    let mut itr = TokenItr { tokens, cur_token: 0 };
    let result = parse_add(&mut itr);
    match validate_consumed_all_tokens(&itr) {
        Ok(_) => {},
        Err(e) => {
            return Err(e);
        },
    }
    result
}

} // verus!
