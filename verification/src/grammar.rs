//! The grammar, as functions from a source and a position in it to the
//! tree that stands there.
//!
//! ```text
//! program        := statement* EOF
//! statement      := definition | declaration | expr
//! definition     := 'def' prototype expr
//! declaration    := 'extern' prototype
//! prototype      := IDENT '(' (',' | IDENT)* ')'
//! expr           := primary (OPERATOR primary)*
//! primary        := NUMBER
//!                 | '(' expr ')'
//!                 | IDENT [ '(' [ expr (',' expr)* ] ')' ]
//!                 | 'if' expr 'then' expr 'else' expr
//! ```
//!
//! A position, here called a cursor, is a number of bytes of the source.
//! The parser looks one token ahead: at a cursor it sees the token that
//! `lex` finds there, and to take a token it must be able to see the one
//! after it. So a byte that starts no token fails the statement in which
//! the token before it is taken.

use crate::ast::{ExprView, FunctionView, PrototypeView};
use crate::error::{Expected, ParseErrorView};
use crate::lexer::{lemma_identifier_is_word, lemma_lex_progress, lex};
use crate::operator::Operator;
use crate::token::TokenView;
use crate::util::is_word;
use vstd::prelude::*;

verus! {

/// What a rule of the grammar gives: a value and the cursor after it, or
/// the reason why the source does not follow the rule.
pub type Parsed<T> = Result<(T, int), ParseErrorView>;

/// A cursor at which the parser can stand: one inside the source at which
/// there is a token to look at.
pub open spec fn valid_cursor(src: Seq<u8>, cursor: int) -> bool {
    0 <= cursor <= src.len() && lex(src, cursor) is Ok
}

/// The token that the parser sees at `cursor`.
pub open spec fn peek(src: Seq<u8>, cursor: int) -> TokenView {
    match lex(src, cursor) {
        Ok((token, _)) => token,
        Err(_) => TokenView::Eof,
    }
}

/// Where the token at `cursor` ends.
pub open spec fn token_end(src: Seq<u8>, cursor: int) -> int {
    match lex(src, cursor) {
        Ok((_, end)) => end,
        Err(_) => cursor,
    }
}

/// Takes the token at `cursor`: the cursor after it, if a token can be seen
/// from there.
pub open spec fn advance(src: Seq<u8>, cursor: int) -> Result<int, ParseErrorView> {
    match lex(src, token_end(src, cursor)) {
        Ok(_) => Ok(token_end(src, cursor)),
        Err(e) => Err(ParseErrorView::Lex(e)),
    }
}

/// `parsed`, given that it ends in the source and not before `from`.
///
/// Every rule ends at or after the cursor at which it began, and inside
/// the source, so this is `parsed` itself (`lemma_onward_changes_nothing`).
/// The rules ask for it where they go on from the end of another rule,
/// because their recursion is on what is left of the source.
pub open spec fn onward<T>(src: Seq<u8>, from: int, parsed: Parsed<T>) -> Parsed<T> {
    match parsed {
        Ok((_, to)) => if from <= to <= src.len() {
            parsed
        } else {
            Err(arbitrary())
        },
        Err(_) => parsed,
    }
}

/// An operand: a number, a parenthesised expression, a name, a call or a
/// conditional.
pub open spec fn parse_primary(src: Seq<u8>, cursor: int) -> Parsed<ExprView>
    decreases src.len() - cursor, 0int,
{
    match advance(src, cursor) {
        Err(e) => Err(e),
        Ok(after) => {
            proof {
                lemma_lex_progress(src, cursor);
            }
            match peek(src, cursor) {
                TokenView::Number(value) => Ok((ExprView::NumberLiteral(value), after)),
                TokenView::LeftParen => parse_parenthesised(src, after),
                TokenView::Identifier(name) => parse_named(src, name, after),
                TokenView::If => parse_conditional(src, after),
                other => Err(
                    ParseErrorView::Unexpected { expected: Expected::Primary, found: other },
                ),
            }
        },
    }
}

/// What follows `(`: an expression and the `)` that closes it.
pub open spec fn parse_parenthesised(src: Seq<u8>, cursor: int) -> Parsed<ExprView>
    decreases src.len() - cursor, 2int,
{
    match parse_expr(src, cursor) {
        Err(e) => Err(e),
        Ok((inner, close)) => match advance(src, close) {
            Err(e) => Err(e),
            Ok(end) => if peek(src, close) == TokenView::RightParen {
                Ok((inner, end))
            } else {
                Err(
                    ParseErrorView::Unexpected {
                        expected: Expected::RightParen,
                        found: peek(src, close),
                    },
                )
            },
        },
    }
}

/// What follows `if`: the predicate, `then`, a branch, `else`, a branch.
pub open spec fn parse_conditional(src: Seq<u8>, cursor: int) -> Parsed<ExprView>
    decreases src.len() - cursor, 2int,
{
    match onward(src, cursor, parse_expr(src, cursor)) {
        Err(e) => Err(e),
        Ok((predicate, at_then)) => if peek(src, at_then) != TokenView::Then {
            Err(
                ParseErrorView::Unexpected {
                    expected: Expected::Then,
                    found: peek(src, at_then),
                },
            )
        } else {
            match advance(src, at_then) {
                Err(e) => Err(e),
                Ok(after_then) => {
                    proof {
                        lemma_lex_progress(src, at_then);
                    }
                    match onward(src, after_then, parse_expr(src, after_then)) {
                        Err(e) => Err(e),
                        Ok((then_branch, at_else)) => if peek(src, at_else) != TokenView::Else {
                            Err(
                                ParseErrorView::Unexpected {
                                    expected: Expected::Else,
                                    found: peek(src, at_else),
                                },
                            )
                        } else {
                            match advance(src, at_else) {
                                Err(e) => Err(e),
                                Ok(after_else) => {
                                    proof {
                                        lemma_lex_progress(src, at_else);
                                    }
                                    match parse_expr(src, after_else) {
                                        Err(e) => Err(e),
                                        Ok((else_branch, end)) => Ok(
                                            (
                                                ExprView::Conditional {
                                                    predicate: Box::new(predicate),
                                                    then_branch: Box::new(then_branch),
                                                    else_branch: Box::new(else_branch),
                                                },
                                                end,
                                            ),
                                        ),
                                    }
                                },
                            }
                        },
                    }
                },
            }
        },
    }
}

/// What follows a name: where the parser sees `(`, the arguments of a call
/// of that name, if there are any, and `)`; else nothing, and the name is
/// that of a variable.
pub open spec fn parse_named(src: Seq<u8>, name: Seq<u8>, cursor: int) -> Parsed<ExprView>
    decreases src.len() - cursor, 3int,
{
    if peek(src, cursor) != TokenView::LeftParen {
        Ok((ExprView::VariableRef(name), cursor))
    } else {
        match advance(src, cursor) {
            Err(e) => Err(e),
            Ok(inside) => {
                proof {
                    lemma_lex_progress(src, cursor);
                }
                if peek(src, inside) == TokenView::RightParen {
                    match advance(src, inside) {
                        Err(e) => Err(e),
                        Ok(end) => Ok((ExprView::Call { name, args: Seq::empty() }, end)),
                    }
                } else {
                    parse_arguments(src, name, Seq::empty(), inside)
                }
            },
        }
    }
}

/// The arguments of a call to `callee` from `cursor` on, after those in
/// `args`: an expression, then `,` and more arguments, or `)`.
pub open spec fn parse_arguments(
    src: Seq<u8>,
    callee: Seq<u8>,
    args: Seq<ExprView>,
    cursor: int,
) -> Parsed<ExprView>
    decreases src.len() - cursor, 2int,
{
    match onward(src, cursor, parse_expr(src, cursor)) {
        Err(e) => Err(e),
        Ok((arg, at_separator)) => match advance(src, at_separator) {
            Err(e) => Err(e),
            Ok(after) => {
                proof {
                    lemma_lex_progress(src, at_separator);
                }
                match peek(src, at_separator) {
                    TokenView::Comma => parse_arguments(src, callee, args.push(arg), after),
                    TokenView::RightParen => Ok(
                        (ExprView::Call { name: callee, args: args.push(arg) }, after),
                    ),
                    other => Err(ParseErrorView::BadArgumentList { callee, found: other }),
                }
            },
        },
    }
}

/// An expression: an operand, and the operators and operands that follow
/// it, grouped by precedence.
pub open spec fn parse_expr(src: Seq<u8>, cursor: int) -> Parsed<ExprView>
    decreases src.len() - cursor, 1int,
{
    match onward(src, cursor, parse_primary(src, cursor)) {
        Err(e) => Err(e),
        Ok((lhs, after)) => parse_binary(src, lhs, 0, after),
    }
}

/// The operators of precedence `min_prec` or more that follow `lhs`, each
/// with its right operand, folded into `lhs` from the left.
///
/// While the parser sees an operator that binds at least as tightly as
/// `min_prec`, it takes the operator and an operand, lets that operand
/// take up what binds tighter than the operator (`parse_tighter`), and
/// joins the two sides under the operator.
pub open spec fn parse_binary(src: Seq<u8>, lhs: ExprView, min_prec: int, cursor: int) -> Parsed<
    ExprView,
>
    decreases src.len() - cursor, 0int,
{
    match peek(src, cursor) {
        TokenView::Operator(op) => if op.precedence() < min_prec {
            Ok((lhs, cursor))
        } else {
            match advance(src, cursor) {
                Err(e) => Err(e),
                Ok(after_op) => {
                    proof {
                        lemma_lex_progress(src, cursor);
                    }
                    match onward(src, after_op, parse_primary(src, after_op)) {
                        Err(e) => Err(e),
                        Ok((operand, after_operand)) => match onward(
                            src,
                            after_operand,
                            parse_tighter(src, op, operand, after_operand),
                        ) {
                            Err(e) => Err(e),
                            Ok((rhs, next)) => parse_binary(
                                src,
                                ExprView::BinaryOp { op, lhs: Box::new(lhs), rhs: Box::new(rhs) },
                                min_prec,
                                next,
                            ),
                        },
                    }
                },
            }
        },
        _ => Ok((lhs, cursor)),
    }
}

/// The right operand of `op`, grown by what binds tighter than `op`: while
/// the parser sees a binary operator of higher precedence than `op`, the
/// operand becomes the left side of what follows, at one precedence above
/// `op`.
pub open spec fn parse_tighter(src: Seq<u8>, op: Operator, rhs: ExprView, cursor: int) -> Parsed<
    ExprView,
>
    decreases src.len() - cursor, 1int,
{
    match peek(src, cursor) {
        TokenView::Operator(ahead) => if ahead.is_binary_op() && op.precedence()
            < ahead.precedence() {
            match onward(
                src,
                cursor + 1,
                parse_binary(src, rhs, op.precedence() + 1, cursor),
            ) {
                Err(e) => Err(e),
                Ok((grown, next)) => parse_tighter(src, op, grown, next),
            }
        } else {
            Ok((rhs, cursor))
        },
        _ => Ok((rhs, cursor)),
    }
}

/// The parameters of a prototype from `cursor` on, after those in `params`.
/// Commas are passed over wherever they stand, names are collected, and
/// `)` ends the list.
pub open spec fn parse_parameters(src: Seq<u8>, params: Seq<Seq<u8>>, cursor: int) -> Parsed<
    Seq<Seq<u8>>,
>
    decreases src.len() - cursor,
{
    match advance(src, cursor) {
        Err(e) => Err(e),
        Ok(after) => {
            proof {
                lemma_lex_progress(src, cursor);
            }
            match peek(src, cursor) {
                TokenView::Comma => parse_parameters(src, params, after),
                TokenView::Identifier(name) => parse_parameters(src, params.push(name), after),
                TokenView::RightParen => Ok((params, after)),
                other => Err(
                    ParseErrorView::Unexpected { expected: Expected::Parameter, found: other },
                ),
            }
        },
    }
}

/// A prototype: a name, `(`, the parameters and `)`.
pub open spec fn parse_prototype(src: Seq<u8>, cursor: int) -> Parsed<PrototypeView> {
    match advance(src, cursor) {
        Err(e) => Err(e),
        Ok(at_paren) => match peek(src, cursor) {
            TokenView::Identifier(name) => match advance(src, at_paren) {
                Err(e) => Err(e),
                Ok(inside) => if peek(src, at_paren) == TokenView::LeftParen {
                    match parse_parameters(src, Seq::empty(), inside) {
                        Err(e) => Err(e),
                        Ok((args, end)) => Ok((PrototypeView { name, args }, end)),
                    }
                } else {
                    Err(
                        ParseErrorView::Unexpected {
                            expected: Expected::LeftParen,
                            found: peek(src, at_paren),
                        },
                    )
                },
            },
            other => Err(
                ParseErrorView::Unexpected { expected: Expected::PrototypeName, found: other },
            ),
        },
    }
}

/// The statement at `cursor`, or `None` at the end of the input.
///
/// `def` starts a definition and `extern` a declaration; anything else is
/// an expression, which stands as a function without a prototype.
pub open spec fn parse_statement(src: Seq<u8>, cursor: int) -> Result<
    Option<(FunctionView, int)>,
    ParseErrorView,
> {
    match peek(src, cursor) {
        TokenView::Eof => Ok(None),
        TokenView::Def => match advance(src, cursor) {
            Err(e) => Err(e),
            Ok(at_prototype) => match parse_prototype(src, at_prototype) {
                Err(e) => Err(e),
                Ok((prototype, at_body)) => match parse_expr(src, at_body) {
                    Err(e) => Err(e),
                    Ok((body, end)) => Ok(
                        Some((FunctionView { prototype: Some(prototype), body: Some(body) }, end)),
                    ),
                },
            },
        },
        TokenView::Extern => match advance(src, cursor) {
            Err(e) => Err(e),
            Ok(at_prototype) => match parse_prototype(src, at_prototype) {
                Err(e) => Err(e),
                Ok((prototype, end)) => Ok(
                    Some((FunctionView { prototype: Some(prototype), body: None }, end)),
                ),
            },
        },
        _ => match parse_expr(src, cursor) {
            Err(e) => Err(e),
            Ok((body, end)) => Ok(Some((FunctionView { prototype: None, body: Some(body) }, end))),
        },
    }
}

/// An operand takes at least one token and ends inside the source.
pub proof fn lemma_primary_moves_forward(src: Seq<u8>, cursor: int)
    requires
        0 <= cursor <= src.len(),
    ensures
        parse_primary(src, cursor) matches Ok((_, to)) ==> cursor < to <= src.len()
            && valid_cursor(src, to),
    decreases src.len() - cursor, 0int,
{
    let after = token_end(src, cursor);
    lemma_lex_progress(src, cursor);
    if advance(src, cursor) is Ok {
        match peek(src, cursor) {
            TokenView::LeftParen => lemma_parenthesised_moves_forward(src, after),
            TokenView::Identifier(name) => lemma_named_moves_forward(src, name, after),
            TokenView::If => lemma_conditional_moves_forward(src, after),
            _ => {},
        }
    }
}

/// A parenthesised expression ends after its `)`, inside the source.
pub proof fn lemma_parenthesised_moves_forward(src: Seq<u8>, cursor: int)
    requires
        0 <= cursor <= src.len(),
    ensures
        parse_parenthesised(src, cursor) matches Ok((_, to)) ==> cursor < to <= src.len()
            && valid_cursor(src, to),
    decreases src.len() - cursor, 2int,
{
    lemma_expr_moves_forward(src, cursor);
    if let Ok((_, close)) = parse_expr(src, cursor) {
        lemma_lex_progress(src, close);
    }
}

/// A conditional ends after its last branch, inside the source.
pub proof fn lemma_conditional_moves_forward(src: Seq<u8>, cursor: int)
    requires
        0 <= cursor <= src.len(),
    ensures
        parse_conditional(src, cursor) matches Ok((_, to)) ==> cursor < to <= src.len()
            && valid_cursor(src, to),
    decreases src.len() - cursor, 2int,
{
    if let Ok((_, at_then)) = onward(src, cursor, parse_expr(src, cursor)) {
        lemma_lex_progress(src, at_then);
        if peek(src, at_then) == TokenView::Then {
            let after_then = token_end(src, at_then);
            if let Ok((_, at_else)) = onward(src, after_then, parse_expr(src, after_then)) {
                lemma_lex_progress(src, at_else);
                if peek(src, at_else) == TokenView::Else {
                    lemma_expr_moves_forward(src, token_end(src, at_else));
                }
            }
        }
    }
}

/// What follows a name ends at or after where it began, inside the source.
pub proof fn lemma_named_moves_forward(src: Seq<u8>, name: Seq<u8>, cursor: int)
    requires
        0 <= cursor <= src.len(),
    ensures
        parse_named(src, name, cursor) matches Ok((_, to)) ==> cursor <= to <= src.len() && (
        valid_cursor(src, cursor) ==> valid_cursor(src, to)),
    decreases src.len() - cursor, 3int,
{
    let inside = token_end(src, cursor);
    lemma_lex_progress(src, cursor);
    lemma_lex_progress(src, inside);
    if peek(src, cursor) == TokenView::LeftParen && peek(src, inside) != TokenView::RightParen {
        lemma_arguments_move_forward(src, name, Seq::empty(), inside);
    }
}

/// The arguments of a call end after its `)`, inside the source.
pub proof fn lemma_arguments_move_forward(
    src: Seq<u8>,
    callee: Seq<u8>,
    args: Seq<ExprView>,
    cursor: int,
)
    requires
        0 <= cursor <= src.len(),
    ensures
        parse_arguments(src, callee, args, cursor) matches Ok((_, to)) ==> cursor < to
            <= src.len() && valid_cursor(src, to),
    decreases src.len() - cursor, 2int,
{
    if let Ok((arg, at_separator)) = onward(src, cursor, parse_expr(src, cursor)) {
        lemma_lex_progress(src, at_separator);
        if advance(src, at_separator) is Ok && peek(src, at_separator) == TokenView::Comma {
            lemma_arguments_move_forward(
                src,
                callee,
                args.push(arg),
                token_end(src, at_separator),
            );
        }
    }
}

/// An expression takes at least one token and ends inside the source.
pub proof fn lemma_expr_moves_forward(src: Seq<u8>, cursor: int)
    requires
        0 <= cursor <= src.len(),
    ensures
        parse_expr(src, cursor) matches Ok((_, to)) ==> cursor < to <= src.len()
            && valid_cursor(src, to),
        onward(src, cursor, parse_expr(src, cursor)) == parse_expr(src, cursor),
    decreases src.len() - cursor, 1int,
{
    lemma_primary_moves_forward(src, cursor);
    if let Ok((lhs, after)) = parse_primary(src, cursor) {
        lemma_binary_moves_forward(src, lhs, 0, after);
    }
}

/// The operators that follow an operand end at or after where they began,
/// inside the source, and where the parser then stands it sees no operator
/// of precedence `min_prec` or more.
pub proof fn lemma_binary_moves_forward(src: Seq<u8>, lhs: ExprView, min_prec: int, cursor: int)
    requires
        0 <= cursor <= src.len(),
    ensures
        parse_binary(src, lhs, min_prec, cursor) matches Ok((_, to)) ==> {
            &&& cursor <= to <= src.len()
            &&& valid_cursor(src, cursor) ==> valid_cursor(src, to)
            &&& peek(src, cursor) matches TokenView::Operator(op) ==> (op.precedence()
                >= min_prec ==> cursor < to)
            &&& peek(src, to) matches TokenView::Operator(op) ==> op.precedence() < min_prec
        },
    decreases src.len() - cursor, 0int,
{
    if let TokenView::Operator(op) = peek(src, cursor) {
        if op.precedence() >= min_prec && advance(src, cursor) is Ok {
            let after_op = token_end(src, cursor);
            lemma_lex_progress(src, cursor);
            lemma_primary_moves_forward(src, after_op);
            if let Ok((operand, after_operand)) = onward(
                src,
                after_op,
                parse_primary(src, after_op),
            ) {
                lemma_tighter_moves_forward(src, op, operand, after_operand);
                if let Ok((rhs, next)) = onward(
                    src,
                    after_operand,
                    parse_tighter(src, op, operand, after_operand),
                ) {
                    lemma_binary_moves_forward(
                        src,
                        ExprView::BinaryOp { op, lhs: Box::new(lhs), rhs: Box::new(rhs) },
                        min_prec,
                        next,
                    );
                }
            }
        }
    }
}

/// A right operand that grows ends at or after where it began, inside the
/// source, and where the parser then stands it sees no binary operator of
/// higher precedence than `op`.
pub proof fn lemma_tighter_moves_forward(src: Seq<u8>, op: Operator, rhs: ExprView, cursor: int)
    requires
        0 <= cursor <= src.len(),
    ensures
        parse_tighter(src, op, rhs, cursor) matches Ok((_, to)) ==> {
            &&& cursor <= to <= src.len()
            &&& valid_cursor(src, cursor) ==> valid_cursor(src, to)
            &&& peek(src, to) matches TokenView::Operator(ahead) ==> !(ahead.is_binary_op()
                && op.precedence() < ahead.precedence())
        },
    decreases src.len() - cursor, 1int,
{
    if let TokenView::Operator(ahead) = peek(src, cursor) {
        if ahead.is_binary_op() && op.precedence() < ahead.precedence() {
            lemma_binary_moves_forward(src, rhs, op.precedence() + 1, cursor);
            if let Ok((grown, next)) = onward(
                src,
                cursor + 1,
                parse_binary(src, rhs, op.precedence() + 1, cursor),
            ) {
                lemma_tighter_moves_forward(src, op, grown, next);
            }
        }
    }
}

/// A parameter list ends after its `)`, inside the source.
pub proof fn lemma_parameters_move_forward(src: Seq<u8>, params: Seq<Seq<u8>>, cursor: int)
    requires
        0 <= cursor <= src.len(),
    ensures
        parse_parameters(src, params, cursor) matches Ok((_, to)) ==> cursor < to <= src.len()
            && valid_cursor(src, to),
    decreases src.len() - cursor,
{
    lemma_lex_progress(src, cursor);
    if advance(src, cursor) is Ok {
        let after = token_end(src, cursor);
        match peek(src, cursor) {
            TokenView::Comma => lemma_parameters_move_forward(src, params, after),
            TokenView::Identifier(name) => lemma_parameters_move_forward(
                src,
                params.push(name),
                after,
            ),
            _ => {},
        }
    }
}

/// Every rule of the grammar ends inside the source and after the cursor
/// at which it began, so that a statement that is parsed takes at least
/// one token.
pub proof fn lemma_rules_move_forward(src: Seq<u8>, cursor: int)
    requires
        0 <= cursor <= src.len(),
    ensures
        parse_primary(src, cursor) matches Ok((_, to)) ==> cursor < to <= src.len(),
        parse_expr(src, cursor) matches Ok((_, to)) ==> cursor < to <= src.len(),
        parse_prototype(src, cursor) matches Ok((_, to)) ==> cursor < to <= src.len(),
        parse_statement(src, cursor) matches Ok(Some((_, to))) ==> cursor < to <= src.len(),
{
    lemma_primary_moves_forward(src, cursor);
    lemma_expr_moves_forward(src, cursor);
    lemma_lex_progress(src, cursor);
    let second = token_end(src, cursor);
    lemma_lex_progress(src, second);
    lemma_parameters_move_forward(src, Seq::empty(), token_end(src, second));
    if let Ok((_, at_body)) = parse_prototype(src, second) {
        lemma_lex_progress(src, token_end(src, second));
        lemma_parameters_move_forward(
            src,
            Seq::empty(),
            token_end(src, token_end(src, second)),
        );
        lemma_expr_moves_forward(src, at_body);
    }
}

/// Where a rule goes on from the end of another rule, asking that the
/// other rule ended inside the source and not before it began changes
/// nothing: the rules may be read without `onward`.
pub proof fn lemma_onward_changes_nothing(
    src: Seq<u8>,
    cursor: int,
    op: Operator,
    operand: ExprView,
    min_prec: int,
)
    requires
        0 <= cursor <= src.len(),
    ensures
        onward(src, cursor, parse_primary(src, cursor)) == parse_primary(src, cursor),
        onward(src, cursor, parse_expr(src, cursor)) == parse_expr(src, cursor),
        onward(src, cursor, parse_tighter(src, op, operand, cursor)) == parse_tighter(
            src,
            op,
            operand,
            cursor,
        ),
        peek(src, cursor) matches TokenView::Operator(ahead) ==> (ahead.precedence() >= min_prec
            ==> onward(src, cursor + 1, parse_binary(src, operand, min_prec, cursor))
            == parse_binary(src, operand, min_prec, cursor)),
{
    lemma_primary_moves_forward(src, cursor);
    lemma_expr_moves_forward(src, cursor);
    lemma_tighter_moves_forward(src, op, operand, cursor);
    lemma_binary_moves_forward(src, operand, min_prec, cursor);
}

/// A right operand grows in one step: where the parser sees a binary
/// operator of higher precedence than `op`, the operand is the left side
/// of all that follows at one precedence above `op`, and nothing is left
/// that would make it grow again.
pub proof fn lemma_tighter_is_one_step(src: Seq<u8>, op: Operator, rhs: ExprView, cursor: int)
    requires
        0 <= cursor <= src.len(),
    ensures
        parse_tighter(src, op, rhs, cursor) == (match peek(src, cursor) {
            TokenView::Operator(ahead) => if ahead.is_binary_op() && op.precedence()
                < ahead.precedence() {
                parse_binary(src, rhs, op.precedence() + 1, cursor)
            } else {
                Ok((rhs, cursor))
            },
            _ => Ok((rhs, cursor)),
        }),
{
    lemma_binary_moves_forward(src, rhs, op.precedence() + 1, cursor);
    if let Ok((grown, next)) = parse_binary(src, rhs, op.precedence() + 1, cursor) {
        assert(parse_tighter(src, op, grown, next) == Ok::<(ExprView, int), ParseErrorView>(
            (grown, next),
        ));
    }
}

/// How an operator groups with what follows its right operand.
///
/// Where the parser then sees a binary operator of higher precedence, that
/// operator and all that binds tighter than `op` go into the right
/// operand. In every other case, and so before an operator of the same or
/// lower precedence, `op` is joined with its two operands first: operators
/// of equal precedence group to the left.
pub proof fn lemma_precedence_groups(src: Seq<u8>, lhs: ExprView, min_prec: int, cursor: int)
    requires
        0 <= cursor <= src.len(),
        peek(src, cursor) matches TokenView::Operator(op) && op.precedence() >= min_prec,
        advance(src, cursor) is Ok,
        parse_primary(src, token_end(src, cursor)) is Ok,
    ensures
        ({
            let op = peek(src, cursor)->Operator_0;
            let (operand, after) = parse_primary(src, token_end(src, cursor))->Ok_0;
            let joined = |rhs: ExprView|
                ExprView::BinaryOp { op, lhs: Box::new(lhs), rhs: Box::new(rhs) };
            parse_binary(src, lhs, min_prec, cursor) == (match peek(src, after) {
                TokenView::Operator(ahead) => if ahead.is_binary_op() && op.precedence()
                    < ahead.precedence() {
                    match parse_binary(src, operand, op.precedence() + 1, after) {
                        Ok((rhs, next)) => parse_binary(src, joined(rhs), min_prec, next),
                        Err(e) => Err(e),
                    }
                } else {
                    parse_binary(src, joined(operand), min_prec, after)
                },
                _ => parse_binary(src, joined(operand), min_prec, after),
            })
        }),
{
    let op = peek(src, cursor)->Operator_0;
    let after_op = token_end(src, cursor);
    let (operand, after) = parse_primary(src, after_op)->Ok_0;
    lemma_lex_progress(src, cursor);
    lemma_primary_moves_forward(src, after_op);
    lemma_tighter_moves_forward(src, op, operand, after);
    lemma_tighter_is_one_step(src, op, operand, after);
}

/// A statement that is parsed has the shape that its first token asks
/// for: a prototype and a body after `def`, a prototype alone after
/// `extern`, a body alone otherwise. So it is never without both.
pub proof fn lemma_statement_shape(src: Seq<u8>, cursor: int)
    ensures
        parse_statement(src, cursor) matches Ok(Some((function, _))) ==> {
            &&& function.well_shaped()
            &&& function.is_definition() <==> peek(src, cursor) == TokenView::Def
            &&& function.is_declaration() <==> peek(src, cursor) == TokenView::Extern
            &&& function.is_expression() <==> peek(src, cursor) != TokenView::Def && peek(
                src,
                cursor,
            ) != TokenView::Extern
        },
{
}

/// At the end of the input there is no statement, and only there: in any
/// other place there is a statement or an error.
pub proof fn lemma_no_statement_at_end_only(src: Seq<u8>, cursor: int)
    ensures
        parse_statement(src, cursor) == Ok::<Option<(FunctionView, int)>, ParseErrorView>(None)
            <==> peek(src, cursor) == TokenView::Eof,
{
}

/// Every name in an operand is a word.
pub proof fn lemma_primary_is_well_named(src: Seq<u8>, cursor: int)
    ensures
        parse_primary(src, cursor) matches Ok((tree, _)) ==> tree.well_named(),
    decreases src.len() - cursor, 0int,
{
    let after = token_end(src, cursor);
    lemma_lex_progress(src, cursor);
    lemma_identifier_is_word(src, cursor);
    if advance(src, cursor) is Ok {
        match peek(src, cursor) {
            TokenView::LeftParen => lemma_expr_is_well_named(src, after),
            TokenView::Identifier(name) => lemma_named_is_well_named(src, name, after),
            TokenView::If => lemma_conditional_is_well_named(src, after),
            _ => {},
        }
    }
}

/// Every name in a conditional is a word.
pub proof fn lemma_conditional_is_well_named(src: Seq<u8>, cursor: int)
    ensures
        parse_conditional(src, cursor) matches Ok((tree, _)) ==> tree.well_named(),
    decreases src.len() - cursor, 2int,
{
    lemma_expr_is_well_named(src, cursor);
    if let Ok((_, at_then)) = onward(src, cursor, parse_expr(src, cursor)) {
        lemma_lex_progress(src, at_then);
        if peek(src, at_then) == TokenView::Then {
            let after_then = token_end(src, at_then);
            lemma_expr_is_well_named(src, after_then);
            if let Ok((_, at_else)) = onward(src, after_then, parse_expr(src, after_then)) {
                lemma_lex_progress(src, at_else);
                if peek(src, at_else) == TokenView::Else {
                    lemma_expr_is_well_named(src, token_end(src, at_else));
                }
            }
        }
    }
}

/// Every name in what follows a name that is a word is a word.
pub proof fn lemma_named_is_well_named(src: Seq<u8>, name: Seq<u8>, cursor: int)
    requires
        is_word(name),
    ensures
        parse_named(src, name, cursor) matches Ok((tree, _)) ==> tree.well_named(),
    decreases src.len() - cursor, 3int,
{
    lemma_lex_progress(src, cursor);
    if peek(src, cursor) == TokenView::LeftParen {
        lemma_arguments_are_well_named(src, name, Seq::empty(), token_end(src, cursor));
    }
}

/// Every name in a call is a word, if the callee's name and the names in
/// the arguments before are.
pub proof fn lemma_arguments_are_well_named(
    src: Seq<u8>,
    callee: Seq<u8>,
    args: Seq<ExprView>,
    cursor: int,
)
    requires
        is_word(callee),
        forall|i: int| 0 <= i < args.len() ==> (#[trigger] args[i]).well_named(),
    ensures
        parse_arguments(src, callee, args, cursor) matches Ok((tree, _)) ==> tree.well_named(),
    decreases src.len() - cursor, 2int,
{
    lemma_expr_is_well_named(src, cursor);
    if let Ok((arg, at_separator)) = onward(src, cursor, parse_expr(src, cursor)) {
        lemma_lex_progress(src, at_separator);
        if advance(src, at_separator) is Ok && peek(src, at_separator) == TokenView::Comma {
            lemma_arguments_are_well_named(
                src,
                callee,
                args.push(arg),
                token_end(src, at_separator),
            );
        }
    }
}

/// Every name in an expression is a word.
pub proof fn lemma_expr_is_well_named(src: Seq<u8>, cursor: int)
    ensures
        parse_expr(src, cursor) matches Ok((tree, _)) ==> tree.well_named(),
    decreases src.len() - cursor, 1int,
{
    lemma_primary_is_well_named(src, cursor);
    if let Ok((lhs, after)) = onward(src, cursor, parse_primary(src, cursor)) {
        lemma_binary_is_well_named(src, lhs, 0, after);
    }
}

/// Every name in what grows from `lhs` is a word, if every name in `lhs`
/// is.
pub proof fn lemma_binary_is_well_named(src: Seq<u8>, lhs: ExprView, min_prec: int, cursor: int)
    requires
        lhs.well_named(),
    ensures
        parse_binary(src, lhs, min_prec, cursor) matches Ok((tree, _)) ==> tree.well_named(),
    decreases src.len() - cursor, 0int,
{
    if let TokenView::Operator(op) = peek(src, cursor) {
        if op.precedence() >= min_prec && advance(src, cursor) is Ok {
            let after_op = token_end(src, cursor);
            lemma_lex_progress(src, cursor);
            lemma_primary_is_well_named(src, after_op);
            if let Ok((operand, after_operand)) = onward(
                src,
                after_op,
                parse_primary(src, after_op),
            ) {
                lemma_tighter_is_well_named(src, op, operand, after_operand);
                if let Ok((rhs, next)) = onward(
                    src,
                    after_operand,
                    parse_tighter(src, op, operand, after_operand),
                ) {
                    lemma_binary_is_well_named(
                        src,
                        ExprView::BinaryOp { op, lhs: Box::new(lhs), rhs: Box::new(rhs) },
                        min_prec,
                        next,
                    );
                }
            }
        }
    }
}

/// Every name in a right operand that has grown is a word, if every name
/// in it was before.
pub proof fn lemma_tighter_is_well_named(src: Seq<u8>, op: Operator, rhs: ExprView, cursor: int)
    requires
        rhs.well_named(),
    ensures
        parse_tighter(src, op, rhs, cursor) matches Ok((tree, _)) ==> tree.well_named(),
    decreases src.len() - cursor, 1int,
{
    if let TokenView::Operator(ahead) = peek(src, cursor) {
        if ahead.is_binary_op() && op.precedence() < ahead.precedence() {
            lemma_lex_progress(src, cursor);
            lemma_binary_is_well_named(src, rhs, op.precedence() + 1, cursor);
            if let Ok((grown, next)) = onward(
                src,
                cursor + 1,
                parse_binary(src, rhs, op.precedence() + 1, cursor),
            ) {
                lemma_tighter_is_well_named(src, op, grown, next);
            }
        }
    }
}

/// Every parameter name is a word, if those before are.
pub proof fn lemma_parameters_are_words(src: Seq<u8>, params: Seq<Seq<u8>>, cursor: int)
    requires
        forall|i: int| 0 <= i < params.len() ==> is_word(#[trigger] params[i]),
    ensures
        parse_parameters(src, params, cursor) matches Ok((all, _)) ==> forall|i: int|
            0 <= i < all.len() ==> is_word(#[trigger] all[i]),
    decreases src.len() - cursor,
{
    lemma_lex_progress(src, cursor);
    lemma_identifier_is_word(src, cursor);
    if advance(src, cursor) is Ok {
        let after = token_end(src, cursor);
        match peek(src, cursor) {
            TokenView::Comma => lemma_parameters_are_words(src, params, after),
            TokenView::Identifier(name) => lemma_parameters_are_words(
                src,
                params.push(name),
                after,
            ),
            _ => {},
        }
    }
}

/// Every name in a statement is a word: a letter followed by letters and
/// digits. So every name is ASCII, and well-formed UTF-8
/// (`lemma_word_is_utf8`).
pub proof fn lemma_statement_is_well_named(src: Seq<u8>, cursor: int)
    ensures
        parse_statement(src, cursor) matches Ok(Some((function, _))) ==> function.well_named(),
{
    lemma_expr_is_well_named(src, cursor);
    let at_prototype = token_end(src, cursor);
    let at_paren = token_end(src, at_prototype);
    lemma_identifier_is_word(src, at_prototype);
    lemma_parameters_are_words(src, Seq::empty(), token_end(src, at_paren));
    if let Ok((_, at_body)) = parse_prototype(src, at_prototype) {
        lemma_expr_is_well_named(src, at_body);
    }
}

} // verus!
