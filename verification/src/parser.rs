//! The parser: recursive descent with one token of lookahead, and
//! precedence climbing for binary expressions. Each of its steps is proved
//! to give what the rule of the grammar of the same name gives.

use crate::ast::{
    lemma_call_model, lemma_models_push, lemma_names_push, models, names, Expr, ExprView,
    Function, Prototype, PrototypeView,
};
use crate::error::{Expected, LexError, ParseError, ParseErrorView};
use crate::grammar::{
    advance, lemma_binary_moves_forward, lemma_expr_moves_forward, lemma_primary_moves_forward,
    lemma_rules_move_forward, lemma_statement_is_well_named, lemma_tighter_moves_forward,
    parse_arguments, parse_binary, parse_conditional, parse_expr, parse_named, parse_parameters,
    parse_parenthesised, parse_primary, parse_prototype, parse_statement, parse_tighter, peek,
    Parsed,
};
use crate::lexer::{lemma_lex_progress, lemma_residue_concat, lex, residue, Lexer};
use crate::token::{Token, TokenView};
use vstd::prelude::*;

verus! {

/// What the parser holds, as mathematical values.
pub ghost struct ParserView {
    /// The whole input.
    pub source: Seq<u8>,
    /// The cursor at which the parser stands: the token it looks at is the
    /// one that `lex` finds there.
    pub cursor: int,
    /// The text of the tokens taken since text was last handed out, blanks
    /// left out.
    pub consumed: Seq<u8>,
    /// The error that stopped the parser, if one did.
    pub failure: Option<ParseErrorView>,
}

/// A parser over the tokens of a scanner that it owns. It looks one token
/// ahead, and hands out one statement at a time.
pub struct Parser<'a> {
    lexer: Lexer<'a>,
    token: Token,
    parsed_buffer: Vec<u8>,
    buffer: Vec<u8>,
    failure: Option<ParseError>,
    cursor: Ghost<int>,
}

impl<'a> View for Parser<'a> {
    type V = ParserView;

    closed spec fn view(&self) -> ParserView {
        ParserView {
            source: self.lexer@.source,
            cursor: self.cursor@,
            consumed: self.parsed_buffer@,
            failure: match self.failure {
                Some(e) => Some(e@),
                None => None,
            },
        }
    }
}

impl<'a> Parser<'a> {
    /// The parser holds the token that stands at its cursor and the text
    /// read for it, and its scanner stands right after that token.
    spec fn looking(&self) -> bool {
        &&& self.lexer.wf()
        &&& self.lexer@.pending == Seq::<u8>::empty()
        &&& 0 <= self.cursor@ <= self.lexer@.position
        &&& lex(self.lexer@.source, self.cursor@) == Ok::<(TokenView, int), LexError>(
            (self.token@, self.lexer@.position),
        )
        &&& self.buffer@ == residue(
            self.lexer@.source.subrange(self.cursor@, self.lexer@.position),
        )
    }

    /// A parser that has not failed looks at the token at its cursor.
    pub closed spec fn wf(&self) -> bool {
        self.failure is None ==> self.looking()
    }

    /// The parser has not failed and can go on.
    spec fn ready(&self) -> bool {
        self.failure is None && self.looking()
    }

    /// From `pre` the parser has gone on to `to`, and has kept the text of
    /// what it passed.
    spec fn stepped(pre: Self, post: Self, to: int) -> bool {
        &&& post.ready()
        &&& post@.source == pre@.source
        &&& post@.cursor == to
        &&& pre@.cursor <= to <= pre@.source.len()
        &&& post@.consumed == pre@.consumed + residue(pre@.source.subrange(pre@.cursor, to))
    }

    /// The parser has done what `rule` says: it gives the rule's value and
    /// stands where the rule ends, or gives the rule's error.
    spec fn delivers(
        pre: Self,
        post: Self,
        r: Result<Expr, ParseError>,
        rule: Parsed<ExprView>,
    ) -> bool {
        &&& post@.source == pre@.source
        &&& match rule {
            Ok((value, to)) => r matches Ok(x) && x@ == value && Self::stepped(pre, post, to),
            Err(e) => r matches Err(x) && x@ == e,
        }
    }

    /// Two steps in a row are one step.
    proof fn lemma_stepped_twice(pre: Self, mid: Self, post: Self)
        requires
            pre.ready(),
            Self::stepped(pre, mid, mid@.cursor),
            Self::stepped(mid, post, post@.cursor),
        ensures
            Self::stepped(pre, post, post@.cursor),
    {
        lemma_residue_concat(pre@.source, pre@.cursor, mid@.cursor, post@.cursor);
        assert(post@.consumed =~= pre@.consumed + residue(
            pre@.source.subrange(pre@.cursor, post@.cursor),
        ));
    }

    /// A parser that looks at the first token after where `lexer` stands.
    /// Text that the scanner had read and not handed out becomes the start
    /// of the text of the first statement.
    pub fn new(lexer: Lexer<'a>) -> (r: Result<Parser<'a>, LexError>)
        requires
            lexer.wf(),
        ensures
            match lex(lexer@.source, lexer@.position) {
                Ok(_) => {
                    &&& r matches Ok(parser)
                    &&& parser.wf()
                    &&& parser@ == (ParserView {
                        source: lexer@.source,
                        cursor: lexer@.position,
                        consumed: lexer@.pending,
                        failure: None,
                    })
                },
                Err(e) => r matches Err(x) && x == e,
            },
    {
        let mut lexer = lexer;
        let ghost start = lexer@.position;
        let lead = lexer.pop_parsed_buffer();
        match lexer.emit_token() {
            Ok((token, buffer)) => {
                proof {
                    lemma_lex_progress(lexer@.source, start);
                }
                Ok(
                    Parser {
                        lexer,
                        token,
                        parsed_buffer: lead,
                        buffer,
                        failure: None,
                        cursor: Ghost(start),
                    },
                )
            },
            Err(e) => Err(e),
        }
    }

    /// Takes the token that the parser looks at, and looks at the next.
    fn consume_token(&mut self) -> (r: Result<Token, ParseError>)
        requires
            old(self).ready(),
        ensures
            final(self)@.source == old(self)@.source,
            match advance(old(self)@.source, old(self)@.cursor) {
                Ok(to) => {
                    &&& r matches Ok(t)
                    &&& t@ == peek(old(self)@.source, old(self)@.cursor)
                    &&& Self::stepped(*old(self), *final(self), to)
                },
                Err(e) => r matches Err(x) && x@ == e,
            },
    {
        let ghost next = self.lexer@.position;
        proof {
            lemma_lex_progress(self.lexer@.source, next);
        }
        match self.lexer.emit_token() {
            Err(e) => Err(ParseError::Lex(e)),
            Ok(pair) => {
                let mut token = pair.0;
                let mut text = pair.1;
                core::mem::swap(&mut self.token, &mut token);
                core::mem::swap(&mut self.buffer, &mut text);
                self.parsed_buffer.append(&mut text);
                self.cursor = Ghost(next);
                Ok(token)
            },
        }
    }

    /// The token at the cursor.
    fn look_ahead(&self) -> (token: &Token)
        requires
            self.ready(),
        ensures
            token@ == peek(self@.source, self@.cursor),
    {
        &self.token
    }

    /// An operand: a number, a parenthesised expression, a name, a call or
    /// a conditional.
    fn parse_primary(&mut self) -> (r: Result<Expr, ParseError>)
        requires
            old(self).ready(),
        ensures
            Self::delivers(
                *old(self),
                *final(self),
                r,
                parse_primary(old(self)@.source, old(self)@.cursor),
            ),
        decreases old(self)@.source.len() - old(self)@.cursor, 0int,
    {
        let ghost src = self@.source;
        let ghost start = self@.cursor;
        let ghost pre = *self;
        proof {
            lemma_lex_progress(src, start);
        }
        let token = match self.consume_token() {
            Ok(token) => token,
            Err(e) => {
                return Err(e);
            },
        };
        let ghost mid = *self;
        match token {
            Token::Number(value) => Ok(Expr::NumberLiteral(value)),
            Token::LeftParen => {
                let r = self.parse_parenthesised();
                proof {
                    if r is Ok {
                        Self::lemma_stepped_twice(pre, mid, *self);
                    }
                }
                r
            },
            Token::Identifier(name) => {
                let r = self.parse_named(name);
                proof {
                    if r is Ok {
                        Self::lemma_stepped_twice(pre, mid, *self);
                    }
                }
                r
            },
            Token::If => {
                let r = self.parse_conditional();
                proof {
                    if r is Ok {
                        Self::lemma_stepped_twice(pre, mid, *self);
                    }
                }
                r
            },
            other => Err(ParseError::Unexpected { expected: Expected::Primary, found: other }),
        }
    }

    /// After `(`: an expression and the `)` that closes it.
    fn parse_parenthesised(&mut self) -> (r: Result<Expr, ParseError>)
        requires
            old(self).ready(),
        ensures
            Self::delivers(
                *old(self),
                *final(self),
                r,
                parse_parenthesised(old(self)@.source, old(self)@.cursor),
            ),
        decreases old(self)@.source.len() - old(self)@.cursor, 2int,
    {
        let ghost pre = *self;
        let inner = match self.parse_expr() {
            Ok(inner) => inner,
            Err(e) => {
                return Err(e);
            },
        };
        let ghost mid = *self;
        match self.consume_token() {
            Err(e) => Err(e),
            Ok(Token::RightParen) => {
                proof {
                    Self::lemma_stepped_twice(pre, mid, *self);
                }
                Ok(inner)
            },
            Ok(other) => Err(
                ParseError::Unexpected { expected: Expected::RightParen, found: other },
            ),
        }
    }

    /// After `if`: the predicate, `then`, a branch, `else`, a branch.
    fn parse_conditional(&mut self) -> (r: Result<Expr, ParseError>)
        requires
            old(self).ready(),
        ensures
            Self::delivers(
                *old(self),
                *final(self),
                r,
                parse_conditional(old(self)@.source, old(self)@.cursor),
            ),
        decreases old(self)@.source.len() - old(self)@.cursor, 2int,
    {
        let ghost src = self@.source;
        let ghost pre = *self;
        let predicate = match self.parse_expr() {
            Ok(predicate) => predicate,
            Err(e) => {
                return Err(e);
            },
        };
        let ghost at_then = *self;
        match self.look_ahead() {
            Token::Then => {},
            other => {
                return Err(
                    ParseError::Unexpected { expected: Expected::Then, found: other.clone() },
                );
            },
        }
        match self.consume_token() {
            Ok(_) => {},
            Err(e) => {
                return Err(e);
            },
        }
        let ghost after_then = *self;
        proof {
            Self::lemma_stepped_twice(pre, at_then, after_then);
        }
        let then_branch = match self.parse_expr() {
            Ok(then_branch) => then_branch,
            Err(e) => {
                return Err(e);
            },
        };
        let ghost at_else = *self;
        proof {
            Self::lemma_stepped_twice(pre, after_then, at_else);
        }
        match self.look_ahead() {
            Token::Else => {},
            other => {
                return Err(
                    ParseError::Unexpected { expected: Expected::Else, found: other.clone() },
                );
            },
        }
        proof {
            lemma_lex_progress(src, at_else@.cursor);
        }
        match self.consume_token() {
            Ok(_) => {},
            Err(e) => {
                return Err(e);
            },
        }
        let ghost after_else = *self;
        proof {
            Self::lemma_stepped_twice(pre, at_else, after_else);
        }
        let else_branch = match self.parse_expr() {
            Ok(else_branch) => else_branch,
            Err(e) => {
                return Err(e);
            },
        };
        proof {
            Self::lemma_stepped_twice(pre, after_else, *self);
        }
        Ok(
            Expr::Conditional {
                predicate: Box::new(predicate),
                then_branch: Box::new(then_branch),
                else_branch: Box::new(else_branch),
            },
        )
    }

    /// After a name: the arguments of a call if `(` follows, else nothing.
    fn parse_named(&mut self, name: Vec<u8>) -> (r: Result<Expr, ParseError>)
        requires
            old(self).ready(),
        ensures
            Self::delivers(
                *old(self),
                *final(self),
                r,
                parse_named(old(self)@.source, name@, old(self)@.cursor),
            ),
        decreases old(self)@.source.len() - old(self)@.cursor, 3int,
    {
        let ghost src = self@.source;
        let ghost pre = *self;
        match self.look_ahead() {
            Token::LeftParen => {},
            _ => {
                return Ok(Expr::VariableRef(name));
            },
        }
        match self.consume_token() {
            Ok(_) => {},
            Err(e) => {
                return Err(e);
            },
        }
        let ghost inside = *self;
        let closes = match self.look_ahead() {
            Token::RightParen => true,
            _ => false,
        };
        if closes {
            match self.consume_token() {
                Ok(_) => {},
                Err(e) => {
                    return Err(e);
                },
            }
            let args: Vec<Expr> = Vec::new();
            proof {
                Self::lemma_stepped_twice(pre, inside, *self);
                lemma_call_model(name, args);
                assert(models(args@) =~= Seq::<ExprView>::empty());
            }
            Ok(Expr::Call { name, args })
        } else {
            let r = self.parse_arguments(name);
            proof {
                if r is Ok {
                    Self::lemma_stepped_twice(pre, inside, *self);
                }
            }
            r
        }
    }

    /// The arguments of a call to `name`, from the first one to the `)`.
    fn parse_arguments(&mut self, name: Vec<u8>) -> (r: Result<Expr, ParseError>)
        requires
            old(self).ready(),
        ensures
            Self::delivers(
                *old(self),
                *final(self),
                r,
                parse_arguments(
                    old(self)@.source,
                    name@,
                    Seq::empty(),
                    old(self)@.cursor,
                ),
            ),
        decreases old(self)@.source.len() - old(self)@.cursor, 2int,
    {
        let ghost src = self@.source;
        let ghost pre = *self;
        let mut args: Vec<Expr> = Vec::new();
        proof {
            assert(models(args@) =~= Seq::<ExprView>::empty());
        }
        loop
            invariant
                pre == *old(self),
                src == pre@.source,
                pre.ready(),
                Self::stepped(pre, *self, self@.cursor),
                parse_arguments(src, name@, models(args@), self@.cursor) == parse_arguments(
                    src,
                    name@,
                    Seq::empty(),
                    pre@.cursor,
                ),
            decreases src.len() - self@.cursor,
        {
            let ghost top = *self;
            let arg = match self.parse_expr() {
                Ok(arg) => arg,
                Err(e) => {
                    return Err(e);
                },
            };
            let ghost at_separator = *self;
            proof {
                Self::lemma_stepped_twice(pre, top, at_separator);
                lemma_models_push(args@, arg);
            }
            args.push(arg);
            match self.consume_token() {
                Err(e) => {
                    return Err(e);
                },
                Ok(Token::Comma) => {
                    proof {
                        Self::lemma_stepped_twice(pre, at_separator, *self);
                    }
                },
                Ok(Token::RightParen) => {
                    proof {
                        Self::lemma_stepped_twice(pre, at_separator, *self);
                        lemma_call_model(name, args);
                    }
                    return Ok(Expr::Call { name, args });
                },
                Ok(other) => {
                    return Err(ParseError::BadArgumentList { callee: name, found: other });
                },
            }
        }
    }

    /// The operators that follow `lhs`, as long as they bind at least as
    /// tightly as `precedence`.
    fn parse_binary_expr(&mut self, lhs: Expr, precedence: i8) -> (r: Result<Expr, ParseError>)
        requires
            old(self).ready(),
        ensures
            Self::delivers(
                *old(self),
                *final(self),
                r,
                parse_binary(old(self)@.source, lhs@, precedence as int, old(self)@.cursor),
            ),
        decreases old(self)@.source.len() - old(self)@.cursor, 0int,
    {
        let ghost src = self@.source;
        let ghost pre = *self;
        let ghost first = lhs@;
        let mut tree = lhs;
        loop
            invariant
                pre == *old(self),
                src == pre@.source,
                pre.ready(),
                first == lhs@,
                Self::stepped(pre, *self, self@.cursor),
                parse_binary(src, tree@, precedence as int, self@.cursor) == parse_binary(
                    src,
                    first,
                    precedence as int,
                    pre@.cursor,
                ),
            decreases src.len() - self@.cursor,
        {
            let ghost top = *self;
            let op = match self.look_ahead() {
                Token::Operator(op) => *op,
                _ => {
                    return Ok(tree);
                },
            };
            if precedence > op.precedence() {
                return Ok(tree);
            }
            proof {
                lemma_lex_progress(src, top@.cursor);
            }
            match self.consume_token() {
                Ok(_) => {},
                Err(e) => {
                    return Err(e);
                },
            }
            let ghost after_op = *self;
            proof {
                Self::lemma_stepped_twice(pre, top, after_op);
            }
            let mut rhs = match self.parse_primary() {
                Ok(rhs) => rhs,
                Err(e) => {
                    return Err(e);
                },
            };
            let ghost after_operand = *self;
            let ghost operand = rhs@;
            proof {
                Self::lemma_stepped_twice(pre, after_op, after_operand);
            }
            loop
                invariant
                    pre == *old(self),
                    src == pre@.source,
                    pre.ready(),
                    pre@.cursor < after_operand@.cursor <= self@.cursor,
                    first == lhs@,
                    Self::stepped(pre, *self, self@.cursor),
                    parse_tighter(src, op, operand, after_operand@.cursor) is Err
                        ==> parse_binary(src, first, precedence as int, pre@.cursor)
                        == parse_tighter(src, op, operand, after_operand@.cursor),
                    parse_tighter(src, op, rhs@, self@.cursor) == parse_tighter(
                        src,
                        op,
                        operand,
                        after_operand@.cursor,
                    ),
                ensures
                    parse_tighter(src, op, operand, after_operand@.cursor) == Ok::<
                        (ExprView, int),
                        ParseErrorView,
                    >((rhs@, self@.cursor)),
                decreases src.len() - self@.cursor,
            {
                let ghost here = *self;
                let ahead = match self.look_ahead() {
                    Token::Operator(ahead) => *ahead,
                    _ => {
                        break ;
                    },
                };
                if ahead.is_binary_op() && op < ahead {
                    proof {
                        lemma_binary_moves_forward(
                            src,
                            rhs@,
                            op.precedence() + 1,
                            here@.cursor,
                        );
                    }
                    rhs = match self.parse_binary_expr(rhs, op.precedence() + 1) {
                        Ok(rhs) => rhs,
                        Err(e) => {
                            return Err(e);
                        },
                    };
                    proof {
                        Self::lemma_stepped_twice(pre, here, *self);
                    }
                } else {
                    break ;
                }
            }
            tree = Expr::BinaryOp { op, lhs: Box::new(tree), rhs: Box::new(rhs) };
        }
    }

    /// An expression: an operand and the operators that follow it.
    fn parse_expr(&mut self) -> (r: Result<Expr, ParseError>)
        requires
            old(self).ready(),
        ensures
            Self::delivers(
                *old(self),
                *final(self),
                r,
                parse_expr(old(self)@.source, old(self)@.cursor),
            ),
        decreases old(self)@.source.len() - old(self)@.cursor, 1int,
    {
        let ghost pre = *self;
        let lhs = match self.parse_primary() {
            Ok(lhs) => lhs,
            Err(e) => {
                return Err(e);
            },
        };
        let ghost mid = *self;
        let r = self.parse_binary_expr(lhs, 0);
        proof {
            if r is Ok {
                Self::lemma_stepped_twice(pre, mid, *self);
            }
        }
        r
    }


    /// A prototype: a name, `(`, and then names and commas in any order up
    /// to `)`.
    fn parse_prototypes(&mut self) -> (r: Result<Prototype, ParseError>)
        requires
            old(self).ready(),
        ensures
            final(self)@.source == old(self)@.source,
            match parse_prototype(old(self)@.source, old(self)@.cursor) {
                Ok((value, to)) => r matches Ok(x) && x@ == value && Self::stepped(
                    *old(self),
                    *final(self),
                    to,
                ),
                Err(e) => r matches Err(x) && x@ == e,
            },
    {
        let ghost src = self@.source;
        let ghost pre = *self;
        let name = match self.consume_token() {
            Err(e) => {
                return Err(e);
            },
            Ok(Token::Identifier(name)) => name,
            Ok(other) => {
                return Err(
                    ParseError::Unexpected { expected: Expected::PrototypeName, found: other },
                );
            },
        };
        let ghost at_paren = *self;
        match self.consume_token() {
            Err(e) => {
                return Err(e);
            },
            Ok(Token::LeftParen) => {},
            Ok(other) => {
                return Err(
                    ParseError::Unexpected { expected: Expected::LeftParen, found: other },
                );
            },
        }
        let ghost inside = *self;
        let mut args: Vec<Vec<u8>> = Vec::new();
        proof {
            Self::lemma_stepped_twice(pre, at_paren, inside);
            assert(names(args@) =~= Seq::<Seq<u8>>::empty());
        }
        loop
            invariant
                pre == *old(self),
                src == pre@.source,
                pre.ready(),
                Self::stepped(pre, *self, self@.cursor),
                parse_parameters(src, names(args@), self@.cursor) == parse_parameters(
                    src,
                    Seq::empty(),
                    inside@.cursor,
                ),
                parse_prototype(src, pre@.cursor) == match parse_parameters(
                    src,
                    Seq::empty(),
                    inside@.cursor,
                ) {
                    Err(e) => Err::<(PrototypeView, int), ParseErrorView>(e),
                    Ok((params, end)) => Ok((PrototypeView { name: name@, args: params }, end)),
                },
            decreases src.len() - self@.cursor,
        {
            let ghost top = *self;
            proof {
                lemma_lex_progress(src, top@.cursor);
            }
            match self.consume_token() {
                Err(e) => {
                    return Err(e);
                },
                Ok(Token::Comma) => {
                    proof {
                        Self::lemma_stepped_twice(pre, top, *self);
                    }
                },
                Ok(Token::Identifier(arg)) => {
                    proof {
                        Self::lemma_stepped_twice(pre, top, *self);
                        lemma_names_push(args@, arg);
                    }
                    args.push(arg);
                },
                Ok(Token::RightParen) => {
                    proof {
                        Self::lemma_stepped_twice(pre, top, *self);
                    }
                    return Ok(Prototype { name, args });
                },
                Ok(other) => {
                    return Err(
                        ParseError::Unexpected { expected: Expected::Parameter, found: other },
                    );
                },
            }
        }
    }

    /// The parser has done what `parse_statement` says of a statement that
    /// is there: it gives the statement and stands where it ends, or gives
    /// the error.
    spec fn delivers_statement(pre: Self, post: Self, r: Result<Function, ParseError>) -> bool {
        &&& post@.source == pre@.source
        &&& match parse_statement(pre@.source, pre@.cursor) {
            Ok(Some((value, to))) => r matches Ok(x) && x@ == value && Self::stepped(pre, post, to),
            Ok(None) => false,
            Err(e) => r matches Err(x) && x@ == e,
        }
    }

    /// A definition: `def`, a prototype and the expression that is its
    /// body.
    fn parse_def(&mut self) -> (r: Result<Function, ParseError>)
        requires
            old(self).ready(),
            peek(old(self)@.source, old(self)@.cursor) == TokenView::Def,
        ensures
            Self::delivers_statement(*old(self), *final(self), r),
    {
        let ghost pre = *self;
        match self.consume_token() {
            Ok(_) => {},
            Err(e) => {
                return Err(e);
            },
        }
        let ghost at_prototype = *self;
        let prototype = match self.parse_prototypes() {
            Ok(prototype) => prototype,
            Err(e) => {
                return Err(e);
            },
        };
        let ghost at_body = *self;
        proof {
            Self::lemma_stepped_twice(pre, at_prototype, at_body);
        }
        let body = match self.parse_expr() {
            Ok(body) => body,
            Err(e) => {
                return Err(e);
            },
        };
        proof {
            Self::lemma_stepped_twice(pre, at_body, *self);
        }
        Ok(Function { prototype: Some(prototype), body: Some(body) })
    }

    /// A declaration of an outside function: `extern` and a prototype.
    fn parse_extern(&mut self) -> (r: Result<Function, ParseError>)
        requires
            old(self).ready(),
            peek(old(self)@.source, old(self)@.cursor) == TokenView::Extern,
        ensures
            Self::delivers_statement(*old(self), *final(self), r),
    {
        let ghost pre = *self;
        match self.consume_token() {
            Ok(_) => {},
            Err(e) => {
                return Err(e);
            },
        }
        let ghost at_prototype = *self;
        let prototype = match self.parse_prototypes() {
            Ok(prototype) => prototype,
            Err(e) => {
                return Err(e);
            },
        };
        proof {
            Self::lemma_stepped_twice(pre, at_prototype, *self);
        }
        Ok(Function { prototype: Some(prototype), body: None })
    }

    /// A bare expression, which stands as a function without a prototype.
    fn parse_top_level_expr(&mut self) -> (r: Result<Function, ParseError>)
        requires
            old(self).ready(),
            peek(old(self)@.source, old(self)@.cursor) != TokenView::Eof,
            peek(old(self)@.source, old(self)@.cursor) != TokenView::Def,
            peek(old(self)@.source, old(self)@.cursor) != TokenView::Extern,
        ensures
            Self::delivers_statement(*old(self), *final(self), r),
    {
        match self.parse_expr() {
            Ok(body) => Ok(Function { prototype: None, body: Some(body) }),
            Err(e) => Err(e),
        }
    }

    /// Hands out the text of the tokens taken since text was last handed
    /// out, and forgets it.
    pub fn pop_parsed_buffer(&mut self) -> (text: Vec<u8>)
        requires
            old(self).wf(),
        ensures
            final(self).wf(),
            text@ == old(self)@.consumed,
            final(self)@ == (ParserView { consumed: Seq::empty(), ..old(self)@ }),
    {
        let mut text: Vec<u8> = Vec::new();
        core::mem::swap(&mut self.parsed_buffer, &mut text);
        text
    }

    /// The next statement with the text it was read from, blanks left out;
    /// `None` at the end of the input.
    ///
    /// The first error stops the parser for good: the statement that failed
    /// is not handed out in part, and every later call gives the same error
    /// again. At the end of the input every later call gives `None` again.
    pub fn emit_node(&mut self) -> (r: Result<Option<(Function, Vec<u8>)>, ParseError>)
        requires
            old(self).wf(),
        ensures
            final(self).wf(),
            match old(self)@.failure {
                Some(e) => r matches Err(x) && x@ == e && final(self)@ == old(self)@,
                None => match parse_statement(old(self)@.source, old(self)@.cursor) {
                    Ok(None) => r matches Ok(None) && final(self)@ == old(self)@,
                    Ok(Some((function, to))) => {
                        &&& r matches Ok(Some((f, text)))
                        &&& f@ == function
                        &&& f@.well_shaped()
                        &&& f@.well_named()
                        &&& old(self)@.cursor < to <= old(self)@.source.len()
                        &&& text@ == old(self)@.consumed + residue(
                            old(self)@.source.subrange(old(self)@.cursor, to),
                        )
                        &&& final(self)@ == (ParserView {
                            source: old(self)@.source,
                            cursor: to,
                            consumed: Seq::empty(),
                            failure: None,
                        })
                    },
                    Err(e) => {
                        &&& r matches Err(x)
                        &&& x@ == e
                        &&& final(self)@ == (ParserView {
                            source: old(self)@.source,
                            cursor: old(self)@.cursor,
                            consumed: Seq::empty(),
                            failure: Some(e),
                        })
                    },
                },
            },
    {
        match &self.failure {
            Some(e) => {
                return Err(e.clone());
            },
            None => {},
        }
        let ghost pre = *self;
        proof {
            lemma_rules_move_forward(pre@.source, pre@.cursor);
            lemma_statement_is_well_named(pre@.source, pre@.cursor);
        }
        let parsed = match self.look_ahead() {
            Token::Eof => {
                return Ok(None);
            },
            Token::Def => self.parse_def(),
            Token::Extern => self.parse_extern(),
            _ => self.parse_top_level_expr(),
        };
        match parsed {
            Ok(function) => {
                let text = self.pop_parsed_buffer();
                Ok(Some((function, text)))
            },
            Err(e) => {
                self.failure = Some(e.clone());
                self.parsed_buffer = Vec::new();
                self.cursor = Ghost(pre@.cursor);
                Err(e)
            },
        }
    }
}

} // verus!
