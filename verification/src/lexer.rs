//! The scanner: a forward-only reader of a byte buffer that hands out one
//! token at a time, together with the text it read for it, blanks left out.

use crate::error::LexError;
use crate::operator::Operator;
use crate::token::{Token, TokenView};
use crate::util::{
    alnum_byte, alpha_byte, digit_byte, is_alnum, is_alpha, is_digit, is_space, is_word,
    space_byte,
};
use vstd::prelude::*;

verus! {

/// The byte at `pos`, or zero where `pos` is outside the source. Zero is
/// the mark of the end of the input, so a zero byte inside the source ends
/// it too.
pub open spec fn byte_at(src: Seq<u8>, pos: int) -> u8 {
    if 0 <= pos < src.len() {
        src[pos]
    } else {
        0
    }
}

/// The end of the longest run of bytes of one class that starts at `pos`.
pub open spec fn run_end(src: Seq<u8>, pos: int, class: spec_fn(u8) -> bool) -> int
    decreases src.len() - pos,
{
    if 0 <= pos < src.len() && class(src[pos]) {
        run_end(src, pos + 1, class)
    } else {
        pos
    }
}

/// Where the blanks that start at `pos` end.
pub open spec fn blanks_end(src: Seq<u8>, pos: int) -> int {
    run_end(src, pos, |c: u8| space_byte(c))
}

/// Where the digits that start at `pos` end.
pub open spec fn digits_end(src: Seq<u8>, pos: int) -> int {
    run_end(src, pos, |c: u8| digit_byte(c))
}

/// Where the letters and digits that start at `pos` end.
pub open spec fn word_end(src: Seq<u8>, pos: int) -> int {
    run_end(src, pos, |c: u8| alnum_byte(c))
}

/// The number that a string of decimal digits denotes.
pub open spec fn decimal_value(digits: Seq<u8>) -> nat
    decreases digits.len(),
{
    if digits.len() == 0 {
        0
    } else {
        decimal_value(digits.drop_last()) * 10 + (digits.last() - 48) as nat
    }
}

/// A text with its blanks taken out, the other bytes in their order.
pub open spec fn residue(text: Seq<u8>) -> Seq<u8> {
    text.filter(|c: u8| !space_byte(c))
}

/// The token that a word of letters and digits stands for: one of the five
/// keywords `def`, `extern`, `if`, `then` and `else`, or else a name.
pub open spec fn word_token(word: Seq<u8>) -> TokenView {
    if word == seq![100u8, 101u8, 102u8] {
        TokenView::Def
    } else if word == seq![101u8, 120u8, 116u8, 101u8, 114u8, 110u8] {
        TokenView::Extern
    } else if word == seq![105u8, 102u8] {
        TokenView::If
    } else if word == seq![116u8, 104u8, 101u8, 110u8] {
        TokenView::Then
    } else if word == seq![101u8, 108u8, 115u8, 101u8] {
        TokenView::Else
    } else {
        TokenView::Identifier(word)
    }
}

/// The token that a single byte of punctuation stands for:
/// `(`, `)`, `*`, `+`, `,`, `-`, `/` and `<`.
pub open spec fn punctuation(c: u8) -> Option<TokenView> {
    if c == 40 {
        Some(TokenView::LeftParen)
    } else if c == 41 {
        Some(TokenView::RightParen)
    } else if c == 42 {
        Some(TokenView::Operator(Operator::Mul))
    } else if c == 43 {
        Some(TokenView::Operator(Operator::Add))
    } else if c == 44 {
        Some(TokenView::Comma)
    } else if c == 45 {
        Some(TokenView::Operator(Operator::Sub))
    } else if c == 47 {
        Some(TokenView::Operator(Operator::Div))
    } else if c == 60 {
        Some(TokenView::Operator(Operator::Less))
    } else {
        None
    }
}

/// The token that starts at `pos`, blanks skipped, and the position right
/// after it; or the reason why there is none.
///
/// At the end of the input, or at a zero byte, the token is `Eof` and the
/// position stays before that byte. A run of digits that denotes more than
/// `usize::MAX` is rejected.
pub open spec fn lex(src: Seq<u8>, pos: int) -> Result<(TokenView, int), LexError> {
    let start = blanks_end(src, pos);
    let c = byte_at(src, start);
    if c == 0 {
        Ok((TokenView::Eof, start))
    } else if digit_byte(c) {
        let end = digits_end(src, start);
        let value = decimal_value(src.subrange(start, end));
        if value <= usize::MAX {
            Ok((TokenView::Number(value as usize), end))
        } else {
            Err(LexError::NumberTooLarge)
        }
    } else if alpha_byte(c) {
        let end = word_end(src, start);
        Ok((word_token(src.subrange(start, end)), end))
    } else {
        match punctuation(c) {
            Some(token) => Ok((token, start + 1)),
            None => Err(LexError::UnexpectedByte(c)),
        }
    }
}

/// A run ends inside the source, holds only bytes of its class, and is not
/// followed by one.
pub proof fn lemma_run_end(src: Seq<u8>, pos: int, class: spec_fn(u8) -> bool)
    requires
        0 <= pos <= src.len(),
    ensures
        pos <= run_end(src, pos, class) <= src.len(),
        forall|i: int| pos <= i < run_end(src, pos, class) ==> class(#[trigger] src[i]),
        run_end(src, pos, class) < src.len() ==> !class(src[run_end(src, pos, class)]),
    decreases src.len() - pos,
{
    if pos < src.len() && class(src[pos]) {
        lemma_run_end(src, pos + 1, class);
    }
}

/// A run is the same from any position inside it.
pub proof fn lemma_run_end_from_inside(
    src: Seq<u8>,
    pos: int,
    mid: int,
    class: spec_fn(u8) -> bool,
)
    requires
        0 <= pos <= mid <= src.len(),
        forall|i: int| pos <= i < mid ==> class(#[trigger] src[i]),
    ensures
        run_end(src, pos, class) == run_end(src, mid, class),
    decreases mid - pos,
{
    if pos < mid {
        lemma_run_end_from_inside(src, pos + 1, mid, class);
    }
}

/// Taking the blanks out of a text that ends in `c` either drops `c` or
/// keeps it at the end.
pub proof fn lemma_residue_push(text: Seq<u8>, c: u8)
    ensures
        residue(text.push(c)) == if space_byte(c) {
            residue(text)
        } else {
            residue(text).push(c)
        },
{
    reveal(Seq::filter);
    assert(text.push(c).drop_last() == text);
}

/// Taking the blanks out of two texts in a row is taking them out of each.
pub proof fn lemma_residue_concat(src: Seq<u8>, from: int, mid: int, to: int)
    requires
        0 <= from <= mid <= to <= src.len(),
    ensures
        residue(src.subrange(from, to)) == residue(src.subrange(from, mid)) + residue(
            src.subrange(mid, to),
        ),
{
    assert(src.subrange(from, to) == src.subrange(from, mid) + src.subrange(mid, to));
    Seq::filter_distributes_over_add(
        src.subrange(from, mid),
        src.subrange(mid, to),
        |c: u8| !space_byte(c),
    );
}

/// No blank is left in a residue, so none is ever part of a token's text.
pub proof fn lemma_residue_has_no_blank(text: Seq<u8>)
    ensures
        forall|i: int| 0 <= i < residue(text).len() ==> !space_byte(#[trigger] residue(text)[i]),
{
    let keep = |c: u8| !space_byte(c);
    assert forall|i: int| 0 <= i < residue(text).len() implies !space_byte(
        #[trigger] residue(text)[i],
    ) by {
        text.lemma_filter_pred(keep, i);
    }
}

/// The value of a string of digits is at least the value of each of its
/// prefixes.
pub proof fn lemma_decimal_value_prefix(digits: Seq<u8>, n: int)
    requires
        0 <= n <= digits.len(),
        forall|i: int| 0 <= i < digits.len() ==> digit_byte(#[trigger] digits[i]),
    ensures
        decimal_value(digits.subrange(0, n)) <= decimal_value(digits),
    decreases digits.len() - n,
{
    if n == digits.len() {
        assert(digits.subrange(0, n) == digits);
    } else {
        let longer = digits.subrange(0, n + 1);
        assert(longer.drop_last() == digits.subrange(0, n));
        lemma_decimal_value_prefix(digits, n + 1);
    }
}

/// Lexing moves forward and stays inside the source, and every token but
/// `Eof` takes at least one byte of it. Outside the source there is only
/// `Eof`.
pub proof fn lemma_lex_progress(src: Seq<u8>, pos: int)
    ensures
        lex(src, pos) matches Ok((token, end)) ==> {
            &&& pos <= end
            &&& 0 <= pos <= src.len() ==> end <= src.len()
            &&& token != TokenView::Eof ==> 0 <= pos < end <= src.len()
        },
{
    if 0 <= pos <= src.len() {
        let start = blanks_end(src, pos);
        lemma_run_end(src, pos, |c: u8| space_byte(c));
        lemma_run_end(src, start, |c: u8| digit_byte(c));
        lemma_run_end(src, start, |c: u8| alnum_byte(c));
    }
}

/// Blanks before a token change nothing: lexing from any position within
/// the blanks gives the same token and the same end.
pub proof fn lemma_lex_skips_blanks(src: Seq<u8>, pos: int, mid: int)
    requires
        0 <= pos <= mid <= blanks_end(src, pos),
        mid <= src.len(),
    ensures
        lex(src, mid) == lex(src, pos),
{
    lemma_run_end(src, pos, |c: u8| space_byte(c));
    lemma_run_end_from_inside(src, pos, mid, |c: u8| space_byte(c));
}

/// A text of blanks has nothing left when the blanks are taken out.
pub proof fn lemma_residue_of_blanks(text: Seq<u8>)
    requires
        forall|i: int| 0 <= i < text.len() ==> space_byte(#[trigger] text[i]),
    ensures
        residue(text) == Seq::<u8>::empty(),
    decreases text.len(),
{
    reveal(Seq::filter);
    if text.len() > 0 {
        lemma_residue_of_blanks(text.drop_last());
    }
}

/// A text without blanks is left as it is when the blanks are taken out.
pub proof fn lemma_residue_of_solid_text(text: Seq<u8>)
    requires
        forall|i: int| 0 <= i < text.len() ==> !space_byte(#[trigger] text[i]),
    ensures
        residue(text) == text,
    decreases text.len(),
{
    reveal(Seq::filter);
    if text.len() > 0 {
        lemma_residue_of_solid_text(text.drop_last());
    }
}

/// The text read for a token is the token's own bytes: the blanks before
/// it are no part of it, and it holds none.
pub proof fn lemma_token_text(src: Seq<u8>, pos: int)
    requires
        0 <= pos <= src.len(),
    ensures
        lex(src, pos) matches Ok((_, end)) ==> residue(src.subrange(pos, end)) == src.subrange(
            blanks_end(src, pos),
            end,
        ),
{
    if let Ok((_, end)) = lex(src, pos) {
        let start = blanks_end(src, pos);
        lemma_run_end(src, pos, |c: u8| space_byte(c));
        lemma_run_end(src, start, |c: u8| digit_byte(c));
        lemma_run_end(src, start, |c: u8| alnum_byte(c));
        lemma_residue_concat(src, pos, start, end);
        lemma_residue_of_blanks(src.subrange(pos, start));
        lemma_residue_of_solid_text(src.subrange(start, end));
    }
}

/// The name in an `Identifier` token is a word.
pub proof fn lemma_identifier_is_word(src: Seq<u8>, pos: int)
    ensures
        lex(src, pos) matches Ok((TokenView::Identifier(name), _)) ==> is_word(name),
{
    if 0 <= pos <= src.len() {
        let start = blanks_end(src, pos);
        lemma_run_end(src, pos, |c: u8| space_byte(c));
        lemma_run_end(src, start, |c: u8| alnum_byte(c));
    }
}

/// Once the end of the input has been reached it is reached again: from
/// where `Eof` was found, `Eof` is found at the same place, and no text is
/// read for it.
pub proof fn lemma_eof_is_final(src: Seq<u8>, pos: int)
    requires
        0 <= pos <= src.len(),
        lex(src, pos) matches Ok((token, _)) && token == TokenView::Eof,
    ensures
        lex(src, pos) matches Ok((_, end)) && {
            &&& lex(src, end) == lex(src, pos)
            &&& residue(src.subrange(pos, end)) == Seq::<u8>::empty()
            &&& residue(src.subrange(end, end)) == Seq::<u8>::empty()
        },
{
    lemma_run_end(src, pos, |c: u8| space_byte(c));
    lemma_token_text(src, pos);
}

/// What the scanner holds, as mathematical values.
pub ghost struct LexerView {
    /// The whole input.
    pub source: Seq<u8>,
    /// How many bytes of it have been read.
    pub position: int,
    /// The bytes read since the last token was handed out, blanks left out.
    pub pending: Seq<u8>,
}

/// A scanner over a source that it borrows.
pub struct Lexer<'a> {
    source: &'a Vec<u8>,
    index: usize,
    parsed_buffer: Vec<u8>,
}

impl<'a> View for Lexer<'a> {
    type V = LexerView;

    closed spec fn view(&self) -> LexerView {
        LexerView {
            source: self.source@,
            position: self.index as int,
            pending: self.parsed_buffer@,
        }
    }
}

/// The token for a word of letters and digits.
fn classify_word(word: Vec<u8>) -> (token: Token)
    ensures
        token@ == word_token(word@),
{
    let n = word.len();
    if n == 3 && word[0] == 100 && word[1] == 101 && word[2] == 102 {
        assert(word@ == seq![100u8, 101u8, 102u8]);
        Token::Def
    } else if n == 6 && word[0] == 101 && word[1] == 120 && word[2] == 116 && word[3] == 101
        && word[4] == 114 && word[5] == 110 {
        assert(word@ == seq![101u8, 120u8, 116u8, 101u8, 114u8, 110u8]);
        Token::Extern
    } else if n == 2 && word[0] == 105 && word[1] == 102 {
        assert(word@ == seq![105u8, 102u8]);
        Token::If
    } else if n == 4 && word[0] == 116 && word[1] == 104 && word[2] == 101 && word[3] == 110 {
        assert(word@ == seq![116u8, 104u8, 101u8, 110u8]);
        Token::Then
    } else if n == 4 && word[0] == 101 && word[1] == 108 && word[2] == 115 && word[3] == 101 {
        assert(word@ == seq![101u8, 108u8, 115u8, 101u8]);
        Token::Else
    } else {
        Token::Identifier(word)
    }
}

impl<'a> Lexer<'a> {
    /// The scanner never reads past the end of its source.
    pub open spec fn wf(&self) -> bool {
        0 <= self@.position <= self@.source.len()
    }

    /// A scanner at the start of `source`, with nothing read.
    pub fn new(source: &'a Vec<u8>) -> (lexer: Lexer<'a>)
        ensures
            lexer.wf(),
            lexer@ == (LexerView { source: source@, position: 0, pending: Seq::empty() }),
    {
        Lexer { source, index: 0, parsed_buffer: Vec::new() }
    }

    /// Reads one byte, keeping it for the text of the next token unless it
    /// is a blank. At the end of the source nothing is read and the result
    /// is zero.
    fn consume_char(&mut self) -> (c: u8)
        requires
            old(self).wf(),
        ensures
            final(self).wf(),
            final(self)@.source == old(self)@.source,
            c == byte_at(old(self)@.source, old(self)@.position),
            old(self)@.position < old(self)@.source.len() ==> {
                &&& final(self)@.position == old(self)@.position + 1
                &&& final(self)@.pending == if space_byte(c) {
                    old(self)@.pending
                } else {
                    old(self)@.pending.push(c)
                }
            },
            old(self)@.position >= old(self)@.source.len() ==> final(self)@ == old(self)@,
    {
        if self.index < self.source.len() {
            let c = self.source[self.index];
            if !is_space(&c) {
                self.parsed_buffer.push(c);
            }
            self.index += 1;
            c
        } else {
            0
        }
    }

    /// The next byte, not yet read; zero at the end of the source.
    fn look_ahead(&self) -> (c: u8)
        requires
            self.wf(),
        ensures
            c == byte_at(self@.source, self@.position),
    {
        if self.index < self.source.len() {
            self.source[self.index]
        } else {
            0
        }
    }

    /// Reads one byte of punctuation and gives its token. Any other byte is
    /// left unread and reported.
    fn emit_op(&mut self) -> (r: Result<Token, LexError>)
        requires
            old(self).wf(),
            byte_at(old(self)@.source, old(self)@.position) != 0,
        ensures
            final(self).wf(),
            final(self)@.source == old(self)@.source,
            match punctuation(byte_at(old(self)@.source, old(self)@.position)) {
                Some(token) => {
                    &&& r matches Ok(t)
                    &&& t@ == token
                    &&& final(self)@.position == old(self)@.position + 1
                    &&& final(self)@.pending == old(self)@.pending.push(
                        byte_at(old(self)@.source, old(self)@.position),
                    )
                },
                None => {
                    &&& r == Err::<Token, LexError>(
                        LexError::UnexpectedByte(
                            byte_at(old(self)@.source, old(self)@.position),
                        ),
                    )
                    &&& final(self)@ == old(self)@
                },
            },
    {
        let c = self.look_ahead();
        let token = match c {
            40 => Token::LeftParen,
            41 => Token::RightParen,
            42 => Token::Operator(Operator::Mul),
            43 => Token::Operator(Operator::Add),
            44 => Token::Comma,
            45 => Token::Operator(Operator::Sub),
            47 => Token::Operator(Operator::Div),
            60 => Token::Operator(Operator::Less),
            _ => {
                return Err(LexError::UnexpectedByte(c));
            },
        };
        self.consume_char();
        Ok(token)
    }

    /// Goes back to an earlier position, dropping what was read since.
    fn rewind(&mut self, index: usize, kept: usize)
        requires
            index <= old(self)@.source.len(),
            kept <= old(self)@.pending.len(),
        ensures
            final(self).wf(),
            final(self)@ == (LexerView {
                source: old(self)@.source,
                position: index as int,
                pending: old(self)@.pending.subrange(0, kept as int),
            }),
    {
        self.index = index;
        self.parsed_buffer.truncate(kept);
    }

    /// Hands out the text read since the last token, and forgets it.
    pub fn pop_parsed_buffer(&mut self) -> (text: Vec<u8>)
        requires
            old(self).wf(),
        ensures
            final(self).wf(),
            text@ == old(self)@.pending,
            final(self)@ == (LexerView { pending: Seq::empty(), ..old(self)@ }),
    {
        let mut text: Vec<u8> = Vec::new();
        core::mem::swap(&mut self.parsed_buffer, &mut text);
        text
    }

    /// The next token and the text read for it, blanks left out.
    ///
    /// On success the scanner stands right after the token. On failure it
    /// stays where it was, so that asking again gives the same error.
    pub fn emit_token(&mut self) -> (r: Result<(Token, Vec<u8>), LexError>)
        requires
            old(self).wf(),
        ensures
            final(self).wf(),
            final(self)@.source == old(self)@.source,
            match lex(old(self)@.source, old(self)@.position) {
                Ok((token, end)) => {
                    &&& r matches Ok((t, text))
                    &&& t@ == token
                    &&& text@ == old(self)@.pending + residue(
                        old(self)@.source.subrange(old(self)@.position, end),
                    )
                    &&& final(self)@.position == end
                    &&& final(self)@.pending == Seq::<u8>::empty()
                },
                Err(e) => r == Err::<(Token, Vec<u8>), LexError>(e) && final(self)@ == old(self)@,
            },
    {
        let ghost src = self@.source;
        let ghost pos = self@.position;
        let ghost pending = self@.pending;
        let begin = self.index;
        let kept = self.parsed_buffer.len();
        let mut c = self.look_ahead();
        while is_space(&c)
            invariant
                self.wf(),
                self@.source == src,
                0 <= pos <= self@.position <= src.len(),
                c == byte_at(src, self@.position),
                forall|i: int| pos <= i < self@.position ==> space_byte(#[trigger] src[i]),
                self@.pending == pending + residue(src.subrange(pos, self@.position)),
            decreases src.len() - self@.position,
        {
            proof {
                let here = self@.position;
                assert(src.subrange(pos, here + 1) == src.subrange(pos, here).push(src[here]));
                lemma_residue_push(src.subrange(pos, here), src[here]);
            }
            self.consume_char();
            c = self.look_ahead();
        }
        let ghost start = self@.position;
        proof {
            lemma_run_end_from_inside(src, pos, start, |c: u8| space_byte(c));
        }
        let token = if c == 0 {
            Token::Eof
        } else if is_digit(&c) {
            let mut number: usize = 0;
            let mut d = c;
            while is_digit(&d)
                invariant
                    self.wf(),
                    self@.source == src,
                    src == old(self)@.source,
                    pos == old(self)@.position,
                    pending == old(self)@.pending,
                    pos <= start <= self@.position <= src.len(),
                    begin == pos,
                    kept == pending.len(),
                    d == byte_at(src, self@.position),
                    forall|i: int| start <= i < self@.position ==> digit_byte(#[trigger] src[i]),
                    self@.pending == pending + residue(src.subrange(pos, self@.position)),
                    number == decimal_value(src.subrange(start, self@.position)),
                    start == blanks_end(src, pos),
                    digit_byte(byte_at(src, start)),
                decreases src.len() - self@.position,
            {
                let ghost here = self@.position;
                let digit: usize = (d - 48) as usize;
                proof {
                    assert(src.subrange(pos, here + 1) == src.subrange(pos, here).push(src[here]));
                    lemma_residue_push(src.subrange(pos, here), src[here]);
                    assert(src.subrange(start, here + 1).drop_last() == src.subrange(start, here));
                }
                let next = match number.checked_mul(10) {
                    Some(tens) => tens.checked_add(digit),
                    None => None,
                };
                match next {
                    Some(n) => {
                        number = n;
                    },
                    None => {
                        proof {
                            let end = digits_end(src, start);
                            lemma_run_end(src, start, |c: u8| digit_byte(c));
                            let run = src.subrange(start, end);
                            assert(run.subrange(0, here + 1 - start) == src.subrange(
                                start,
                                here + 1,
                            ));
                            lemma_decimal_value_prefix(run, here + 1 - start);
                            assert((pending + residue(src.subrange(pos, here))).subrange(
                                0,
                                kept as int,
                            ) == pending);
                        }
                        self.rewind(begin, kept);
                        return Err(LexError::NumberTooLarge);
                    },
                }
                self.consume_char();
                d = self.look_ahead();
            }
            proof {
                lemma_run_end_from_inside(src, start, self@.position, |c: u8| digit_byte(c));
            }
            Token::Number(number)
        } else if is_alpha(&c) {
            let mut word: Vec<u8> = Vec::new();
            let mut a = c;
            while is_alnum(&a)
                invariant
                    self.wf(),
                    self@.source == src,
                    0 <= pos <= start <= self@.position <= src.len(),
                    a == byte_at(src, self@.position),
                    forall|i: int| start <= i < self@.position ==> alnum_byte(#[trigger] src[i]),
                    self@.pending == pending + residue(src.subrange(pos, self@.position)),
                    word@ == src.subrange(start, self@.position),
                decreases src.len() - self@.position,
            {
                let ghost here = self@.position;
                proof {
                    assert(src.subrange(pos, here + 1) == src.subrange(pos, here).push(src[here]));
                    lemma_residue_push(src.subrange(pos, here), src[here]);
                    assert(src.subrange(start, here + 1) == src.subrange(start, here).push(
                        src[here],
                    ));
                }
                self.consume_char();
                word.push(a);
                a = self.look_ahead();
            }
            proof {
                lemma_run_end_from_inside(src, start, self@.position, |c: u8| alnum_byte(c));
            }
            classify_word(word)
        } else {
            proof {
                assert(src.subrange(pos, start + 1) == src.subrange(pos, start).push(src[start]));
                lemma_residue_push(src.subrange(pos, start), src[start]);
            }
            match self.emit_op() {
                Ok(token) => token,
                Err(e) => {
                    proof {
                        assert((pending + residue(src.subrange(pos, start))).subrange(
                            0,
                            kept as int,
                        ) == pending);
                    }
                    self.rewind(begin, kept);
                    return Err(e);
                },
            }
        };
        let text = self.pop_parsed_buffer();
        Ok((token, text))
    }
}

} // verus!
