use vstd::prelude::*;
use vstd::string::StrSliceExecFns;
use vstd::string::StringExecFns;
use crate::error::CompileError;

verus! {

/// The bytes that the lexer tells apart, each under the name of its
/// character.
pub const DIGIT_0: u8 = 48;

pub const DIGIT_9: u8 = 57;

pub const LOWER_A: u8 = 97;

pub const LOWER_Z: u8 = 122;

pub const UPPER_A: u8 = 65;

pub const UPPER_Z: u8 = 90;

pub const UNDERSCORE: u8 = 95;

pub const SPACE: u8 = 32;

pub const DOLLAR: u8 = 36;

pub const PLUS: u8 = 43;

pub const MINUS: u8 = 45;

pub const GREATER: u8 = 62;

pub const PERCENT: u8 = 37;

pub const SLASH: u8 = 47;

pub const STAR: u8 = 42;

pub const BAR: u8 = 124;

pub const AMPERSAND: u8 = 38;

pub const CARET: u8 = 94;

pub const TILDE: u8 = 126;

pub const EQUALS: u8 = 61;

pub const BANG: u8 = 33;

pub const LESS: u8 = 60;

pub const COMMA: u8 = 44;

pub const SEMICOLON: u8 = 59;

pub const COLON: u8 = 58;

pub const QUESTION: u8 = 63;

pub const PAREN_OPEN: u8 = 40;

pub const PAREN_CLOSE: u8 = 41;

pub const BRACE_OPEN: u8 = 123;

pub const BRACE_CLOSE: u8 = 125;

pub const LOWER_X: u8 = 120;

pub const LOWER_B: u8 = 98;

pub const TAB: u8 = 9;

pub const LINE_FEED: u8 = 10;

pub const FORM_FEED: u8 = 12;

pub const CARRIAGE_RETURN: u8 = 13;

/// A token of the source language.
#[derive(Debug, PartialEq, Eq)]
pub enum LexToken {
    Ident(String),
    Symbol(String),
    Number(i64),
    KeyMod,
    KeyOutput,
    KeyLet,
    KeyIf,
    KeyMatch,
    KeyConst,
    OpAdd,
    OpSub,
    OpMul,
    OpDiv,
    OpMod,
    OpPower,
    OpBitOr,
    OpBitAnd,
    OpBitXor,
    OpBitNot,
    OpNot,
    OpShiftLeft,
    OpShiftRight,
    OpCmpEq,
    OpCmpNeq,
    OpCmpGt,
    OpCmpLt,
    OpCmpGeq,
    OpCmpLeq,
    OpAssign,
    OpComma,
    OpSemicolon,
    OpColon,
    OpQuestion,
    OpMatchArrow,
    OpThinArrow,
    OpParenOpen,
    OpParenClose,
    OpBraceOpen,
    OpBraceClose,
}

/// The mathematical value of a token.
pub ghost enum Token {
    Ident(Seq<char>),
    Symbol(Seq<char>),
    Number(i64),
    KeyMod,
    KeyOutput,
    KeyLet,
    KeyIf,
    KeyMatch,
    KeyConst,
    OpAdd,
    OpSub,
    OpMul,
    OpDiv,
    OpMod,
    OpPower,
    OpBitOr,
    OpBitAnd,
    OpBitXor,
    OpBitNot,
    OpNot,
    OpShiftLeft,
    OpShiftRight,
    OpCmpEq,
    OpCmpNeq,
    OpCmpGt,
    OpCmpLt,
    OpCmpGeq,
    OpCmpLeq,
    OpAssign,
    OpComma,
    OpSemicolon,
    OpColon,
    OpQuestion,
    OpMatchArrow,
    OpThinArrow,
    OpParenOpen,
    OpParenClose,
    OpBraceOpen,
    OpBraceClose,
}

impl View for LexToken {
    type V = Token;

    open spec fn view(&self) -> Token {
        match *self {
            LexToken::Ident(s) => Token::Ident(s@),
            LexToken::Symbol(s) => Token::Symbol(s@),
            LexToken::Number(n) => Token::Number(n),
            LexToken::KeyMod => Token::KeyMod,
            LexToken::KeyOutput => Token::KeyOutput,
            LexToken::KeyLet => Token::KeyLet,
            LexToken::KeyIf => Token::KeyIf,
            LexToken::KeyMatch => Token::KeyMatch,
            LexToken::KeyConst => Token::KeyConst,
            LexToken::OpAdd => Token::OpAdd,
            LexToken::OpSub => Token::OpSub,
            LexToken::OpMul => Token::OpMul,
            LexToken::OpDiv => Token::OpDiv,
            LexToken::OpMod => Token::OpMod,
            LexToken::OpPower => Token::OpPower,
            LexToken::OpBitOr => Token::OpBitOr,
            LexToken::OpBitAnd => Token::OpBitAnd,
            LexToken::OpBitXor => Token::OpBitXor,
            LexToken::OpBitNot => Token::OpBitNot,
            LexToken::OpNot => Token::OpNot,
            LexToken::OpShiftLeft => Token::OpShiftLeft,
            LexToken::OpShiftRight => Token::OpShiftRight,
            LexToken::OpCmpEq => Token::OpCmpEq,
            LexToken::OpCmpNeq => Token::OpCmpNeq,
            LexToken::OpCmpGt => Token::OpCmpGt,
            LexToken::OpCmpLt => Token::OpCmpLt,
            LexToken::OpCmpGeq => Token::OpCmpGeq,
            LexToken::OpCmpLeq => Token::OpCmpLeq,
            LexToken::OpAssign => Token::OpAssign,
            LexToken::OpComma => Token::OpComma,
            LexToken::OpSemicolon => Token::OpSemicolon,
            LexToken::OpColon => Token::OpColon,
            LexToken::OpQuestion => Token::OpQuestion,
            LexToken::OpMatchArrow => Token::OpMatchArrow,
            LexToken::OpThinArrow => Token::OpThinArrow,
            LexToken::OpParenOpen => Token::OpParenOpen,
            LexToken::OpParenClose => Token::OpParenClose,
            LexToken::OpBraceOpen => Token::OpBraceOpen,
            LexToken::OpBraceClose => Token::OpBraceClose,
        }
    }
}

/// The values of a list of tokens.
pub open spec fn tokens_view(tokens: Seq<LexToken>) -> Seq<Token> {
    Seq::new(tokens.len(), |i: int| tokens[i]@)
}

/// The byte of the character at `i`, or 0 beyond the end.
pub open spec fn byte_at(chars: Seq<char>, i: int) -> u8 {
    if 0 <= i < chars.len() {
        chars[i] as u8
    } else {
        0
    }
}

/// A decimal digit.
pub open spec fn is_digit(b: u8) -> bool {
    DIGIT_0 <= b <= DIGIT_9
}

/// A letter of the Latin alphabet, small or capital.
pub open spec fn is_alpha(b: u8) -> bool {
    (LOWER_A <= b <= LOWER_Z) || (UPPER_A <= b <= UPPER_Z)
}

/// A letter or a digit.
pub open spec fn is_alnum(b: u8) -> bool {
    is_digit(b) || is_alpha(b)
}

/// A byte that a name may hold: a letter, a digit or an underscore.
pub open spec fn is_name_byte(b: u8) -> bool {
    is_alnum(b) || b == UNDERSCORE
}

/// Blank space: a space, a tab, a line feed, a form feed or a carriage
/// return.
pub open spec fn is_space(b: u8) -> bool {
    b == SPACE || b == TAB || b == LINE_FEED || b == FORM_FEED || b == CARRIAGE_RETURN
}

/// The classes of bytes that a run is made of.
#[derive(Clone, Copy, PartialEq, Eq, Structural)]
pub enum ByteClass {
    Name,
    Alnum,
    Digit,
}

/// Whether the byte belongs to the class.
pub open spec fn in_class(class: ByteClass, b: u8) -> bool {
    match class {
        ByteClass::Name => is_name_byte(b),
        ByteClass::Alnum => is_alnum(b),
        ByteClass::Digit => is_digit(b),
    }
}

/// Where the run of bytes of the class that starts at `from` ends.
pub open spec fn run_end(chars: Seq<char>, from: int, class: ByteClass) -> int
    decreases chars.len() - from,
{
    if from < 0 || from >= chars.len() || !in_class(class, byte_at(chars, from)) {
        from
    } else {
        run_end(chars, from + 1, class)
    }
}

/// The value of a digit in the given radix, if it is one.
pub open spec fn digit_value(b: u8, radix: int) -> Option<int> {
    let v = if is_digit(b) {
        b - DIGIT_0
    } else if LOWER_A <= b <= LOWER_Z {
        b - LOWER_A + 10
    } else if UPPER_A <= b <= UPPER_Z {
        b - UPPER_A + 10
    } else {
        radix
    };
    if v < radix {
        Some(v)
    } else {
        None
    }
}

/// The number that the digits from `from` to `to` spell in the given radix;
/// `Syntax` where there is no digit or one of them is no digit of the
/// radix, and `NarrowOverflow` where the number does not fit 64 bits.
pub open spec fn number_value(chars: Seq<char>, from: int, to: int, radix: int) -> Result<
    int,
    CompileError,
>
    decreases to - from,
{
    if to <= from {
        Err(CompileError::Syntax)
    } else {
        let high = if to - 1 == from {
            Ok(0int)
        } else {
            number_value(chars, from, to - 1, radix)
        };
        match high {
            Err(e) => Err(e),
            Ok(high) => match digit_value(byte_at(chars, to - 1), radix) {
                None => Err(CompileError::Syntax),
                Some(d) => if high * radix + d > i64::MAX {
                    Err(CompileError::NarrowOverflow)
                } else {
                    Ok(high * radix + d)
                },
            },
        }
    }
}

/// The keyword that a name is, or the name.
pub open spec fn ident_or_keyword(name: Seq<char>) -> Token {
    if name == "mod"@ {
        Token::KeyMod
    } else if name == "output"@ {
        Token::KeyOutput
    } else if name == "let"@ {
        Token::KeyLet
    } else if name == "if"@ {
        Token::KeyIf
    } else if name == "match"@ {
        Token::KeyMatch
    } else if name == "const"@ {
        Token::KeyConst
    } else {
        Token::Ident(name)
    }
}

/// Where the comment that runs to the end of the line ends: behind the line
/// feed, or at the end of the text.
pub open spec fn line_end(chars: Seq<char>, from: int) -> int
    decreases chars.len() - from,
{
    if from < 0 || from >= chars.len() {
        from
    } else if byte_at(chars, from) == LINE_FEED {
        from + 1
    } else {
        line_end(chars, from + 1)
    }
}

/// Where the comment that is closed by `*/` ends: behind the closing
/// bytes. `None` where it is not closed.
pub open spec fn block_end(chars: Seq<char>, from: int) -> Option<int>
    decreases chars.len() - from,
{
    if from < 0 || from + 1 >= chars.len() {
        None
    } else if byte_at(chars, from) == STAR && byte_at(chars, from + 1) == SLASH {
        Some(from + 2)
    } else {
        block_end(chars, from + 1)
    }
}

/// The token that starts at `pos`, where a token starts there, and where it
/// ends.
pub open spec fn token_at(chars: Seq<char>, pos: int) -> Result<(Token, int), CompileError> {
    let b = byte_at(chars, pos);
    let next = byte_at(chars, pos + 1);
    if is_alpha(b) || b == UNDERSCORE {
        let end = run_end(chars, pos, ByteClass::Name);
        Ok((ident_or_keyword(chars.subrange(pos, end)), end))
    } else if is_digit(b) {
        if b == DIGIT_0 && is_alpha(next) {
            if next != LOWER_X && next != LOWER_B {
                Err(CompileError::Syntax)
            } else {
                let end = run_end(chars, pos + 2, ByteClass::Alnum);
                match number_value(
                    chars,
                    pos + 2,
                    end,
                    if next == LOWER_X {
                        16
                    } else {
                        2
                    },
                ) {
                    Err(e) => Err(e),
                    Ok(v) => Ok((Token::Number(v as i64), end)),
                }
            }
        } else {
            let end = run_end(chars, pos, ByteClass::Digit);
            match number_value(chars, pos, end, 10) {
                Err(e) => Err(e),
                Ok(v) => Ok((Token::Number(v as i64), end)),
            }
        }
    } else if b == DOLLAR {
        let end = run_end(chars, pos + 1, ByteClass::Name);
        Ok((Token::Symbol(chars.subrange(pos + 1, end)), end))
    } else if b == PLUS {
        Ok((Token::OpAdd, pos + 1))
    } else if b == MINUS {
        if next == GREATER {
            Ok((Token::OpThinArrow, pos + 2))
        } else {
            Ok((Token::OpSub, pos + 1))
        }
    } else if b == PERCENT {
        Ok((Token::OpMod, pos + 1))
    } else if b == SLASH {
        Ok((Token::OpDiv, pos + 1))
    } else if b == STAR {
        if next == STAR {
            Ok((Token::OpPower, pos + 2))
        } else {
            Ok((Token::OpMul, pos + 1))
        }
    } else if b == BAR {
        Ok((Token::OpBitOr, pos + 1))
    } else if b == AMPERSAND {
        Ok((Token::OpBitAnd, pos + 1))
    } else if b == CARET {
        Ok((Token::OpBitXor, pos + 1))
    } else if b == TILDE {
        Ok((Token::OpBitNot, pos + 1))
    } else if b == EQUALS {
        if next == EQUALS {
            Ok((Token::OpCmpEq, pos + 2))
        } else if next == GREATER {
            Ok((Token::OpMatchArrow, pos + 2))
        } else {
            Ok((Token::OpAssign, pos + 1))
        }
    } else if b == BANG {
        if next == EQUALS {
            Ok((Token::OpCmpNeq, pos + 2))
        } else {
            Ok((Token::OpNot, pos + 1))
        }
    } else if b == LESS {
        if next == EQUALS {
            Ok((Token::OpCmpLeq, pos + 2))
        } else if next == LESS {
            Ok((Token::OpShiftLeft, pos + 2))
        } else {
            Ok((Token::OpCmpLt, pos + 1))
        }
    } else if b == GREATER {
        if next == EQUALS {
            Ok((Token::OpCmpGeq, pos + 2))
        } else if next == GREATER {
            Ok((Token::OpShiftRight, pos + 2))
        } else {
            Ok((Token::OpCmpGt, pos + 1))
        }
    } else if b == COMMA {
        Ok((Token::OpComma, pos + 1))
    } else if b == SEMICOLON {
        Ok((Token::OpSemicolon, pos + 1))
    } else if b == COLON {
        Ok((Token::OpColon, pos + 1))
    } else if b == QUESTION {
        Ok((Token::OpQuestion, pos + 1))
    } else if b == PAREN_OPEN {
        Ok((Token::OpParenOpen, pos + 1))
    } else if b == PAREN_CLOSE {
        Ok((Token::OpParenClose, pos + 1))
    } else if b == BRACE_OPEN {
        Ok((Token::OpBraceOpen, pos + 1))
    } else if b == BRACE_CLOSE {
        Ok((Token::OpBraceClose, pos + 1))
    } else {
        Err(CompileError::Syntax)
    }
}

/// The next token from `pos` on and where it ends, blank space and comments
/// skipped; `None` at the end of the text.
pub open spec fn next_from(chars: Seq<char>, pos: int) -> Result<Option<(Token, int)>, CompileError>
    decreases chars.len() - pos,
{
    if pos < 0 || pos >= chars.len() {
        Ok(None)
    } else if is_space(byte_at(chars, pos)) {
        next_from(chars, pos + 1)
    } else if byte_at(chars, pos) == SLASH && byte_at(chars, pos + 1) == SLASH {
        if line_end(chars, pos + 2) <= pos || line_end(chars, pos + 2) > chars.len() {
            Err(CompileError::Syntax)
        } else {
            next_from(chars, line_end(chars, pos + 2))
        }
    } else if byte_at(chars, pos) == SLASH && byte_at(chars, pos + 1) == STAR {
        match block_end(chars, pos + 2) {
            None => Err(CompileError::Syntax),
            Some(end) => if end <= pos || end > chars.len() {
                Err(CompileError::Syntax)
            } else {
                next_from(chars, end)
            },
        }
    } else {
        match token_at(chars, pos) {
            Err(e) => Err(e),
            Ok(found) => Ok(Some(found)),
        }
    }
}

/// The tokens of the text from `pos` on.
pub open spec fn tokens_from(chars: Seq<char>, pos: int) -> Result<Seq<Token>, CompileError>
    decreases chars.len() - pos,
{
    match next_from(chars, pos) {
        Err(e) => Err(e),
        Ok(None) => Ok(seq![]),
        Ok(Some((token, end))) => if end <= pos || end > chars.len() {
            Err(CompileError::Syntax)
        } else {
            match tokens_from(chars, end) {
                Err(e) => Err(e),
                Ok(rest) => Ok(seq![token] + rest),
            }
        },
    }
}

/// The tokens of a text. A text that holds a character beyond ASCII is
/// `Syntax`.
pub open spec fn tokens_of(chars: Seq<char>) -> Result<Seq<Token>, CompileError> {
    if !vstd::utf8::is_ascii_chars(chars) {
        Err(CompileError::Syntax)
    } else {
        tokens_from(chars, 0)
    }
}

/// A run ends between its start and the end of the text.
pub proof fn lemma_run_end_bounds(chars: Seq<char>, from: int, class: ByteClass)
    requires
        0 <= from <= chars.len(),
    ensures
        from <= run_end(chars, from, class) <= chars.len(),
    decreases chars.len() - from,
{
    if from < chars.len() && in_class(class, byte_at(chars, from)) {
        lemma_run_end_bounds(chars, from + 1, class);
    }
}

/// A line ends between its start and the end of the text.
pub proof fn lemma_line_end_bounds(chars: Seq<char>, from: int)
    requires
        0 <= from <= chars.len(),
    ensures
        from <= line_end(chars, from) <= chars.len(),
    decreases chars.len() - from,
{
    if from < chars.len() && byte_at(chars, from) != LINE_FEED {
        lemma_line_end_bounds(chars, from + 1);
    }
}

/// A closed comment ends behind its start and within the text.
pub proof fn lemma_block_end_bounds(chars: Seq<char>, from: int)
    requires
        0 <= from,
    ensures
        block_end(chars, from) is Some ==> from + 2 <= block_end(chars, from)->Some_0
            <= chars.len(),
    decreases chars.len() - from,
{
    if from + 1 < chars.len() && !(byte_at(chars, from) == STAR && byte_at(chars, from + 1)
        == SLASH) {
        lemma_block_end_bounds(chars, from + 1);
    }
}

proof fn lemma_number_error_stays(chars: Seq<char>, from: int, a: int, b: int, radix: int)
    requires
        from < a <= b,
        number_value(chars, from, a, radix) is Err,
    ensures
        number_value(chars, from, b, radix) == number_value(chars, from, a, radix),
    decreases b - a,
{
    if a < b {
        lemma_number_error_stays(chars, from, a, b - 1, radix);
    }
}

/// A reader of tokens from a text.
pub struct Lexer<'a> {
    pub source: &'a str,
    pub pos: usize,
    pub len: usize,
    pub ascii: bool,
}

impl<'a> Lexer<'a> {
    /// The reader knows its text.
    pub open spec fn wf(&self) -> bool {
        &&& self.ascii == vstd::utf8::is_ascii_chars(self.source@)
        &&& self.len == self.source@.len()
        &&& self.pos <= self.len
    }

    /// A reader at the start of the text.
    pub fn new(string: &'a str) -> (r: Lexer<'a>)
        ensures
            r.wf(),
            r.source@ == string@,
            r.pos == 0,
    {
        Lexer { source: string, pos: 0, len: string.unicode_len(), ascii: string.is_ascii() }
    }

    fn byte(&self, i: usize) -> (b: u8)
        requires
            self.wf(),
            self.ascii,
        ensures
            b == byte_at(self.source@, i as int),
    {
        if i < self.len {
            self.source.get_ascii(i)
        } else {
            0
        }
    }

    fn is_in_class(class: ByteClass, b: u8) -> (r: bool)
        ensures
            r == in_class(class, b),
    {
        let digit = DIGIT_0 <= b && b <= DIGIT_9;
        let alpha = (LOWER_A <= b && b <= LOWER_Z) || (UPPER_A <= b && b <= UPPER_Z);
        match class {
            ByteClass::Name => digit || alpha || b == UNDERSCORE,
            ByteClass::Alnum => digit || alpha,
            ByteClass::Digit => digit,
        }
    }

    fn scan_run(&self, from: usize, class: ByteClass) -> (end: usize)
        requires
            self.wf(),
            self.ascii,
            from <= self.len,
        ensures
            end == run_end(self.source@, from as int, class),
            from <= end <= self.len,
    {
        let mut k = from;
        while k < self.len && Self::is_in_class(class, self.byte(k))
            invariant
                self.wf(),
                self.ascii,
                from <= k <= self.len,
                run_end(self.source@, from as int, class) == run_end(self.source@, k as int, class),
            decreases self.len - k,
        {
            k = k + 1;
        }
        k
    }

    fn scan_number(&self, from: usize, to: usize, radix: u8) -> (r: Result<i64, CompileError>)
        requires
            self.wf(),
            self.ascii,
            from <= to <= self.len,
            2 <= radix <= 16,
        ensures
            match number_value(self.source@, from as int, to as int, radix as int) {
                Ok(v) => r == Ok::<i64, CompileError>(v as i64) && 0 <= v <= i64::MAX,
                Err(e) => r == Err::<i64, CompileError>(e),
            },
    {
        if to <= from {
            return Err(CompileError::Syntax);
        }
        let mut acc: i64 = 0;
        let mut k = from;
        while k < to
            invariant
                self.wf(),
                self.ascii,
                from <= k <= to <= self.len,
                2 <= radix <= 16,
                0 <= acc,
                k == from ==> acc == 0,
                k > from ==> number_value(self.source@, from as int, k as int, radix as int) == Ok::<
                    int,
                    CompileError,
                >(acc as int),
            decreases to - k,
        {
            let b = self.byte(k);
            let v: u8 = if DIGIT_0 <= b && b <= DIGIT_9 {
                b - DIGIT_0
            } else if LOWER_A <= b && b <= LOWER_Z {
                b - LOWER_A + 10
            } else if UPPER_A <= b && b <= UPPER_Z {
                b - UPPER_A + 10
            } else {
                radix
            };
            if v >= radix {
                proof {
                    lemma_number_error_stays(
                        self.source@,
                        from as int,
                        k + 1,
                        to as int,
                        radix as int,
                    );
                }
                return Err(CompileError::Syntax);
            }
            assert(0 <= acc * radix <= 0x7fff_ffff_ffff_ffff * 16) by (nonlinear_arith)
                requires
                    0 <= acc <= 0x7fff_ffff_ffff_ffff,
                    2 <= radix <= 16,
            ;
            let wide: i128 = acc as i128 * radix as i128 + v as i128;
            if wide > i64::MAX as i128 {
                proof {
                    lemma_number_error_stays(
                        self.source@,
                        from as int,
                        k + 1,
                        to as int,
                        radix as int,
                    );
                }
                return Err(CompileError::NarrowOverflow);
            }
            acc = wide as i64;
            k = k + 1;
        }
        Ok(acc)
    }

    /// The keyword that a name is, or the name.
    pub fn ident_or_keyword(ident: &str) -> (r: LexToken)
        ensures
            r@ == ident_or_keyword(ident@),
    {
        let name = String::from_str(ident);
        if name == String::from_str("mod") {
            LexToken::KeyMod
        } else if name == String::from_str("output") {
            LexToken::KeyOutput
        } else if name == String::from_str("let") {
            LexToken::KeyLet
        } else if name == String::from_str("if") {
            LexToken::KeyIf
        } else if name == String::from_str("match") {
            LexToken::KeyMatch
        } else if name == String::from_str("const") {
            LexToken::KeyConst
        } else {
            LexToken::Ident(name)
        }
    }

    /// Reads the token that starts at the reader's place.
    fn token_here(&mut self) -> (r: Result<LexToken, CompileError>)
        requires
            old(self).wf(),
            old(self).ascii,
            old(self).pos < old(self).len,
        ensures
            final(self).wf(),
            final(self).source == old(self).source,
            match token_at(old(self).source@, old(self).pos as int) {
                Ok((token, end)) => r is Ok && r->Ok_0@ == token && final(self).pos == end
                    && old(self).pos < end,
                Err(e) => r is Err && r->Err_0 == e,
            },
    {
        let pos = self.pos;
        let b = self.byte(pos);
        let next = self.byte(pos + 1);
        let next_alpha = (LOWER_A <= next && next <= LOWER_Z) || (UPPER_A <= next && next
            <= UPPER_Z);
        let (token, width): (LexToken, usize) = if (LOWER_A <= b && b <= LOWER_Z) || (UPPER_A <= b
            && b <= UPPER_Z) || b == UNDERSCORE {
            let end = self.scan_run(pos, ByteClass::Name);
            proof {
                lemma_run_end_bounds(self.source@, pos + 1, ByteClass::Name);
            }
            self.pos = end;
            return Ok(Self::ident_or_keyword(self.source.substring_ascii(pos, end)));
        } else if DIGIT_0 <= b && b <= DIGIT_9 {
            if b == DIGIT_0 && next_alpha {
                if next != LOWER_X && next != LOWER_B {
                    return Err(CompileError::Syntax);
                }
                let end = self.scan_run(pos + 2, ByteClass::Alnum);
                let value = self.scan_number(
                    pos + 2,
                    end,
                    if next == LOWER_X {
                        16
                    } else {
                        2
                    },
                )?;
                self.pos = end;
                return Ok(LexToken::Number(value));
            } else {
                let end = self.scan_run(pos, ByteClass::Digit);
                proof {
                    lemma_run_end_bounds(self.source@, pos + 1, ByteClass::Digit);
                }
                let value = self.scan_number(pos, end, 10)?;
                self.pos = end;
                return Ok(LexToken::Number(value));
            }
        } else if b == DOLLAR {
            let end = self.scan_run(pos + 1, ByteClass::Name);
            self.pos = end;
            return Ok(
                LexToken::Symbol(String::from_str(self.source.substring_ascii(pos + 1, end))),
            );
        } else if b == PLUS {
            (LexToken::OpAdd, 1)
        } else if b == MINUS {
            if next == GREATER {
                (LexToken::OpThinArrow, 2)
            } else {
                (LexToken::OpSub, 1)
            }
        } else if b == PERCENT {
            (LexToken::OpMod, 1)
        } else if b == SLASH {
            (LexToken::OpDiv, 1)
        } else if b == STAR {
            if next == STAR {
                (LexToken::OpPower, 2)
            } else {
                (LexToken::OpMul, 1)
            }
        } else if b == BAR {
            (LexToken::OpBitOr, 1)
        } else if b == AMPERSAND {
            (LexToken::OpBitAnd, 1)
        } else if b == CARET {
            (LexToken::OpBitXor, 1)
        } else if b == TILDE {
            (LexToken::OpBitNot, 1)
        } else if b == EQUALS {
            if next == EQUALS {
                (LexToken::OpCmpEq, 2)
            } else if next == GREATER {
                (LexToken::OpMatchArrow, 2)
            } else {
                (LexToken::OpAssign, 1)
            }
        } else if b == BANG {
            if next == EQUALS {
                (LexToken::OpCmpNeq, 2)
            } else {
                (LexToken::OpNot, 1)
            }
        } else if b == LESS {
            if next == EQUALS {
                (LexToken::OpCmpLeq, 2)
            } else if next == LESS {
                (LexToken::OpShiftLeft, 2)
            } else {
                (LexToken::OpCmpLt, 1)
            }
        } else if b == GREATER {
            if next == EQUALS {
                (LexToken::OpCmpGeq, 2)
            } else if next == GREATER {
                (LexToken::OpShiftRight, 2)
            } else {
                (LexToken::OpCmpGt, 1)
            }
        } else if b == COMMA {
            (LexToken::OpComma, 1)
        } else if b == SEMICOLON {
            (LexToken::OpSemicolon, 1)
        } else if b == COLON {
            (LexToken::OpColon, 1)
        } else if b == QUESTION {
            (LexToken::OpQuestion, 1)
        } else if b == PAREN_OPEN {
            (LexToken::OpParenOpen, 1)
        } else if b == PAREN_CLOSE {
            (LexToken::OpParenClose, 1)
        } else if b == BRACE_OPEN {
            (LexToken::OpBraceOpen, 1)
        } else if b == BRACE_CLOSE {
            (LexToken::OpBraceClose, 1)
        } else {
            return Err(CompileError::Syntax);
        };
        self.pos = pos + width;
        Ok(token)
    }
}

impl<'a> Lexer<'a> {
    fn skip_line(&self, from: usize) -> (end: usize)
        requires
            self.wf(),
            self.ascii,
            from <= self.len,
        ensures
            end == line_end(self.source@, from as int),
            from <= end <= self.len,
    {
        let mut k = from;
        while k < self.len
            invariant
                self.wf(),
                self.ascii,
                from <= k <= self.len,
                line_end(self.source@, from as int) == line_end(self.source@, k as int),
            decreases self.len - k,
        {
            if self.byte(k) == LINE_FEED {
                return k + 1;
            }
            k = k + 1;
        }
        k
    }

    fn skip_block(&self, from: usize) -> (end: Option<usize>)
        requires
            self.wf(),
            self.ascii,
            from <= self.len,
        ensures
            match block_end(self.source@, from as int) {
                Some(e) => end == Some(e as usize) && from + 2 <= e <= self.len,
                None => end is None,
            },
    {
        let mut k = from;
        proof {
            lemma_block_end_bounds(self.source@, from as int);
        }
        while k < self.len && k + 1 < self.len
            invariant
                self.wf(),
                self.ascii,
                from <= k <= self.len,
                block_end(self.source@, from as int) == block_end(self.source@, k as int),
            decreases self.len - k,
        {
            if self.byte(k) == STAR && self.byte(k + 1) == SLASH {
                return Some(k + 2);
            }
            k = k + 1;
        }
        None
    }

    /// Reads the next token, blank space and comments skipped. `None` at
    /// the end of the text.
    pub fn next_token(&mut self) -> (r: Result<Option<LexToken>, CompileError>)
        requires
            old(self).wf(),
        ensures
            final(self).wf(),
            final(self).source == old(self).source,
            !old(self).ascii ==> r == Err::<Option<LexToken>, CompileError>(CompileError::Syntax),
            old(self).ascii ==> match next_from(old(self).source@, old(self).pos as int) {
                Ok(Some((token, end))) => r is Ok && r->Ok_0 is Some && r->Ok_0->Some_0@ == token
                    && final(self).pos == end && old(self).pos < end,
                Ok(None) => r is Ok && r->Ok_0 is None,
                Err(e) => r is Err && r->Err_0 == e,
            },
    {
        if !self.ascii {
            return Err(CompileError::Syntax);
        }
        let ghost start = self.pos;
        loop
            invariant
                self.wf(),
                self.ascii,
                old(self).ascii,
                self.source == old(self).source,
                start == old(self).pos,
                start <= self.pos,
                next_from(self.source@, start as int) == next_from(self.source@, self.pos as int),
            decreases self.len - self.pos,
        {
            if self.pos >= self.len {
                return Ok(None);
            }
            let b = self.byte(self.pos);
            let next = self.byte(self.pos + 1);
            if b == SPACE || b == TAB || b == LINE_FEED || b == FORM_FEED || b == CARRIAGE_RETURN {
                self.pos = self.pos + 1;
            } else if b == SLASH && next == SLASH {
                self.pos = self.skip_line(self.pos + 2);
            } else if b == SLASH && next == STAR {
                match self.skip_block(self.pos + 2) {
                    None => {
                        return Err(CompileError::Syntax);
                    },
                    Some(end) => {
                        self.pos = end;
                    },
                }
            } else {
                return match self.token_here() {
                    Ok(token) => Ok(Some(token)),
                    Err(e) => Err(e),
                };
            }
        }
    }
}

/// All tokens of a text, in order.
pub fn tokenize(source: &str) -> (r: Result<Vec<LexToken>, CompileError>)
    ensures
        match tokens_of(source@) {
            Ok(tokens) => r is Ok && tokens_view(r->Ok_0@) == tokens,
            Err(e) => r is Err && r->Err_0 == e,
        },
{
    let mut lexer = Lexer::new(source);
    let mut out: Vec<LexToken> = Vec::new();
    if !lexer.ascii {
        return Err(CompileError::Syntax);
    }
    let ghost chars = source@;
    loop
        invariant
            lexer.wf(),
            lexer.ascii,
            lexer.source@ == chars,
            chars == source@,
            match tokens_from(chars, lexer.pos as int) {
                Ok(rest) => tokens_from(chars, 0) == Ok::<Seq<Token>, CompileError>(
                    tokens_view(out@) + rest,
                ),
                Err(e) => tokens_from(chars, 0) == Err::<Seq<Token>, CompileError>(e),
            },
        decreases lexer.len - lexer.pos,
    {
        let ghost before = tokens_view(out@);
        match lexer.next_token() {
            Err(e) => {
                return Err(e);
            },
            Ok(None) => {
                assert(tokens_view(out@) + Seq::<Token>::empty() =~= tokens_view(out@));
                return Ok(out);
            },
            Ok(Some(token)) => {
                let ghost value = token@;
                out.push(token);
                proof {
                    assert(tokens_view(out@) =~= before.push(value));
                    if let Ok(rest) = tokens_from(chars, lexer.pos as int) {
                        assert(before + (seq![value] + rest) =~= tokens_view(out@) + rest);
                    }
                }
            },
        }
    }
}

} // verus!
