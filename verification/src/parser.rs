//! The lexer of the language: turns source text into a sequence of
//! typed tokens. Whitespace separates tokens and is discarded;
//! parentheses are their own tokens; a scan that starts like a number
//! (a digit, minus sign or point) greedily reads an optionally signed,
//! optionally fractional numeral, and a lone minus sign is reclassified
//! as the subtraction operator; every other run of word characters is
//! an operation token. Each token carries the line it started on.

use crate::scalar::is_digit_char;
use vstd::prelude::*;

verus! {

/// The mathematical model of one token: its text and 0-based line.
pub enum TokenV {
    OpenParen(nat),
    CloseParen(nat),
    Operation(Seq<char>, nat),
    Constant(Seq<char>, nat),
}

/// One token of the source text, carrying its 0-based source line.
#[derive(Debug, Clone, PartialEq)]
pub enum Token {
    OpenParen(usize),
    CloseParen(usize),
    Operation(String, usize),
    Constant(String, usize),
}

impl View for Token {
    type V = TokenV;

    open spec fn view(&self) -> TokenV {
        match self {
            Token::OpenParen(l) => TokenV::OpenParen(*l as nat),
            Token::CloseParen(l) => TokenV::CloseParen(*l as nat),
            Token::Operation(s, l) => TokenV::Operation(s@, *l as nat),
            Token::Constant(s, l) => TokenV::Constant(s@, *l as nat),
        }
    }
}

/// The models of a token vector, in order.
pub open spec fn token_views(ts: Seq<Token>) -> Seq<TokenV> {
    Seq::new(ts.len(), |i: int| ts[i]@)
}

/// Whitespace separates tokens and is discarded.
pub open spec fn is_white_space_char(c: char) -> bool {
    c == ' ' || c == '\n' || c == '\t' || c == '\r'
}

/// Newlines advance the diagnostic line counter.
pub open spec fn is_linebreak_char(c: char) -> bool {
    c == '\n'
}

/// Characters that may open a numeral.
pub open spec fn is_start_of_number_char(c: char) -> bool {
    is_digit_char(c) || c == '-' || c == '.'
}

/// Characters an operation token may continue with: the four operator
/// symbols, letters and digits.
pub open spec fn is_operation_char(c: char) -> bool {
    c == '+' || c == '-' || c == '*' || c == '/' || is_digit_char(c)
        || ('a' as u32 <= c as u32 && c as u32 <= 'z' as u32)
        || ('A' as u32 <= c as u32 && c as u32 <= 'Z' as u32)
}

/// The classes of characters the scanner accepts greedily.
#[derive(Clone, Copy)]
pub enum CharClass {
    Minus,
    Dot,
    Digit,
    OpChar,
}

/// Membership in a scanner character class.
pub open spec fn in_class(cl: CharClass, c: char) -> bool {
    match cl {
        CharClass::Minus => c == '-',
        CharClass::Dot => c == '.',
        CharClass::Digit => is_digit_char(c),
        CharClass::OpChar => is_operation_char(c),
    }
}

/// The end of the run of class characters beginning at `j`.
pub open spec fn class_run_end(cl: CharClass, s: Seq<char>, j: int) -> int
    decreases s.len() - j,
{
    if j < 0 || j >= s.len() {
        s.len() as int
    } else if in_class(cl, s[j]) {
        class_run_end(cl, s, j + 1)
    } else {
        j
    }
}

/// A class run stays within the text and never moves backwards.
pub proof fn lemma_run_range(cl: CharClass, s: Seq<char>, j: int)
    requires
        0 <= j <= s.len(),
    ensures
        j <= class_run_end(cl, s, j) <= s.len(),
    decreases s.len() - j,
{
    if j < s.len() && in_class(cl, s[j]) {
        lemma_run_range(cl, s, j + 1);
    }
}

/// Where a numeral beginning one place before `j` ends: an optional
/// minus sign, digits, and an optional point with more digits.
pub open spec fn num_end(s: Seq<char>, j: int) -> int {
    let p1 = if 0 <= j < s.len() && s[j] == '-' {
        j + 1
    } else {
        j
    };
    let p2 = class_run_end(CharClass::Digit, s, p1);
    if 0 <= p2 < s.len() && s[p2] == '.' {
        class_run_end(CharClass::Digit, s, p2 + 1)
    } else {
        p2
    }
}

/// The token sequence of the text from `i` on, with the line counter at
/// `line`: the model of the whole lexer.
pub open spec fn spec_lex(s: Seq<char>, i: int, line: nat) -> Seq<TokenV>
    decreases s.len() - i,
    via spec_lex_decreases
{
    if i < 0 || i >= s.len() {
        Seq::empty()
    } else {
        let c = s[i];
        if is_white_space_char(c) {
            spec_lex(s, i + 1, line + (if is_linebreak_char(c) {
                1nat
            } else {
                0nat
            }))
        } else if c == '(' {
            seq![TokenV::OpenParen(line)] + spec_lex(s, i + 1, line)
        } else if c == ')' {
            seq![TokenV::CloseParen(line)] + spec_lex(s, i + 1, line)
        } else if is_start_of_number_char(c) {
            let e = num_end(s, i + 1);
            let text = s.subrange(i, e);
            (if c == '-' && e == i + 1 {
                seq![TokenV::Operation(text, line)]
            } else {
                seq![TokenV::Constant(text, line)]
            }) + spec_lex(s, e, line)
        } else {
            let e = class_run_end(CharClass::OpChar, s, i + 1);
            seq![TokenV::Operation(s.subrange(i, e), line)] + spec_lex(s, e, line)
        }
    }
}

#[via_fn]
proof fn spec_lex_decreases(s: Seq<char>, i: int, line: nat) {
    if 0 <= i < s.len() {
        let j = i + 1;
        let p1 = if 0 <= j < s.len() && s[j] == '-' {
            j + 1
        } else {
            j
        };
        lemma_run_range(CharClass::Digit, s, p1);
        let p2 = class_run_end(CharClass::Digit, s, p1);
        if 0 <= p2 < s.len() && s[p2] == '.' {
            lemma_run_range(CharClass::Digit, s, p2 + 1);
        }
        lemma_run_range(CharClass::OpChar, s, j);
    }
}


/// The streaming lexer: scans `input` left to right, collecting tokens.
pub struct Lexer<'a> {
    input: &'a str,
    start: usize,
    pos: usize,
    width: usize,
    current_line: usize,
    tokens: Vec<Token>,
}

/// What the scanner found next: a numeral, an operation word, or the
/// end of the input.
enum LexKind {
    Number,
    Operation,
    End,
}

impl<'a> Lexer<'a> {
    /// Positions stay ordered and inside the input; the line counter
    /// never exceeds the number of characters passed.
    pub closed spec fn inv(self) -> bool {
        self.start <= self.pos <= self.input@.len() && self.current_line <= self.pos
    }

    /// The tokens already emitted followed by those of the unscanned
    /// rest: an invariant quantity of the whole scan.
    pub closed spec fn total_lex(self) -> Seq<TokenV> {
        token_views(self.tokens@) + spec_lex(
            self.input@,
            self.start as int,
            self.current_line as nat,
        )
    }

    /// Lexes the whole text and returns its tokens in source order.
    pub fn begin_lexing(s: &'a str) -> (tokens: Vec<Token>)
        ensures
            token_views(tokens@) == spec_lex(s@, 0, 0),
    {
        let mut lexer = Lexer {
            input: s,
            start: 0,
            pos: 0,
            width: 0,
            current_line: 0,
            tokens: Vec::new(),
        };
        proof {
            assert(token_views(lexer.tokens@) =~= Seq::<TokenV>::empty());
        }
        lexer.run();
        lexer.tokens
    }

    /// Scans tokens until the input is exhausted.
    #[verifier::loop_isolation(false)]
    fn run(&mut self)
        requires
            old(self).inv(),
            old(self).start == old(self).pos,
        ensures
            token_views(final(self).tokens@) == old(self).total_lex(),
    {
        loop
            invariant
                self.inv(),
                self.start == self.pos,
                self.input == old(self).input,
                self.total_lex() == old(self).total_lex(),
            decreases self.input@.len() - self.pos,
        {
            let kind = self.determine_token();
            match kind {
                LexKind::End => {
                    break ;
                },
                LexKind::Number => {
                    self.lex_number();
                },
                LexKind::Operation => {
                    self.lex_operation();
                },
            }
        }
    }

    /// Consumes the next character, if any; `width` records how far to
    /// back up.
    fn next(&mut self) -> (r: Option<char>)
        requires
            old(self).inv(),
        ensures
            final(self).inv(),
            final(self).input == old(self).input,
            final(self).start == old(self).start,
            final(self).tokens == old(self).tokens,
            final(self).current_line == old(self).current_line,
            match r {
                Some(c) => old(self).pos < old(self).input@.len() && c == old(self).input@[old(self).pos as int] && final(self).pos == old(self).pos + 1
                    && final(self).width == 1,
                None => old(self).pos == old(self).input@.len() && final(self).pos == old(self).pos && final(self).width == 0,
            },
    {
        if self.pos >= self.input.unicode_len() {
            self.width = 0;
            None
        } else {
            self.width = 1;
            let c = self.input.get_char(self.pos);
            self.pos = self.pos + 1;
            Some(c)
        }
    }

    /// Steps back over the last consumed character, if one was.
    fn backup(&mut self)
        requires
            old(self).inv(),
            old(self).width <= old(self).pos,
            old(self).start <= old(self).pos - old(self).width,
            old(self).current_line <= old(self).pos - old(self).width,
        ensures
            final(self).inv(),
            final(self).input == old(self).input,
            final(self).start == old(self).start,
            final(self).tokens == old(self).tokens,
            final(self).current_line == old(self).current_line,
            final(self).pos == old(self).pos - old(self).width,
            final(self).width == 0,
    {
        self.pos = self.pos - self.width;
        self.width = 0;
    }

    /// Forgets the scanned text so far (used to discard whitespace).
    fn ignore(&mut self)
        requires
            old(self).inv(),
        ensures
            final(self).inv(),
            final(self).input == old(self).input,
            final(self).tokens == old(self).tokens,
            final(self).current_line == old(self).current_line,
            final(self).pos == old(self).pos,
            final(self).width == old(self).width,
            final(self).start == old(self).pos,
    {
        self.start = self.pos;
    }

    /// Emits one token and starts the next scan at the current position.
    fn emit(&mut self, token: Token)
        requires
            old(self).inv(),
        ensures
            final(self).inv(),
            final(self).input == old(self).input,
            final(self).current_line == old(self).current_line,
            final(self).pos == old(self).pos,
            final(self).width == old(self).width,
            final(self).start == old(self).pos,
            final(self).tokens@ == old(self).tokens@.push(token),
    {
        self.tokens.push(token);
        self.start = self.pos;
    }

    /// Consumes the next character if it belongs to the class.
    fn accept(&mut self, valid: CharClass) -> (r: bool)
        requires
            old(self).inv(),
            old(self).start <= old(self).pos,
            old(self).current_line <= old(self).pos,
        ensures
            final(self).inv(),
            final(self).input == old(self).input,
            final(self).start == old(self).start,
            final(self).tokens == old(self).tokens,
            final(self).current_line == old(self).current_line,
            r == (old(self).pos < old(self).input@.len() && in_class(
                valid,
                old(self).input@[old(self).pos as int],
            )),
            final(self).pos == (if r {
                old(self).pos + 1
            } else {
                old(self).pos as int
            }),
    {
        match self.next() {
            Some(n) => {
                if Self::class_matches(valid, n) {
                    true
                } else {
                    self.backup();
                    false
                }
            },
            None => {
                self.backup();
                false
            },
        }
    }

    /// Greedily consumes the whole run of class characters.
    #[verifier::loop_isolation(false)]
    fn accept_run(&mut self, valid: CharClass)
        requires
            old(self).inv(),
        ensures
            final(self).inv(),
            final(self).input == old(self).input,
            final(self).start == old(self).start,
            final(self).tokens == old(self).tokens,
            final(self).current_line == old(self).current_line,
            final(self).pos == class_run_end(valid, old(self).input@, old(self).pos as int),
    {
        loop
            invariant
                self.inv(),
                self.input == old(self).input,
                self.start == old(self).start,
                self.tokens == old(self).tokens,
                self.current_line == old(self).current_line,
                old(self).pos <= self.pos,
                class_run_end(valid, self.input@, self.pos as int) == class_run_end(
                    valid,
                    old(self).input@,
                    old(self).pos as int,
                ),
            decreases self.input@.len() - self.pos,
        {
            if !self.accept(valid) {
                break ;
            }
        }
    }

    /// Class membership of one character.
    fn class_matches(cl: CharClass, c: char) -> (r: bool)
        ensures
            r == in_class(cl, c),
    {
        let u = c as u32;
        match cl {
            CharClass::Minus => c == '-',
            CharClass::Dot => c == '.',
            CharClass::Digit => 48 <= u && u <= 57,
            CharClass::OpChar => c == '+' || c == '-' || c == '*' || c == '/' || (48 <= u && u
                <= 57) || (97 <= u && u <= 122) || (65 <= u && u <= 90),
        }
    }

    /// A character that may open a numeral: a digit, minus or point.
    fn is_start_of_number(c: char) -> (r: bool)
        ensures
            r == is_start_of_number_char(c),
    {
        let u = c as u32;
        (48 <= u && u <= 57) || c == '-' || c == '.'
    }

    /// A whitespace character: space, newline, tab or carriage return.
    fn is_white_space(c: char) -> (r: bool)
        ensures
            r == is_white_space_char(c),
    {
        c == ' ' || c == '\n' || c == '\t' || c == '\r'
    }

    /// The newline character, which advances the line counter.
    fn is_linebreak(c: char) -> (r: bool)
        ensures
            r == is_linebreak_char(c),
    {
        c == '\n'
    }

    /// Skips whitespace, emits parenthesis tokens, and classifies the
    /// next real token, consuming its first character.
    #[verifier::loop_isolation(false)]
    fn determine_token(&mut self) -> (kind: LexKind)
        requires
            old(self).inv(),
            old(self).start == old(self).pos,
        ensures
            final(self).inv(),
            final(self).input == old(self).input,
            final(self).total_lex() == old(self).total_lex(),
            final(self).start >= old(self).pos,
            final(self).pos >= old(self).pos,
            match kind {
                LexKind::End => final(self).pos == final(self).start && final(self).pos == final(self).input@.len(),
                LexKind::Number => final(self).start < final(self).input@.len() && final(self).pos
                    == final(self).start + 1 && is_start_of_number_char(
                    final(self).input@[final(self).start as int],
                ),
                LexKind::Operation => {
                    let c = final(self).input@[final(self).start as int];
                    final(self).start < final(self).input@.len() && final(self).pos == final(self).start + 1 && !is_white_space_char(c) && c != '(' && c != ')'
                        && !is_start_of_number_char(c)
                },
            },
    {
        loop
            invariant
                self.inv(),
                self.start == self.pos,
                self.pos >= old(self).pos,
                self.input == old(self).input,
                self.total_lex() == old(self).total_lex(),
            decreases self.input@.len() - self.pos,
        {
            let ghost pre = *self;
            match self.next() {
                Some(c) => {
                    if Self::is_white_space(c) {
                        if Self::is_linebreak(c) {
                            self.current_line = self.current_line + 1;
                        }
                        self.ignore();
                    } else if c == '(' {
                        let tok = Token::OpenParen(self.current_line);
                        self.emit(tok);
                        proof {
                            assert(token_views(self.tokens@) =~= token_views(pre.tokens@)
                                + seq![TokenV::OpenParen(pre.current_line as nat)]);
                        }
                    } else if c == ')' {
                        let tok = Token::CloseParen(self.current_line);
                        self.emit(tok);
                        proof {
                            assert(token_views(self.tokens@) =~= token_views(pre.tokens@)
                                + seq![TokenV::CloseParen(pre.current_line as nat)]);
                        }
                    } else if Self::is_start_of_number(c) {
                        return LexKind::Number;
                    } else {
                        return LexKind::Operation;
                    }
                },
                None => {
                    return LexKind::End;
                },
            }
        }
    }
}


impl<'a> Lexer<'a> {
    /// Scans the rest of a numeral (its first character is consumed):
    /// an optional sign, digits, an optional point and more digits; a
    /// lone minus sign becomes the subtraction operation token.
    fn lex_number(&mut self)
        requires
            old(self).inv(),
            old(self).start < old(self).input@.len(),
            old(self).pos == old(self).start + 1,
            is_start_of_number_char(old(self).input@[old(self).start as int]),
        ensures
            final(self).inv(),
            final(self).input == old(self).input,
            final(self).start == final(self).pos,
            final(self).pos > old(self).start,
            final(self).current_line == old(self).current_line,
            final(self).total_lex() == old(self).total_lex(),
    {
        let ghost i0 = old(self).start as int;
        let ghost inp = old(self).input@;
        let ghost line = old(self).current_line as nat;
        self.accept(CharClass::Minus);
        self.accept_run(CharClass::Digit);
        proof {
            lemma_run_range(CharClass::Digit, inp, self.pos as int);
        }
        if self.accept(CharClass::Dot) {
            self.accept_run(CharClass::Digit);
        }
        proof {
            lemma_run_range(CharClass::Digit, inp, i0 + 1);
            assert(self.pos == num_end(inp, i0 + 1));
        }
        let c0 = self.input.get_char(self.start);
        let lone_minus = self.pos == self.start + 1 && c0 == '-';
        let piece = self.input.substring_char(self.start, self.pos);
        let text = String::from_str(piece);
        let line_now = self.current_line;
        let ghost e = self.pos as int;
        let tok = if lone_minus {
            Token::Operation(text, line_now)
        } else {
            Token::Constant(text, line_now)
        };
        let ghost tv = tok@;
        proof {
            assert(tv == (if inp[i0] == '-' && e == i0 + 1 {
                TokenV::Operation(inp.subrange(i0, e), line)
            } else {
                TokenV::Constant(inp.subrange(i0, e), line)
            }));
        }
        self.emit(tok);
        proof {
            assert(spec_lex(inp, i0, line) == seq![tv] + spec_lex(inp, e, line));
            assert(token_views(self.tokens@) =~= token_views(old(self).tokens@) + seq![tv]);
            assert(token_views(old(self).tokens@) + seq![tv] + spec_lex(inp, e, line)
                =~= token_views(old(self).tokens@) + (seq![tv] + spec_lex(inp, e, line)));
        }
    }

    /// Scans the rest of an operation word (its first character is
    /// consumed): the greedy run of operator symbols, letters and digits.
    fn lex_operation(&mut self)
        requires
            old(self).inv(),
            old(self).start < old(self).input@.len(),
            old(self).pos == old(self).start + 1,
            !is_white_space_char(old(self).input@[old(self).start as int]),
            old(self).input@[old(self).start as int] != '(',
            old(self).input@[old(self).start as int] != ')',
            !is_start_of_number_char(old(self).input@[old(self).start as int]),
        ensures
            final(self).inv(),
            final(self).input == old(self).input,
            final(self).start == final(self).pos,
            final(self).pos > old(self).start,
            final(self).current_line == old(self).current_line,
            final(self).total_lex() == old(self).total_lex(),
    {
        let ghost i0 = old(self).start as int;
        let ghost inp = old(self).input@;
        let ghost line = old(self).current_line as nat;
        self.accept_run(CharClass::OpChar);
        proof {
            lemma_run_range(CharClass::OpChar, inp, i0 + 1);
            assert(self.pos == class_run_end(CharClass::OpChar, inp, i0 + 1));
        }
        let piece = self.input.substring_char(self.start, self.pos);
        let text = String::from_str(piece);
        let line_now = self.current_line;
        let ghost e = self.pos as int;
        let tok = Token::Operation(text, line_now);
        let ghost tv = tok@;
        self.emit(tok);
        proof {
            assert(spec_lex(inp, i0, line) == seq![tv] + spec_lex(inp, e, line));
            assert(token_views(self.tokens@) =~= token_views(old(self).tokens@) + seq![tv]);
            assert(token_views(old(self).tokens@) + seq![tv] + spec_lex(inp, e, line)
                =~= token_views(old(self).tokens@) + (seq![tv] + spec_lex(inp, e, line)));
        }
    }
}

} // verus!
