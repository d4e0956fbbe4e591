//! The token scanner the assembler reads program text through. It walks the
//! text left to right once, classifying runs of characters into a closed set
//! of tokens; multi-character symbols are recognized greedily against a
//! caller-supplied symbol table.

use vstd::prelude::*;
use crate::text::{
    is_ws_char, is_alpha_char, is_digit_char, is_num_char, is_ws, is_alpha, is_digit,
    skip_ws, alnum_end, num_end, find_quote, skip_ws_from, alnum_end_from, num_end_from,
    find_quote_from, copy_range, str_is_prefix, lemma_num_end,
};
use crate::value::{Value, spec_number_micros, parse_number};

verus! {

/// The view of a sequence of owned strings.
pub open spec fn string_views(v: Seq<String>) -> Seq<Seq<char>> {
    Seq::new(v.len(), |i: int| v[i]@)
}

/// The view of a sequence of borrowed strings.
pub open spec fn str_views(v: Seq<&str>) -> Seq<Seq<char>> {
    Seq::new(v.len(), |i: int| v[i]@)
}

/// One token of program text.
#[derive(Debug, PartialEq)]
pub enum Token {
    WS,
    Id(String),
    Num(Value),
    Symbol(String),
    Str(String),
    End,
}

/// The view of a token: its text as character sequences, its number as a
/// count of micro-units.
pub enum TokenV {
    WS,
    Id(Seq<char>),
    Num(int),
    Symbol(Seq<char>),
    Str(Seq<char>),
    End,
}

impl View for Token {
    type V = TokenV;

    open spec fn view(&self) -> TokenV {
        match self {
            Token::WS => TokenV::WS,
            Token::Id(s) => TokenV::Id(s@),
            Token::Num(v) => TokenV::Num(v@),
            Token::Symbol(s) => TokenV::Symbol(s@),
            Token::Str(s) => TokenV::Str(s@),
            Token::End => TokenV::End,
        }
    }
}

/// A failure of the scanner.
#[derive(Debug)]
pub enum LexError {
    /// The text held a character no symbol of the table starts with.
    NotASymbol(String),
    /// A numeric token held more than one decimal point.
    InvalidNumber,
}

pub enum LexErrorV {
    NotASymbol(Seq<char>),
    InvalidNumber,
}

impl View for LexError {
    type V = LexErrorV;

    open spec fn view(&self) -> LexErrorV {
        match self {
            LexError::NotASymbol(s) => LexErrorV::NotASymbol(s@),
            LexError::InvalidNumber => LexErrorV::InvalidNumber,
        }
    }
}

impl LexError {
    /// The message the failure prints.
    pub fn msg(&self) -> (r: String)
        ensures
            (match self@ {
                LexErrorV::NotASymbol(s) => r@ == "not a symbol "@ + s,
                LexErrorV::InvalidNumber => r@ == "invalid float literal"@,
            }),
    {
        match self {
            LexError::NotASymbol(s) => {
                let mut m = String::from_str("not a symbol ");
                m.append(s.as_str());
                m
            },
            LexError::InvalidNumber => String::from_str("invalid float literal"),
        }
    }
}

/// Does some symbol of the table start with `t`?
pub open spec fn is_sym_prefix(syms: Seq<Seq<char>>, t: Seq<char>) -> bool {
    exists|k: int| 0 <= k < syms.len() && t.is_prefix_of(#[trigger] syms[k])
}

/// How far a symbol token reaches: starting from `start`, the token grows
/// one character at a time while it still begins some table symbol.
pub open spec fn sym_end(text: Seq<char>, syms: Seq<Seq<char>>, start: int, j: int) -> int
    recommends
        0 <= start < j <= text.len(),
    decreases text.len() - j,
{
    if j < text.len() && is_sym_prefix(syms, text.subrange(start, j + 1)) {
        sym_end(text, syms, start, j + 1)
    } else {
        j
    }
}

pub proof fn lemma_sym_end(text: Seq<char>, syms: Seq<Seq<char>>, start: int, j: int)
    requires
        0 <= start < j <= text.len(),
    ensures
        j <= sym_end(text, syms, start, j) <= text.len(),
    decreases text.len() - j,
{
    if j < text.len() && is_sym_prefix(syms, text.subrange(start, j + 1)) {
        lemma_sym_end(text, syms, start, j + 1);
    }
}

/// What one scanning step yields: a token or a failure, and the position the
/// scanner stands at afterwards.
pub enum LexStep {
    Tok(TokenV, int),
    Fail(LexErrorV, int),
}

/// The token that starts at `pos`, as 4.1 of the design describes the scan.
pub open spec fn next_token_spec(text: Seq<char>, pos: int, syms: Seq<Seq<char>>) -> LexStep
    recommends
        0 <= pos <= text.len(),
{
    if pos >= text.len() {
        LexStep::Tok(TokenV::End, pos)
    } else {
        let c = text[pos];
        if is_ws_char(c) {
            LexStep::Tok(TokenV::WS, skip_ws(text, pos))
        } else if is_alpha_char(c) {
            LexStep::Tok(TokenV::Id(text.subrange(pos, alnum_end(text, pos))), alnum_end(text, pos))
        } else if is_digit_char(c) {
            num_step(text, pos)
        } else if c == '\'' {
            let q = find_quote(text, pos + 1);
            if q < text.len() {
                LexStep::Tok(TokenV::Str(text.subrange(pos + 1, q)), q + 1)
            } else {
                LexStep::Tok(TokenV::Str(text.subrange(pos + 1, text.len() as int)), text.len() as int)
            }
        } else if c == '.' {
            if pos + 1 < text.len() && is_digit_char(text[pos + 1]) {
                num_step(text, pos)
            } else if is_sym_prefix(syms, seq!['.']) {
                LexStep::Tok(
                    TokenV::Symbol(text.subrange(pos, sym_end(text, syms, pos, pos + 1))),
                    sym_end(text, syms, pos, pos + 1),
                )
            } else {
                LexStep::Fail(LexErrorV::NotASymbol(seq!['.']), pos + 1)
            }
        } else {
            if is_sym_prefix(syms, seq![c]) {
                LexStep::Tok(
                    TokenV::Symbol(text.subrange(pos, sym_end(text, syms, pos, pos + 1))),
                    sym_end(text, syms, pos, pos + 1),
                )
            } else {
                LexStep::Fail(LexErrorV::NotASymbol(seq![c]), pos)
            }
        }
    }
}

/// A numeric token: digits and dots as far as they run, denoting a value
/// only when at most one dot occurs.
pub open spec fn num_step(text: Seq<char>, pos: int) -> LexStep
    recommends
        0 <= pos <= text.len(),
{
    let e = num_end(text, pos);
    match spec_number_micros(text.subrange(pos, e)) {
        Option::Some(m) => LexStep::Tok(TokenV::Num(m), e),
        Option::None => LexStep::Fail(LexErrorV::InvalidNumber, e),
    }
}

/// The scanner: the text, the position it stands at, and the symbol table.
pub struct Lexer {
    pub text: String,
    pub pos: usize,
    pub syms: Vec<String>,
}

impl Lexer {
    /// The scanner is positioned somewhere inside its text.
    pub open spec fn wf(&self) -> bool {
        self.pos <= self.text@.len()
    }

    /// The views of the table's symbols.
    pub open spec fn syms_view(&self) -> Seq<Seq<char>> {
        string_views(self.syms@)
    }

    /// A scanner over `txt`, recognizing the symbols of `syms`.
    pub fn new(txt: &str, syms: &[&str]) -> (r: Lexer)
        ensures
            r.text@ == txt@,
            r.pos == 0,
            r.syms_view() =~= str_views(syms@),
            r.wf(),
    {
        let mut owned: Vec<String> = Vec::new();
        let mut k: usize = 0;
        while k < syms.len()
            invariant
                0 <= k <= syms@.len(),
                owned@.len() == k,
                forall|i: int| 0 <= i < k ==> #[trigger] owned@[i]@ == syms@[i]@,
            decreases syms@.len() - k,
        {
            owned.push(String::from_str(syms[k]));
            k = k + 1;
        }
        Lexer { text: String::from_str(txt), pos: 0, syms: owned }
    }

    /// Does some table symbol start with `s`?
    pub fn is_sym_start(&self, s: &str) -> (r: bool)
        ensures
            r == is_sym_prefix(self.syms_view(), s@),
    {
        let mut k: usize = 0;
        while k < self.syms.len()
            invariant
                0 <= k <= self.syms@.len(),
                forall|i: int| 0 <= i < k ==> !s@.is_prefix_of(#[trigger] self.syms_view()[i]),
            decreases self.syms@.len() - k,
        {
            if str_is_prefix(s, self.syms[k].as_str()) {
                assert(s@.is_prefix_of(self.syms_view()[k as int]));
                return true;
            }
            k = k + 1;
        }
        false
    }

    /// The symbol token's reach, growing from `start` while the text still
    /// begins some table symbol.
    fn sym_extent(&self, start: usize) -> (e: usize)
        requires
            self.wf(),
            start < self.text@.len(),
        ensures
            e == sym_end(self.text@, self.syms_view(), start as int, start + 1),
            start < e <= self.text@.len(),
    {
        proof {
            lemma_sym_end(self.text@, self.syms_view(), start as int, start + 1);
        }
        let n: usize = self.text.as_str().unicode_len();
        let mut j: usize = start + 1;
        loop
            invariant
                start < j <= n,
                n == self.text@.len(),
                self.wf(),
                start < self.text@.len(),
                sym_end(self.text@, self.syms_view(), start as int, start + 1) == sym_end(
                    self.text@,
                    self.syms_view(),
                    start as int,
                    j as int,
                ),
            decreases n - j,
        {
            if j >= n {
                return j;
            }
            let probe = copy_range(self.text.as_str(), start, j + 1);
            if !self.is_sym_start(probe.as_str()) {
                return j;
            }
            j = j + 1;
        }
    }

    /// Scans the next token, as `next_token_spec` describes.
    pub fn next_token(&mut self) -> (r: Result<Token, LexError>)
        requires
            old(self).wf(),
        ensures
            final(self).text == old(self).text,
            final(self).syms == old(self).syms,
            final(self).wf(),
            (match next_token_spec(old(self).text@, old(self).pos as int, old(self).syms_view()) {
                LexStep::Tok(tv, np) => r matches Ok(t) && t@ == tv && final(self).pos == np,
                LexStep::Fail(ev, np) => r matches Err(e) && e@ == ev && final(self).pos == np,
            }),
    {
        let p0: usize = self.pos;
        let n: usize = self.text.as_str().unicode_len();
        if p0 >= n {
            return Ok(Token::End);
        }
        let c = self.text.as_str().get_char(p0);
        if is_ws(c) {
            let e = skip_ws_from(self.text.as_str(), p0);
            self.pos = e;
            Ok(Token::WS)
        } else if is_alpha(c) {
            let e = alnum_end_from(self.text.as_str(), p0);
            let t = copy_range(self.text.as_str(), p0, e);
            self.pos = e;
            Ok(Token::Id(t))
        } else if is_digit(c) {
            self.num_token(p0)
        } else if c == '\'' {
            let q = find_quote_from(self.text.as_str(), p0 + 1);
            if q < n {
                let t = copy_range(self.text.as_str(), p0 + 1, q);
                self.pos = q + 1;
                Ok(Token::Str(t))
            } else {
                let t = copy_range(self.text.as_str(), p0 + 1, n);
                self.pos = n;
                Ok(Token::Str(t))
            }
        } else if c == '.' {
            let digit_follows = p0 + 1 < n && is_digit(self.text.as_str().get_char(p0 + 1));
            if digit_follows {
                self.num_token(p0)
            } else {
                proof {
                    reveal_strlit(".");
                    assert("."@ =~= seq!['.']);
                }
                if self.is_sym_start(".") {
                    let e = self.sym_extent(p0);
                    let t = copy_range(self.text.as_str(), p0, e);
                    self.pos = e;
                    Ok(Token::Symbol(t))
                } else {
                    self.pos = p0 + 1;
                    Err(LexError::NotASymbol(String::from_str(".")))
                }
            }
        } else {
            let t = copy_range(self.text.as_str(), p0, p0 + 1);
            proof {
                assert(t@ =~= seq![self.text@[p0 as int]]);
            }
            if self.is_sym_start(t.as_str()) {
                let e = self.sym_extent(p0);
                let t2 = copy_range(self.text.as_str(), p0, e);
                self.pos = e;
                Ok(Token::Symbol(t2))
            } else {
                Err(LexError::NotASymbol(t))
            }
        }
    }

    /// Scans a numeric token beginning at `p0`.
    fn num_token(&mut self, p0: usize) -> (r: Result<Token, LexError>)
        requires
            old(self).wf(),
            old(self).pos == p0,
            p0 <= old(self).text@.len(),
        ensures
            final(self).text == old(self).text,
            final(self).syms == old(self).syms,
            final(self).wf(),
            (match num_step(old(self).text@, p0 as int) {
                LexStep::Tok(tv, np) => r matches Ok(t) && t@ == tv && final(self).pos == np,
                LexStep::Fail(ev, np) => r matches Err(e) && e@ == ev && final(self).pos == np,
            }),
    {
        let e = num_end_from(self.text.as_str(), p0);
        let t = copy_range(self.text.as_str(), p0, e);
        proof {
            lemma_num_end(self.text@, p0 as int);
            assert forall|k: int| 0 <= k < t@.len() implies is_num_char(#[trigger] t@[k]) by {
                assert(t@[k] == self.text@[p0 + k]);
            }
        }
        self.pos = e;
        match parse_number(t.as_str()) {
            Option::Some(v) => Ok(Token::Num(v)),
            Option::None => Err(LexError::InvalidNumber),
        }
    }
}

} // verus!
