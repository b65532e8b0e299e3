//! The tokenizer: consumes the source text character by character and
//! produces spanned tokens on demand.
//!
//! The spec functions here are the mathematical definition of the token
//! stream; the executable [`Lexer`] is proved to follow them. Offsets are
//! character indices into the source, consistent end-to-end; every token's
//! span is `[start of its first character, position after its last consumed
//! character)`.

use vstd::prelude::*;
use vstd::string::*;

use crate::location::{Spanned, SpannedM};
use crate::token::{TokM, Token};

verus! {

/// Whitespace that the tokenizer skips: space, newline, carriage return.
pub open spec fn is_space(c: char) -> bool {
    c == ' ' || c == '\n' || c == '\r'
}

/// A decimal digit.
pub open spec fn is_digit(c: char) -> bool {
    '0' as u32 <= c as u32 && c as u32 <= '9' as u32
}

/// A character that may appear in an identifier: an ASCII letter or `_`.
/// Digits are not permitted anywhere in an identifier.
pub open spec fn is_ident_char(c: char) -> bool {
    c == '_' || ('a' as u32 <= c as u32 && c as u32 <= 'z' as u32) || ('A' as u32 <= c as u32
        && c as u32 <= 'Z' as u32)
}

/// `is_space` as a first-class predicate, so that every mention below is
/// the same function value.
pub open spec fn space_p() -> spec_fn(char) -> bool {
    |c: char| is_space(c)
}

/// `is_digit` as a first-class predicate.
pub open spec fn digit_p() -> spec_fn(char) -> bool {
    |c: char| is_digit(c)
}

/// `is_ident_char` as a first-class predicate.
pub open spec fn ident_p() -> spec_fn(char) -> bool {
    |c: char| is_ident_char(c)
}

/// The numeric value of a digit character.
pub open spec fn digit_val(c: char) -> nat {
    (c as u32 - '0' as u32) as nat
}

/// The end of the run of characters satisfying `p` that starts at `i`:
/// the first position at or after `i` whose character fails `p`, or the
/// end of the text.
pub open spec fn run_end(s: Seq<char>, i: int, p: spec_fn(char) -> bool) -> int
    decreases s.len() - i,
    when 0 <= i <= s.len()
{
    if i < s.len() && p(s[i]) {
        run_end(s, i + 1, p)
    } else {
        i
    }
}

/// What `run_end` promises: it stays within `[i, s.len()]`, every character
/// before it satisfies `p`, and the character at it (if any) does not.
pub proof fn lemma_run_end(s: Seq<char>, i: int, p: spec_fn(char) -> bool)
    requires
        0 <= i <= s.len(),
    ensures
        i <= run_end(s, i, p) <= s.len(),
        forall|j: int| i <= j < run_end(s, i, p) ==> p(s[j]),
        run_end(s, i, p) < s.len() ==> !p(s[run_end(s, i, p)]),
    decreases s.len() - i,
{
    if i < s.len() && p(s[i]) {
        lemma_run_end(s, i + 1, p);
    }
}

/// The value of a sequence of digit characters read in base ten.
pub open spec fn digits_val(s: Seq<char>) -> nat
    decreases s.len(),
{
    if s.len() == 0 {
        0
    } else {
        digits_val(s.drop_last()) * 10 + digit_val(s.last())
    }
}

/// The value of a prefix of a digit run is at most the value of the run.
pub proof fn lemma_digits_val_prefix_le(s: Seq<char>, i: int)
    requires
        0 <= i <= s.len(),
    ensures
        digits_val(s.subrange(0, i)) <= digits_val(s),
    decreases s.len(),
{
    if i == s.len() {
        assert(s.subrange(0, i) =~= s);
    } else {
        lemma_digits_val_prefix_le(s.drop_last(), i);
        assert(s.drop_last().subrange(0, i) =~= s.subrange(0, i));
    }
}

/// The first position at or after `i` holding a closing double quote, or
/// the end of the text if there is none.
pub open spec fn str_body_end(s: Seq<char>, i: int) -> int
    decreases s.len() - i,
    when 0 <= i <= s.len()
{
    if i < s.len() {
        if s[i] == '"' {
            i
        } else {
            str_body_end(s, i + 1)
        }
    } else {
        i
    }
}

/// What `str_body_end` promises: it stays within `[i, s.len()]`, no quote
/// occurs before it, and it points at a quote unless it is the end.
pub proof fn lemma_str_body_end(s: Seq<char>, i: int)
    requires
        0 <= i <= s.len(),
    ensures
        i <= str_body_end(s, i) <= s.len(),
        forall|j: int| i <= j < str_body_end(s, i) ==> s[j] != '"',
        str_body_end(s, i) < s.len() ==> s[str_body_end(s, i)] == '"',
    decreases s.len() - i,
{
    if i < s.len() && s[i] != '"' {
        lemma_str_body_end(s, i + 1);
    }
}

/// The token produced at position `i` of source `s`, if any: whitespace is
/// skipped first; then the next character decides between a single-character
/// token, a maximal digit run, a quoted string (no escape processing; an
/// unterminated string keeps what was accumulated), a maximal identifier run
/// classified against the keywords, and a one-character `Error` token.
pub open spec fn next_token(s: Seq<char>, i: int) -> Option<SpannedM<TokM>>
    recommends
        0 <= i <= s.len(),
{
    let j = run_end(s, i, space_p());
    if j == s.len() {
        None
    } else {
        let c = s[j];
        if c == '=' {
            Some(SpannedM { data: TokM::Equal, start: j, end: j + 1 })
        } else if c == '+' {
            Some(SpannedM { data: TokM::Plus, start: j, end: j + 1 })
        } else if c == '-' {
            Some(SpannedM { data: TokM::Minus, start: j, end: j + 1 })
        } else if c == '*' {
            Some(SpannedM { data: TokM::Star, start: j, end: j + 1 })
        } else if c == '/' {
            Some(SpannedM { data: TokM::Slash, start: j, end: j + 1 })
        } else if c == '(' {
            Some(SpannedM { data: TokM::LPar, start: j, end: j + 1 })
        } else if c == ')' {
            Some(SpannedM { data: TokM::RPar, start: j, end: j + 1 })
        } else if is_digit(c) {
            let k = run_end(s, j, digit_p());
            Some(SpannedM { data: TokM::Int(digits_val(s.subrange(j, k))), start: j, end: k })
        } else if c == '"' {
            let k = str_body_end(s, j + 1);
            let e = if k < s.len() {
                k + 1
            } else {
                k
            };
            Some(SpannedM { data: TokM::Str(s.subrange(j + 1, k)), start: j, end: e })
        } else if is_ident_char(c) {
            let k = run_end(s, j, ident_p());
            let w = s.subrange(j, k);
            let t = if w == "let"@ {
                TokM::Let
            } else if w == "in"@ {
                TokM::In
            } else {
                TokM::Id(w)
            };
            Some(SpannedM { data: t, start: j, end: k })
        } else {
            Some(SpannedM { data: TokM::Error, start: j, end: j + 1 })
        }
    }
}

/// A produced token starts no earlier than the position asked about and
/// ends strictly after its start, within the text.
pub proof fn lemma_next_token_bounds(s: Seq<char>, i: int)
    requires
        0 <= i <= s.len(),
    ensures
        match next_token(s, i) {
            None => true,
            Some(t) => i <= t.start && t.start < t.end && t.end <= s.len(),
        },
{
    lemma_run_end(s, i, space_p());
    let j = run_end(s, i, space_p());
    if j < s.len() {
        let c = s[j];
        if is_digit(c) {
            lemma_run_end(s, j, digit_p());
            assert(digit_p()(s[j]));
            assert(run_end(s, j, digit_p()) == run_end(s, j + 1, digit_p()));
            lemma_run_end(s, j + 1, digit_p());
        } else if c == '"' {
            lemma_str_body_end(s, j + 1);
        } else if is_ident_char(c) {
            lemma_run_end(s, j, ident_p());
            assert(ident_p()(s[j]));
            assert(run_end(s, j, ident_p()) == run_end(s, j + 1, ident_p()));
            lemma_run_end(s, j + 1, ident_p());
        }
    }
}

/// The whole token sequence of `s` from position `i` on.
pub open spec fn tokens_from(s: Seq<char>, i: int) -> Seq<SpannedM<TokM>>
    decreases s.len() - i,
    when 0 <= i <= s.len() via tokens_from_decreases
{
    match next_token(s, i) {
        None => Seq::empty(),
        Some(t) => seq![t] + tokens_from(s, t.end),
    }
}

#[via_fn]
proof fn tokens_from_decreases(s: Seq<char>, i: int) {
    lemma_next_token_bounds(s, i);
}

/// The value of the maximal digit run starting at `i` fits in a machine word.
pub open spec fn digit_run_fits(s: Seq<char>, i: int) -> bool {
    digits_val(s.subrange(i, run_end(s, i, digit_p()))) <= usize::MAX
}

/// Every digit run in `s` denotes a value that fits in a machine word.
/// The tokenizer requires this bound: it has no error kind for numeric
/// overflow, so inputs beyond it are excluded rather than mis-read.
pub open spec fn int_runs_fit(s: Seq<char>) -> bool {
    forall|i: int| 0 <= i <= s.len() ==> #[trigger] digit_run_fits(s, i)
}

/// Of input that is nothing but whitespace the tokenizer makes no tokens
/// at all.
pub proof fn lemma_whitespace_only(s: Seq<char>)
    requires
        forall|i: int| 0 <= i < s.len() ==> is_space(#[trigger] s[i]),
    ensures
        tokens_from(s, 0) == Seq::<SpannedM<TokM>>::empty(),
{
    lemma_run_end(s, 0, space_p());
    let j = run_end(s, 0, space_p());
    if j < s.len() {
        assert(space_p()(s[j]));
        assert(false);
    }
    assert(next_token(s, 0) is None);
}

/// An input that is one maximal digit run tokenizes to exactly one `Int`
/// token whose span covers the whole input and whose value is the number
/// the digits denote.
pub proof fn lemma_digit_run(s: Seq<char>)
    requires
        s.len() > 0,
        forall|i: int| 0 <= i < s.len() ==> is_digit(#[trigger] s[i]),
    ensures
        tokens_from(s, 0) == seq![
            SpannedM { data: TokM::Int(digits_val(s)), start: 0, end: s.len() as int },
        ],
{
    lemma_run_end(s, 0, space_p());
    assert(!is_space(s[0]));
    assert(run_end(s, 0, space_p()) == 0);
    lemma_run_end(s, 0, digit_p());
    let k = run_end(s, 0, digit_p());
    if k < s.len() {
        assert(digit_p()(s[k]));
        assert(false);
    }
    assert(s.subrange(0, k) =~= s);
    let t = SpannedM { data: TokM::Int(digits_val(s)), start: 0, end: s.len() as int };
    assert(next_token(s, 0) == Some(t));
    lemma_run_end(s, s.len() as int, space_p());
    assert(next_token(s, s.len() as int) is None);
    assert(tokens_from(s, s.len() as int) == Seq::<SpannedM<TokM>>::empty());
    assert(tokens_from(s, 0) =~= seq![t]);
}

/// The tokenizer. `input` is the source text; `current_pos` is the scan
/// position and `start_pos` the start of the token being produced.
#[derive(Debug)]
pub struct Lexer {
    pub input: String,
    pub start_pos: usize,
    pub current_pos: usize,
}

impl Lexer {
    /// Both positions stay inside the text.
    pub open spec fn wf(self) -> bool {
        self.start_pos <= self.input@.len() && self.current_pos <= self.input@.len()
    }

    /// A fresh tokenizer positioned at the start of `input`.
    pub fn new(input: &str) -> (r: Lexer)
        ensures
            r.input@ == input@,
            r.start_pos == 0,
            r.current_pos == 0,
            r.wf(),
    {
        Lexer { input: String::from_str(input), start_pos: 0, current_pos: 0 }
    }

    /// Consume one character (if any is left) and wrap `token` with the
    /// span accumulated so far.
    pub fn single_token(&mut self, token: Token) -> (r: Spanned<Token>)
        requires
            old(self).wf(),
            old(self).start_pos <= old(self).current_pos,
        ensures
            final(self).wf(),
            final(self).input == old(self).input,
            final(self).start_pos == old(self).start_pos,
            final(self).current_pos as int == if old(self).current_pos < old(self).input@.len() {
                old(self).current_pos + 1
            } else {
                old(self).current_pos as int
            },
            r.span.start == final(self).start_pos,
            r.span.end == final(self).current_pos,
            r.data == token,
    {
        if self.current_pos < self.input.as_str().unicode_len() {
            self.current_pos = self.current_pos + 1;
        }
        self.make_token(token)
    }

    /// Wrap `token` with the span `[start_pos, current_pos)`.
    pub fn make_token(&self, token: Token) -> (r: Spanned<Token>)
        requires
            self.start_pos <= self.current_pos,
        ensures
            r.span.start == self.start_pos,
            r.span.end == self.current_pos,
            r.data == token,
    {
        Spanned::new(self.start_pos, self.current_pos, token)
    }

    /// Advance over the maximal run of characters satisfying `pred` and
    /// return the text from `start_pos` to the new scan position.
    /// `p` is the predicate `pred` decides.
    pub fn accumulate_while<F: Fn(&char) -> bool>(
        &mut self,
        pred: F,
        Ghost(p): Ghost<spec_fn(char) -> bool>,
    ) -> (r: String)
        requires
            old(self).wf(),
            old(self).start_pos <= old(self).current_pos,
            forall|c: &char| #[trigger] call_requires(pred, (c,)),
            forall|c: &char, b: bool| call_ensures(pred, (c,), b) ==> b == p(*c),
        ensures
            final(self).wf(),
            final(self).input == old(self).input,
            final(self).start_pos == old(self).start_pos,
            final(self).current_pos as int == run_end(
                old(self).input@,
                old(self).current_pos as int,
                p,
            ),
            r@ == old(self).input@.subrange(
                old(self).start_pos as int,
                final(self).current_pos as int,
            ),
    {
        let len = self.input.as_str().unicode_len();
        loop
            invariant
                self.wf(),
                self.input == old(self).input,
                self.start_pos == old(self).start_pos,
                len == self.input@.len(),
                old(self).current_pos <= self.current_pos,
                run_end(self.input@, old(self).current_pos as int, p) == run_end(
                    self.input@,
                    self.current_pos as int,
                    p,
                ),
                forall|c: &char| #[trigger] call_requires(pred, (c,)),
                forall|c: &char, b: bool| call_ensures(pred, (c,), b) ==> b == p(*c),
            ensures
                self.current_pos as int == run_end(
                    old(self).input@,
                    old(self).current_pos as int,
                    p,
                ),
            decreases self.input@.len() - self.current_pos,
        {
            if self.current_pos >= len {
                break ;
            }
            let c = self.input.as_str().get_char(self.current_pos);
            if !pred(&c) {
                break ;
            }
            self.current_pos = self.current_pos + 1;
        }
        let sub = self.input.as_str().substring_char(self.start_pos, self.current_pos);
        String::from_str(sub)
    }

    /// Produce the next token, or `None` once only whitespace is left.
    /// The result is exactly what [`next_token`] says for the current
    /// position, and the scan position moves past the produced token.
    pub fn next(&mut self) -> (r: Option<Spanned<Token>>)
        requires
            old(self).wf(),
            int_runs_fit(old(self).input@),
        ensures
            final(self).wf(),
            final(self).input == old(self).input,
            match next_token(old(self).input@, old(self).current_pos as int) {
                None => r is None && final(self).current_pos == final(self).input@.len(),
                Some(t) => {
                    &&& r matches Some(sp) && sp@ == t
                    &&& final(self).start_pos as int == t.start
                    &&& final(self).current_pos as int == t.end
                },
            },
        decreases old(self).input@.len() - old(self).current_pos,
    {
        proof {
            lemma_run_end(self.input@, self.current_pos as int, space_p());
        }
        self.start_pos = self.current_pos;
        let len = self.input.as_str().unicode_len();
        if self.current_pos >= len {
            return None;
        }
        let ghost s = self.input@;
        let ghost j = self.current_pos as int;
        let c = self.input.as_str().get_char(self.current_pos);
        if c == ' ' || c == '\n' || c == '\r' {
            let _ = self.accumulate_while(is_whitespace, Ghost(space_p()));
            proof {
                lemma_run_end(s, self.current_pos as int, space_p());
                assert(run_end(s, self.current_pos as int, space_p()) == self.current_pos as int);
                assert(next_token(s, j) == next_token(s, self.current_pos as int));
            }
            return self.next();
        }
        assert(run_end(s, j, space_p()) == j);
        let r = if c == '=' {
            self.single_token(Token::Equal)
        } else if c == '+' {
            self.single_token(Token::Plus)
        } else if c == '-' {
            self.single_token(Token::Minus)
        } else if c == '*' {
            self.single_token(Token::Star)
        } else if c == '/' {
            self.single_token(Token::Slash)
        } else if c == '(' {
            self.single_token(Token::LPar)
        } else if c == ')' {
            self.single_token(Token::RPar)
        } else if '0' <= c && c <= '9' {
            let slice = self.accumulate_while(is_digit_char, Ghost(digit_p()));
            proof {
                lemma_run_end(s, j, digit_p());
                assert(digit_run_fits(s, j));
                assert forall|q: int| 0 <= q < slice@.len() implies is_digit(
                    #[trigger] slice@[q],
                ) by {
                    assert(slice@[q] == s[j + q]);
                    assert(digit_p()(s[j + q]));
                }
            }
            let number = parse_digits(&slice);
            self.make_token(Token::Int(number))
        } else if c == '"' {
            self.current_pos = self.current_pos + 1;
            let ghost b = j + 1;
            loop
                invariant
                    self.wf(),
                    self.input == old(self).input,
                    self.input@ == s,
                    self.start_pos as int == j,
                    len == s.len(),
                    b <= self.current_pos <= s.len(),
                    str_body_end(s, b) == str_body_end(s, self.current_pos as int),
                ensures
                    self.input == old(self).input,
                    self.input@ == s,
                    self.start_pos as int == j,
                    self.current_pos as int == str_body_end(s, b),
                decreases s.len() - self.current_pos,
            {
                if self.current_pos >= len {
                    break ;
                }
                let x = self.input.as_str().get_char(self.current_pos);
                if x == '"' {
                    break ;
                }
                self.current_pos = self.current_pos + 1;
            }
            let content = self.input.as_str().substring_char(self.start_pos + 1, self.current_pos);
            let string = String::from_str(content);
            if self.current_pos < len {
                self.current_pos = self.current_pos + 1;
            }
            self.make_token(Token::Str(string))
        } else if c == '_' || ('a' <= c && c <= 'z') || ('A' <= c && c <= 'Z') {
            let word = self.accumulate_while(is_identifier, Ghost(ident_p()));
            proof {
                lemma_run_end(s, j, ident_p());
            }
            if word == String::from_str("let") {
                self.make_token(Token::Let)
            } else if word == String::from_str("in") {
                self.make_token(Token::In)
            } else {
                self.make_token(Token::Id(word))
            }
        } else {
            self.single_token(Token::Error)
        };
        Some(r)
    }
}

/// Whether `char` may stand in an identifier.
pub fn is_identifier(char: &char) -> (b: bool)
    ensures
        b == is_ident_char(*char),
{
    *char == '_' || ('a' <= *char && *char <= 'z') || ('A' <= *char && *char <= 'Z')
}

/// Whether `char` is whitespace the tokenizer skips.
pub fn is_whitespace(char: &char) -> (b: bool)
    ensures
        b == is_space(*char),
{
    *char == ' ' || *char == '\n' || *char == '\r'
}

/// Whether `char` is a decimal digit.
pub fn is_digit_char(char: &char) -> (b: bool)
    ensures
        b == is_digit(*char),
{
    '0' <= *char && *char <= '9'
}

/// The machine-word value of a string of digit characters.
fn parse_digits(s: &String) -> (v: usize)
    requires
        forall|i: int| 0 <= i < s@.len() ==> is_digit(#[trigger] s@[i]),
        digits_val(s@) <= usize::MAX,
    ensures
        v as nat == digits_val(s@),
{
    let n = s.as_str().unicode_len();
    let mut v: usize = 0;
    let mut i: usize = 0;
    while i < n
        invariant
            i <= n,
            n == s@.len(),
            forall|k: int| 0 <= k < s@.len() ==> is_digit(#[trigger] s@[k]),
            digits_val(s@) <= usize::MAX,
            v as nat == digits_val(s@.subrange(0, i as int)),
        decreases n - i,
    {
        let c = s.as_str().get_char(i);
        let d = (c as u32 - '0' as u32) as usize;
        proof {
            lemma_digits_val_prefix_le(s@, i + 1);
            assert(s@.subrange(0, i + 1).drop_last() =~= s@.subrange(0, i as int));
            assert(s@.subrange(0, i + 1).last() == s@[i as int]);
        }
        v = v * 10 + d;
        i = i + 1;
    }
    proof {
        assert(s@.subrange(0, s@.len() as int) =~= s@);
    }
    v
}

} // verus!
