//! The lexer: partitions the input into positioned tokens.
//!
//! `lex_from` is the specification; the executable `Lexer` is proved to
//! produce exactly the tokens `lex_from` describes.
use self::token::kind::TokenKind;
use self::token::span::Span;
use self::token::Token;
use crate::error::Unexpected;
use crate::model::{
    is_ascii_alphanumeric, ErrorModel, KindModel, SpanModel, TokenModel,
};
use vstd::prelude::*;

pub mod token;

verus! {

broadcast use vstd::string::group_string_axioms;

/// A character that may start an identifier run.
pub open spec fn is_ident_start(c: char) -> bool {
    is_ascii_alphanumeric(c)
}

/// A character that may continue an identifier run.
pub open spec fn is_ident_cont(c: char) -> bool {
    is_ascii_alphanumeric(c) || c == '.' || c == '-' || c == '='
}

/// A character that forms a one-character delimiter token.
pub open spec fn is_delim(c: char) -> bool {
    c == ':' || c == '/' || c == '?' || c == '#' || c == '@'
}

/// The token kind of a delimiter character.
pub open spec fn delim_kind(c: char) -> KindModel {
    if c == ':' {
        KindModel::Colon
    } else if c == '/' {
        KindModel::ForwardSlash
    } else if c == '?' {
        KindModel::QuestionMark
    } else if c == '#' {
        KindModel::PoundSign
    } else {
        KindModel::At
    }
}

/// How many consecutive identifier-continuation characters follow from `i`.
pub open spec fn run_len(s: Seq<char>, i: int) -> nat
    decreases s.len() - i,
{
    if 0 <= i < s.len() && is_ident_cont(s[i]) {
        1 + run_len(s, i + 1)
    } else {
        0
    }
}

/// What the lexer does at position `i`: end of input, one token, or a failure.
pub enum LexStep {
    Done,
    Tok(TokenModel, int),
    Fail(char, int),
}

/// The single token starting at position `i`, if any.
pub open spec fn lex_step(s: Seq<char>, i: int) -> LexStep {
    if !(0 <= i < s.len()) {
        LexStep::Done
    } else if is_ident_start(s[i]) {
        let l = 1 + run_len(s, i + 1);
        let sp = SpanModel { start: i, len: l as int };
        LexStep::Tok(TokenModel { kind: KindModel::Ident(sp), span: sp }, i + l)
    } else if is_delim(s[i]) {
        let sp = SpanModel { start: i, len: 1 };
        LexStep::Tok(TokenModel { kind: delim_kind(s[i]), span: sp }, i + 1)
    } else {
        LexStep::Fail(s[i], i)
    }
}

/// Either the full token sequence or the first character the lexer rejects.
pub enum LexOutcome {
    Toks(Seq<TokenModel>),
    Fail(char, int),
}

/// The tokens of `s` from position `i` on, or the first rejected character.
pub open spec fn lex_from(s: Seq<char>, i: int) -> LexOutcome
    decreases s.len() - i
        via lex_from_decreases
{
    match lex_step(s, i) {
        LexStep::Done => LexOutcome::Toks(seq![]),
        LexStep::Fail(c, p) => LexOutcome::Fail(c, p),
        LexStep::Tok(t, j) => match lex_from(s, j) {
            LexOutcome::Toks(rest) => LexOutcome::Toks(seq![t] + rest),
            LexOutcome::Fail(c, p) => LexOutcome::Fail(c, p),
        },
    }
}

#[via_fn]
proof fn lex_from_decreases(s: Seq<char>, i: int) {
    if 0 <= i < s.len() && is_ident_start(s[i]) {
        lemma_run_len_bound(s, i + 1);
    }
}

/// A run never extends past the end of the input.
pub proof fn lemma_run_len_bound(s: Seq<char>, i: int)
    requires
        0 <= i <= s.len(),
    ensures
        run_len(s, i) <= s.len() - i,
    decreases s.len() - i,
{
    if i < s.len() && is_ident_cont(s[i]) {
        lemma_run_len_bound(s, i + 1);
    }
}

/// `run_len` marks a maximal run: every character inside it continues an
/// identifier, and the character just after it (if any) does not.
pub proof fn lemma_run_len_chars(s: Seq<char>, i: int)
    requires
        0 <= i <= s.len(),
    ensures
        i + run_len(s, i) <= s.len(),
        forall|k: int| i <= k < i + run_len(s, i) ==> is_ident_cont(#[trigger] s[k]),
        i + run_len(s, i) < s.len() ==> !is_ident_cont(s[i + run_len(s, i)]),
    decreases s.len() - i,
{
    if i < s.len() && is_ident_cont(s[i]) {
        lemma_run_len_chars(s, i + 1);
    }
}

/// Conversely, a maximal run of identifier characters determines `run_len`.
pub proof fn lemma_run_len_exact(s: Seq<char>, i: int, j: int)
    requires
        0 <= i <= j <= s.len(),
        forall|k: int| i <= k < j ==> is_ident_cont(#[trigger] s[k]),
        j < s.len() ==> !is_ident_cont(s[j]),
    ensures
        run_len(s, i) == j - i,
    decreases j - i,
{
    if i < j {
        assert(is_ident_cont(s[i]));
        lemma_run_len_exact(s, i + 1, j);
    }
}

/// The placement of a token the lexer emitted: its span lies in the input,
/// it is never empty, and its kind matches its span.
pub open spec fn token_placed(s: Seq<char>, t: TokenModel) -> bool {
    &&& 0 <= t.span.start
    &&& 1 <= t.span.len
    &&& t.span.start + t.span.len <= s.len()
    &&& match t.kind {
        KindModel::Ident(sp) => sp == t.span,
        KindModel::Other(_) => false,
        _ => t.span.len == 1,
    }
}

/// The characters under a token's span are the ones its kind demands; an
/// identifier run is maximal.
#[verifier::opaque]
pub open spec fn token_chars(s: Seq<char>, t: TokenModel) -> bool {
    match t.kind {
        KindModel::Ident(sp) => {
            &&& is_ident_start(s[t.span.start])
            &&& forall|k: int|
                t.span.start <= k < t.span.start + t.span.len ==> is_ident_cont(#[trigger] s[k])
            &&& t.span.start + t.span.len < s.len() ==> !is_ident_cont(
                s[t.span.start + t.span.len],
            )
        },
        KindModel::Colon => s[t.span.start] == ':',
        KindModel::ForwardSlash => s[t.span.start] == '/',
        KindModel::QuestionMark => s[t.span.start] == '?',
        KindModel::PoundSign => s[t.span.start] == '#',
        KindModel::At => s[t.span.start] == '@',
        KindModel::Other(_) => false,
    }
}

/// What is known of a single token the lexer emitted.
pub open spec fn token_ok(s: Seq<char>, t: TokenModel) -> bool {
    token_placed(s, t) && token_chars(s, t)
}

/// The summed length of the first `k` tokens.
pub open spec fn lens_before(ts: Seq<TokenModel>, k: int) -> int
    decreases k,
{
    if k <= 0 {
        0
    } else {
        lens_before(ts, k - 1) + ts[k - 1].span.len
    }
}

/// The tokens of a successful lex are well formed, contiguous from `i`, and
/// cover the input through its end.
pub open spec fn tokens_ok(s: Seq<char>, ts: Seq<TokenModel>, i: int) -> bool {
    &&& forall|k: int| 0 <= k < ts.len() ==> token_ok(s, #[trigger] ts[k])
    &&& forall|k: int|
        0 <= k < ts.len() ==> (#[trigger] ts[k].span.start) == i + lens_before(ts, k)
    &&& i + lens_before(ts, ts.len() as int) == s.len()
}

/// Prepending one token shifts the prefix sums by its length.
proof fn lemma_lens_before_cons(t: TokenModel, rest: Seq<TokenModel>, k: int)
    requires
        1 <= k <= rest.len() + 1,
    ensures
        lens_before(seq![t] + rest, k) == t.span.len + lens_before(rest, k - 1),
    decreases k,
{
    let ts = seq![t] + rest;
    if k == 1 {
        assert(lens_before(ts, 1) == lens_before(ts, 0) + ts[0].span.len);
    } else {
        lemma_lens_before_cons(t, rest, k - 1);
        assert(ts[k - 1] == rest[k - 2]);
    }
}

/// Two adjacent tokens meet: the next one starts where this one ends.
pub proof fn lemma_adjacent_tokens(s: Seq<char>, ts: Seq<TokenModel>, i: int, k: int)
    requires
        tokens_ok(s, ts, i),
        0 <= k,
        k + 1 < ts.len(),
    ensures
        ts[k + 1].span.start == ts[k].span.start + ts[k].span.len,
{
    assert(lens_before(ts, k + 1) == lens_before(ts, k) + ts[k].span.len);
}

/// A successful lex yields well-formed tokens.
pub proof fn lemma_lex_tokens_ok(s: Seq<char>, i: int, ts: Seq<TokenModel>)
    requires
        0 <= i <= s.len(),
        lex_from(s, i) == LexOutcome::Toks(ts),
    ensures
        tokens_ok(s, ts, i),
    decreases s.len() - i,
{
    reveal(token_chars);
    match lex_step(s, i) {
        LexStep::Done => {
            assert(ts =~= Seq::<TokenModel>::empty());
        },
        LexStep::Fail(_, _) => {},
        LexStep::Tok(t, j) => {
            if is_ident_start(s[i]) {
                lemma_run_len_chars(s, i + 1);
            }
            assert(i < j <= s.len());
            assert(t.span.start == i && t.span.start + t.span.len == j);
            assert(token_ok(s, t));
            let rest = match lex_from(s, j) {
                LexOutcome::Toks(rest) => rest,
                LexOutcome::Fail(_, _) => seq![],
            };
            assert(ts == seq![t] + rest);
            assert(ts.len() == 1 + rest.len());
            assert(ts[0] == t);
            assert(forall|k: int| 1 <= k < ts.len() ==> #[trigger] ts[k] == rest[k - 1]);
            lemma_lex_tokens_ok(s, j, rest);
            assert forall|k: int| 0 <= k < ts.len() implies token_ok(s, #[trigger] ts[k]) by {
                if k > 0 {
                    assert(ts[k] == rest[k - 1]);
                    assert(token_ok(s, rest[k - 1]));
                }
            }
            assert forall|k: int| 0 <= k < ts.len() implies (#[trigger] ts[k].span.start) == i
                + lens_before(ts, k) by {
                if k == 0 {
                    assert(lens_before(ts, 0) == 0);
                } else {
                    assert(ts[k] == rest[k - 1]);
                    assert(rest[k - 1].span.start == j + lens_before(rest, k - 1));
                    lemma_lens_before_cons(t, rest, k);
                }
            }
            lemma_lens_before_cons(t, rest, ts.len() as int);
        },
    }
}

/// Every character a successful lex walked over continues an identifier or
/// is a delimiter.
proof fn lemma_lex_chars_classified(s: Seq<char>, i: int)
    requires
        0 <= i <= s.len(),
        lex_from(s, i) is Toks,
    ensures
        forall|j: int| i <= j < s.len() ==> is_ident_cont(#[trigger] s[j]) || is_delim(s[j]),
    decreases s.len() - i,
{
    match lex_step(s, i) {
        LexStep::Done => {},
        LexStep::Fail(_, _) => {},
        LexStep::Tok(t, j) => {
            if is_ident_start(s[i]) {
                lemma_run_len_chars(s, i + 1);
            }
            lemma_lex_chars_classified(s, j);
            assert forall|p: int| i <= p < s.len() implies is_ident_cont(#[trigger] s[p])
                || is_delim(s[p]) by {
                if p < j {
                    if is_ident_start(s[i]) {
                        assert(is_ident_cont(s[p]));
                    } else {
                        assert(p == i);
                    }
                }
            }
        },
    }
}

/// A lexed input is pure ASCII: every character is either an identifier
/// character or a delimiter, and those all lie below code point 128.
pub proof fn lemma_lex_ascii(s: Seq<char>, ts: Seq<TokenModel>)
    requires
        lex_from(s, 0) == LexOutcome::Toks(ts),
    ensures
        vstd::utf8::is_ascii_chars(s),
{
    lemma_lex_chars_classified(s, 0);
    assert forall|j: int| 0 <= j < s.len() implies '\0' <= #[trigger] s[j] <= '\u{7f}' by {
        assert(is_ident_cont(s[j]) || is_delim(s[j]));
    }
}

/// Does this character begin an identifier run?
fn char_is_ident_start(c: char) -> (b: bool)
    ensures
        b == is_ident_start(c),
{
    ('a' <= c && c <= 'z') || ('A' <= c && c <= 'Z') || ('0' <= c && c <= '9')
}

/// Does this character continue an identifier run?
fn char_is_ident_cont(c: char) -> (b: bool)
    ensures
        b == is_ident_cont(c),
{
    char_is_ident_start(c) || c == '.' || c == '-' || c == '='
}

/// Relies on `str::chars`: yields exactly the characters of the string,
/// in order; collected here into a vector.
#[verifier::external_body]
pub(crate) fn chars_of(s: &str) -> (r: Vec<char>)
    ensures
        r@ == s@,
{
    s.chars().collect()
}

/// A forward, single-character scanner over the input.
pub struct Lexer {
    chars: Vec<char>,
    position: usize,
}

impl Lexer {
    /// The whole input being lexed.
    pub closed spec fn all(&self) -> Seq<char> {
        self.chars@
    }

    /// The current position: how many characters have been consumed.
    pub closed spec fn pos(&self) -> int {
        self.position as int
    }

    /// Everything before `pos` has been consumed; the rest is still to come.
    pub closed spec fn wf(&self) -> bool {
        self.position <= self.all().len()
    }

    pub fn new(input: &str) -> (l: Self)
        ensures
            l.wf(),
            l.all() == input@,
            l.pos() == 0,
    {
        Self { chars: chars_of(input), position: 0 }
    }

    fn peek(&self) -> (r: Option<char>)
        requires
            self.wf(),
        ensures
            r == (if self.pos() < self.all().len() {
                Some(self.all()[self.pos()])
            } else {
                None::<char>
            }),
    {
        if self.position < self.chars.len() {
            Some(self.chars[self.position])
        } else {
            None
        }
    }

    fn next(&mut self) -> (r: Option<char>)
        requires
            old(self).wf(),
        ensures
            final(self).wf(),
            final(self).all() == old(self).all(),
            match r {
                Some(c) => old(self).pos() < old(self).all().len() && c == old(self).all()[old(self).pos()] && final(self).pos() == old(self).pos() + 1,
                None => old(self).pos() == old(self).all().len() && final(self).pos() == old(self).pos(),
            },
    {
        if self.position < self.chars.len() {
            let c = self.chars[self.position];
            self.position = self.position + 1;
            Some(c)
        } else {
            None
        }
    }

    /// The next token of the input, `None` at its clean end, or the first
    /// rejected character.
    pub fn next_token(&mut self) -> (r: Result<Option<Token>, Unexpected>)
        requires
            old(self).wf(),
        ensures
            final(self).wf(),
            final(self).all() == old(self).all(),
            match r {
                Ok(Some(t)) => lex_step(old(self).all(), old(self).pos()) == LexStep::Tok(
                    t@,
                    final(self).pos(),
                ),
                Ok(None) => lex_step(old(self).all(), old(self).pos()) is Done && final(self).pos() == old(self).pos(),
                Err(u) => lex_step(old(self).all(), old(self).pos()) matches LexStep::Fail(c, p)
                    && u@ == ErrorModel::UnexpectedToken(KindModel::Other(c), p),
            },
    {
        let start = self.position;
        let ghost s = self.all();
        match self.next() {
            None => Ok(None),
            Some(ch) => {
                if char_is_ident_start(ch) {
                    let mut len: usize = 1;
                    loop
                        invariant
                            self.wf(),
                            self.all() == s,
                            1 <= len,
                            start + len == self.pos(),
                            start + len <= s.len(),
                            forall|k: int|
                                start + 1 <= k < start + len ==> is_ident_cont(#[trigger] s[k]),
                        ensures
                            self.wf(),
                            self.all() == s,
                            1 <= len,
                            start + len == self.pos(),
                            start + len <= s.len(),
                            forall|k: int|
                                start + 1 <= k < start + len ==> is_ident_cont(#[trigger] s[k]),
                            start + len == s.len() || !is_ident_cont(s[start + len]),
                        decreases s.len() - self.pos(),
                    {
                        match self.peek() {
                            Some(c2) => {
                                if char_is_ident_cont(c2) {
                                    let _consumed = self.next();
                                    len = len + 1;
                                } else {
                                    break ;
                                }
                            },
                            None => {
                                break ;
                            },
                        }
                    }
                    proof {
                        lemma_run_len_exact(s, start + 1, start + len);
                    }
                    let span = Span::new(start, len);
                    Ok(Some(Token::new(TokenKind::Ident(span), span)))
                } else {
                    let token = match ch {
                        ':' => Token::new(TokenKind::Colon, Span::new(start, 1)),
                        '/' => Token::new(TokenKind::ForwardSlash, Span::new(start, 1)),
                        '?' => Token::new(TokenKind::QuestionMark, Span::new(start, 1)),
                        '#' => Token::new(TokenKind::PoundSign, Span::new(start, 1)),
                        '@' => Token::new(TokenKind::At, Span::new(start, 1)),
                        other => {
                            return Err(Unexpected::new(TokenKind::Other(other), start));
                        },
                    };
                    Ok(Some(token))
                }
            },
        }
    }

    /// Lex the whole remaining input into a token sequence.
    pub fn tokenize(&mut self) -> (r: Result<Vec<Token>, Unexpected>)
        requires
            old(self).wf(),
        ensures
            final(self).all() == old(self).all(),
            match r {
                Ok(v) => lex_from(old(self).all(), old(self).pos()) == LexOutcome::Toks(
                    v.deep_view(),
                ) && old(self).all().len() <= usize::MAX,
                Err(u) => lex_from(old(self).all(), old(self).pos()) matches LexOutcome::Fail(c, p)
                    && u@ == ErrorModel::UnexpectedToken(KindModel::Other(c), p),
            },
    {
        let mut tokens: Vec<Token> = Vec::new();
        let ghost s = self.all();
        let ghost start_pos = self.pos();
        assert(self.all().len() <= usize::MAX) by {
            assert(self.chars@.len() == self.chars.len());
        }
        loop
            invariant
                self.wf(),
                self.all() == s,
                s == old(self).all(),
                start_pos == old(self).pos(),
                start_pos <= self.pos(),
                (match lex_from(s, self.pos()) {
                    LexOutcome::Toks(rest) => lex_from(s, start_pos) == LexOutcome::Toks(
                        tokens.deep_view() + rest,
                    ),
                    LexOutcome::Fail(c, p) => lex_from(s, start_pos) == LexOutcome::Fail(c, p),
                }),
            decreases s.len() - self.pos(),
        {
            match self.next_token() {
                Ok(Some(t)) => {
                    let ghost old_tokens = tokens.deep_view();
                    tokens.push(t);
                    proof {
                        assert(tokens.deep_view() =~= old_tokens.push(t@));
                        match lex_from(s, self.pos()) {
                            LexOutcome::Toks(rest) => {
                                assert(old_tokens.push(t@) + rest =~= old_tokens + (seq![t@]
                                    + rest));
                            },
                            LexOutcome::Fail(_, _) => {},
                        }
                    }
                },
                Ok(None) => {
                    proof {
                        assert(tokens.deep_view() + seq![] =~= tokens.deep_view());
                    }
                    return Ok(tokens);
                },
                Err(u) => {
                    return Err(u);
                },
            }
        }
    }
}

} // verus!
