//! The parser: consumes the token stream in fixed component order
//! (scheme, authority, path, query, fragment).
//!
//! The `*_phase` spec functions are the specification: each takes the input
//! text, the token sequence and the cursor, and gives the recognized
//! component together with the new cursor, or the error that aborts the
//! parse.  The executable `UriParser` is proved to follow them exactly.
use crate::error::{Error, Unexpected};
use crate::model::{
    all_digits, digits_value, fold_char, fold_seq, is_ascii_digit, is_host_char, is_scheme_char,
    authority_ok, lemma_digits_value_mono, lemma_digits_value_nonneg, span_in, span_text,
    valid_host_text,
    valid_port_text, valid_scheme_text, AuthorityModel, ErrorModel, KindModel, SpanModel,
    TokenModel, UriModel,
};
use crate::parsing::lexer::token::kind::TokenKind;
use crate::parsing::lexer::token::span::Span;
use crate::parsing::lexer::token::Token;
use crate::parsing::lexer::{
    chars_of, lemma_adjacent_tokens, lemma_lex_ascii, lemma_lex_tokens_ok, lex_from, token_ok,
    tokens_ok, LexOutcome, Lexer,
};
use crate::{Authority, Uri};
use vstd::prelude::*;
use vstd::utf8::is_ascii_chars;

pub mod lexer;

verus! {

broadcast use crate::parsing::lexer::token::span::lemma_span_model_nonneg;

/// Scheme: recognized exactly when the stream starts with an identifier
/// immediately followed by a colon; the identifier must pass the scheme
/// character check.
pub open spec fn scheme_phase(s: Seq<char>, ts: Seq<TokenModel>) -> Result<
    (Option<SpanModel>, int),
    ErrorModel,
> {
    if ts.len() >= 2 && ts[0].kind is Ident && ts[1].kind is Colon {
        let sp = ts[0].span;
        if valid_scheme_text(crate::model::span_text(s, sp)) {
            Ok((Some(sp), 2))
        } else {
            Err(ErrorModel::InvalidSchemeCharacters)
        }
    } else {
        Ok((None, 0))
    }
}

/// Userinfo: an identifier immediately followed by `@`; absence is fine.
pub open spec fn userinfo_phase(ts: Seq<TokenModel>, i: int) -> (Option<SpanModel>, int) {
    if i + 1 < ts.len() && ts[i].kind is Ident && ts[i + 1].kind is At {
        (Some(ts[i].span), i + 2)
    } else {
        (None, i)
    }
}

/// Host: the next token must be an identifier passing the host character
/// check; a missing identifier is a missing host.
pub open spec fn host_phase(s: Seq<char>, ts: Seq<TokenModel>, i: int) -> Result<
    (SpanModel, int),
    ErrorModel,
> {
    if 0 <= i < ts.len() && ts[i].kind is Ident {
        if valid_host_text(crate::model::span_text(s, ts[i].span)) {
            Ok((ts[i].span, i + 1))
        } else {
            Err(ErrorModel::InvalidHostCharacters)
        }
    } else {
        Err(ErrorModel::MissingHost)
    }
}

/// Port: a colon introduces it.  An identifier after the colon must be a
/// decimal number fitting sixteen bits; a colon followed by anything else
/// is tolerated as "no port", and only the colon is consumed.
pub open spec fn port_phase(s: Seq<char>, ts: Seq<TokenModel>, i: int) -> Result<
    (Option<SpanModel>, int),
    ErrorModel,
> {
    if 0 <= i < ts.len() && ts[i].kind is Colon {
        if i + 1 < ts.len() && ts[i + 1].kind is Ident {
            let sp = ts[i + 1].span;
            if valid_port_text(crate::model::span_text(s, sp)) {
                Ok((Some(sp), i + 2))
            } else {
                Err(ErrorModel::InvalidPort)
            }
        } else {
            Ok((None, i + 1))
        }
    } else {
        Ok((None, i))
    }
}

/// Authority: recognized exactly when two forward slashes follow; then
/// userinfo, host and port are taken in order.
pub open spec fn authority_phase(s: Seq<char>, ts: Seq<TokenModel>, i: int) -> Result<
    (Option<AuthorityModel>, int),
    ErrorModel,
> {
    if 0 <= i && i + 1 < ts.len() && ts[i].kind is ForwardSlash && ts[i + 1].kind
        is ForwardSlash {
        let (userinfo, j) = userinfo_phase(ts, i + 2);
        match host_phase(s, ts, j) {
            Err(e) => Err(e),
            Ok((host, k)) => match port_phase(s, ts, k) {
                Err(e) => Err(e),
                Ok((port, m)) => Ok((Some(AuthorityModel { userinfo, host, port }), m)),
            },
        }
    } else {
        Ok((None, i))
    }
}

/// Is this a token the path phase consumes?
pub open spec fn is_path_token(t: TokenModel) -> bool {
    t.kind is ForwardSlash || t.kind is Ident
}

/// Where the run of path tokens starting at `i` ends.
pub open spec fn path_run_end(ts: Seq<TokenModel>, i: int) -> int
    decreases ts.len() - i,
{
    if 0 <= i < ts.len() && is_path_token(ts[i]) {
        path_run_end(ts, i + 1)
    } else {
        i
    }
}

/// The summed length of the path tokens starting at `i`.
pub open spec fn path_run_len(ts: Seq<TokenModel>, i: int) -> int
    decreases ts.len() - i,
{
    if 0 <= i < ts.len() && is_path_token(ts[i]) {
        ts[i].span.len + path_run_len(ts, i + 1)
    } else {
        0
    }
}

/// Path: greedily consumes forward slashes and identifiers; the span starts
/// at the first consumed token and accumulates their lengths.  No tokens
/// mean an empty path.  This phase cannot fail.
pub open spec fn path_phase(ts: Seq<TokenModel>, i: int) -> (SpanModel, int) {
    let j = path_run_end(ts, i);
    if j == i {
        (SpanModel { start: 0, len: 0 }, i)
    } else {
        (SpanModel { start: ts[i].span.start, len: path_run_len(ts, i) }, j)
    }
}

/// After the question mark: identifier lengths accumulate until a pound
/// sign or the end; any other token kind aborts the parse.
pub open spec fn query_scan(ts: Seq<TokenModel>, i: int) -> Result<(int, int), ErrorModel>
    decreases ts.len() - i,
{
    if !(0 <= i < ts.len()) || ts[i].kind is PoundSign {
        Ok((0, i))
    } else if ts[i].kind is Ident {
        match query_scan(ts, i + 1) {
            Ok((sum, j)) => Ok((ts[i].span.len + sum, j)),
            Err(e) => Err(e),
        }
    } else {
        Err(ErrorModel::UnexpectedToken(ts[i].kind, ts[i].span.start))
    }
}

/// Query: recognized exactly when a question mark is next.  Its span starts
/// at the token after the question mark (position zero when there is none).
pub open spec fn query_phase(ts: Seq<TokenModel>, i: int) -> Result<
    (Option<SpanModel>, int),
    ErrorModel,
> {
    if 0 <= i < ts.len() && ts[i].kind is QuestionMark {
        let start = if i + 1 < ts.len() {
            ts[i + 1].span.start
        } else {
            0
        };
        match query_scan(ts, i + 1) {
            Ok((sum, j)) => Ok((Some(SpanModel { start, len: sum }), j)),
            Err(e) => Err(e),
        }
    } else {
        Ok((None, i))
    }
}

/// Fragment: recognized exactly when a pound sign is next; it must be
/// followed by an identifier or by the end of the stream.
pub open spec fn fragment_phase(ts: Seq<TokenModel>, i: int) -> Result<
    (Option<SpanModel>, int),
    ErrorModel,
> {
    if 0 <= i < ts.len() && ts[i].kind is PoundSign {
        if i + 1 >= ts.len() {
            Ok((None, i + 1))
        } else if ts[i + 1].kind is Ident {
            Ok((Some(ts[i + 1].span), i + 2))
        } else {
            Err(ErrorModel::UnexpectedToken(ts[i + 1].kind, ts[i + 1].span.start))
        }
    } else {
        Ok((None, i))
    }
}

/// The five phases in order, followed by the check that a scheme never
/// stands without an authority.  Tokens left after the fragment are ignored.
pub open spec fn parse_tokens(s: Seq<char>, ts: Seq<TokenModel>) -> Result<UriModel, ErrorModel> {
    match scheme_phase(s, ts) {
        Err(e) => Err(e),
        Ok((scheme, i1)) => match authority_phase(s, ts, i1) {
            Err(e) => Err(e),
            Ok((authority, i2)) => {
                let (path, i3) = path_phase(ts, i2);
                match query_phase(ts, i3) {
                    Err(e) => Err(e),
                    Ok((query, i4)) => match fragment_phase(ts, i4) {
                        Err(e) => Err(e),
                        Ok((fragment, _)) => {
                            if scheme is Some && authority is None {
                                Err(ErrorModel::SchemeWithoutAuthority)
                            } else {
                                Ok(UriModel { scheme, authority, path, query, fragment })
                            }
                        },
                    },
                }
            },
        },
    }
}

/// The whole pipeline on an already case-folded text: lex, then parse.
pub open spec fn parse_uri(s: Seq<char>) -> Result<UriModel, ErrorModel> {
    match lex_from(s, 0) {
        LexOutcome::Fail(c, p) => Err(ErrorModel::UnexpectedToken(KindModel::Other(c), p)),
        LexOutcome::Toks(ts) => parse_tokens(s, ts),
    }
}


/// Relies on `String`'s `FromIterator`: builds the string of exactly these
/// characters, in order.
#[verifier::external_body]
fn string_from_chars(v: &Vec<char>) -> (r: String)
    ensures
        r@ == v@,
{
    v.iter().copied().collect()
}

/// ASCII case folding of one character.
fn fold_char_exec(c: char) -> (r: char)
    ensures
        r == fold_char(c),
{
    if 'A' <= c && c <= 'Z' {
        let u = c as u32;
        ((u + 32) as u8) as char
    } else {
        c
    }
}

/// Case normalization: ASCII-lower the whole input before lexing.
fn fold_chars(v: &Vec<char>) -> (r: Vec<char>)
    ensures
        r@ == fold_seq(v@),
{
    let mut out: Vec<char> = Vec::new();
    let mut i: usize = 0;
    while i < v.len()
        invariant
            i <= v.len(),
            out@ == fold_seq(v@).take(i as int),
        decreases v.len() - i,
    {
        let c = v[i];
        out.push(fold_char_exec(c));
        proof {
            assert(out@ =~= fold_seq(v@).take(i + 1 as int));
        }
        i = i + 1;
    }
    proof {
        assert(fold_seq(v@).take(v@.len() as int) =~= fold_seq(v@));
    }
    out
}

/// Are all characters in `[start, end)` acceptable in a scheme?
fn is_valid_scheme(chars: &Vec<char>, start: usize, end: usize) -> (b: bool)
    requires
        start <= end <= chars@.len(),
    ensures
        b == valid_scheme_text(chars@.subrange(start as int, end as int)),
{
    let ghost sub = chars@.subrange(start as int, end as int);
    let mut i: usize = start;
    while i < end
        invariant
            start <= i <= end <= chars@.len(),
            sub == chars@.subrange(start as int, end as int),
            forall|k: int| start <= k < i ==> is_scheme_char(#[trigger] chars@[k]),
        decreases end - i,
    {
        let c = chars[i];
        if !(('a' <= c && c <= 'z') || ('A' <= c && c <= 'Z') || c == '+' || c == '-' || c == '.')
        {
            proof {
                assert(sub[i - start] == chars@[i as int]);
                assert(!is_scheme_char(sub[i - start]));
            }
            return false;
        }
        i = i + 1;
    }
    proof {
        assert forall|k: int| 0 <= k < sub.len() implies is_scheme_char(#[trigger] sub[k]) by {
            assert(sub[k] == chars@[start + k]);
        }
    }
    true
}

/// Are all characters in `[start, end)` acceptable in a host?
fn is_valid_host(chars: &Vec<char>, start: usize, end: usize) -> (b: bool)
    requires
        start <= end <= chars@.len(),
    ensures
        b == valid_host_text(chars@.subrange(start as int, end as int)),
{
    let ghost sub = chars@.subrange(start as int, end as int);
    let mut i: usize = start;
    while i < end
        invariant
            start <= i <= end <= chars@.len(),
            sub == chars@.subrange(start as int, end as int),
            forall|k: int| start <= k < i ==> is_host_char(#[trigger] chars@[k]),
        decreases end - i,
    {
        let c = chars[i];
        if !(('a' <= c && c <= 'z') || ('A' <= c && c <= 'Z') || ('0' <= c && c <= '9') || c == '-'
            || c == '.') {
            proof {
                assert(sub[i - start] == chars@[i as int]);
                assert(!is_host_char(sub[i - start]));
            }
            return false;
        }
        i = i + 1;
    }
    proof {
        assert forall|k: int| 0 <= k < sub.len() implies is_host_char(#[trigger] sub[k]) by {
            assert(sub[k] == chars@[start + k]);
        }
    }
    true
}

/// Read the characters in `[start, end)` as a decimal port number:
/// `Some` exactly when they are all digits and their value fits sixteen bits.
fn parse_port_value(chars: &Vec<char>, start: usize, end: usize) -> (r: Option<u16>)
    requires
        start <= end <= chars@.len(),
    ensures
        match r {
            Some(v) => valid_port_text(chars@.subrange(start as int, end as int)) && v
                == digits_value(chars@.subrange(start as int, end as int)),
            None => !valid_port_text(chars@.subrange(start as int, end as int)),
        },
{
    let ghost sub = chars@.subrange(start as int, end as int);
    let mut value: u32 = 0;
    let mut i: usize = start;
    while i < end
        invariant
            start <= i <= end <= chars@.len(),
            sub == chars@.subrange(start as int, end as int),
            forall|k: int| start <= k < i ==> is_ascii_digit(#[trigger] chars@[k]),
            value == digits_value(sub.take(i - start)),
            value <= 65535,
        decreases end - i,
    {
        let c = chars[i];
        if !('0' <= c && c <= '9') {
            proof {
                assert(sub[i - start] == chars@[i as int]);
                assert(!is_ascii_digit(sub[i - start]));
            }
            return None;
        }
        let d = (c as u32) - 48;
        value = value * 10 + d;
        proof {
            assert(sub.take(i + 1 - start).drop_last() =~= sub.take(i - start));
            assert(sub.take(i + 1 - start).last() == sub[i - start]);
            assert(sub[i - start] == chars@[i as int]);
        }
        if value > 65535 {
            proof {
                if all_digits(sub) {
                    lemma_digits_value_mono(sub, i + 1 - start);
                } else {
                }
            }
            return None;
        }
        i = i + 1;
    }
    proof {
        assert(sub.take(end - start) =~= sub);
        assert forall|k: int| 0 <= k < sub.len() implies is_ascii_digit(#[trigger] sub[k]) by {
            assert(sub[k] == chars@[start + k]);
        }
    }
    Some(value as u16)
}

/// The bounds of a path run: it stays inside the token sequence, its
/// summed length is non-negative, and (using token contiguity) the span it
/// builds ends exactly where its last token ends.
#[verifier::rlimit(100)]
pub proof fn lemma_path_run(s: Seq<char>, ts: Seq<TokenModel>, i: int)
    requires
        tokens_ok(s, ts, 0),
        0 <= i <= ts.len(),
    ensures
        i <= path_run_end(ts, i) <= ts.len(),
        path_run_len(ts, i) >= 0,
        path_run_end(ts, i) > i ==> ts[i].span.start + path_run_len(ts, i) == ts[path_run_end(
            ts,
            i,
        ) - 1].span.start + ts[path_run_end(ts, i) - 1].span.len,
    decreases ts.len() - i,
{
    if 0 <= i < ts.len() && is_path_token(ts[i]) {
        lemma_path_run(s, ts, i + 1);
        let j = path_run_end(ts, i);
        assert(j == path_run_end(ts, i + 1));
        if i + 1 < ts.len() && is_path_token(ts[i + 1]) {
            lemma_path_run(s, ts, i + 2);
            assert(path_run_end(ts, i + 1) == path_run_end(ts, i + 2));
            lemma_adjacent_tokens(s, ts, 0, i);
        } else {
            assert(path_run_end(ts, i + 1) == i + 1);
            assert(path_run_len(ts, i + 1) == 0);
        }
    }
}

/// A maximal run of path tokens determines where the path phase stops.
pub proof fn lemma_path_run_exact(ts: Seq<TokenModel>, i: int, j: int)
    requires
        0 <= i <= j <= ts.len(),
        forall|k: int| i <= k < j ==> is_path_token(#[trigger] ts[k]),
        j < ts.len() ==> !is_path_token(ts[j]),
    ensures
        path_run_end(ts, i) == j,
    decreases j - i,
{
    if i < j {
        assert(is_path_token(ts[i]));
        lemma_path_run_exact(ts, i + 1, j);
    }
}


/// The parser state: the case-folded text, its characters, the token
/// stream, and a cursor that only moves forward.
pub struct UriParser {
    input: String,
    chars: Vec<char>,
    tokens: Vec<Token>,
    cursor: usize,
}

impl UriParser {
    /// The case-folded input text.
    pub closed spec fn text(&self) -> Seq<char> {
        self.input@
    }

    /// The models of the tokens.
    pub closed spec fn toks(&self) -> Seq<TokenModel> {
        self.tokens.deep_view()
    }

    /// The cursor: how many tokens have been consumed.
    pub closed spec fn at(&self) -> int {
        self.cursor as int
    }

    /// The tokens are exactly the lex of the text, the text is ASCII, and
    /// the cursor lies inside the token sequence.
    pub closed spec fn wf(&self) -> bool {
        &&& self.chars@ == self.input@
        &&& tokens_ok(self.text(), self.toks(), 0)
        &&& is_ascii_chars(self.text())
        &&& self.text().len() <= usize::MAX
        &&& self.cursor <= self.tokens.len()
    }

    /// Case-fold the input and lex it; fails on the first character the
    /// lexer rejects.
    pub fn new(input: &str) -> (r: Result<Self, Unexpected>)
        ensures
            match r {
                Ok(p) => p.wf() && p.at() == 0 && p.text() == fold_seq(input@) && lex_from(
                    p.text(),
                    0,
                ) == LexOutcome::Toks(p.toks()),
                Err(u) => lex_from(fold_seq(input@), 0) matches LexOutcome::Fail(c, pos) && u@
                    == ErrorModel::UnexpectedToken(KindModel::Other(c), pos),
            },
    {
        let raw = chars_of(input);
        let folded = fold_chars(&raw);
        let source = string_from_chars(&folded);
        let mut lexer = Lexer::new(source.as_str());
        match lexer.tokenize() {
            Err(u) => Err(u),
            Ok(tokens) => {
                proof {
                    lemma_lex_tokens_ok(source@, 0, tokens.deep_view());
                    lemma_lex_ascii(source@, tokens.deep_view());
                }
                Ok(UriParser { input: source, chars: folded, tokens, cursor: 0 })
            },
        }
    }

    /// Scheme phase.
    fn parse_scheme(&mut self) -> (r: Result<Option<Span>, Error>)
        requires
            old(self).wf(),
            old(self).at() == 0,
        ensures
            final(self).wf(),
            final(self).text() == old(self).text(),
            final(self).toks() == old(self).toks(),
            match r {
                Ok(os) => scheme_phase(old(self).text(), old(self).toks()) == Ok::<
                    (Option<SpanModel>, int),
                    ErrorModel,
                >((os.deep_view(), final(self).at())) && (os matches Some(sp) ==> span_in(
                    old(self).text(),
                    sp@,
                )),
                Err(e) => scheme_phase(old(self).text(), old(self).toks()) == Err::<
                    (Option<SpanModel>, int),
                    ErrorModel,
                >(e@),
            },
    {
        let ghost s = self.text();
        let ghost ts = self.toks();
        if self.tokens.len() >= 2 {
            let t0 = self.tokens[0];
            let t1 = self.tokens[1];
            proof {
                assert(t0@ == ts[0]);
                assert(t1@ == ts[1]);
                assert(token_ok(s, ts[0]));
            }
            if let TokenKind::Ident(sp) = *t0.kind() {
                if matches!(*t1.kind(), TokenKind::Colon) {
                    proof {
                        assert(ts[0].kind == KindModel::Ident(sp@));
                        assert(sp@ == ts[0].span);
                    }
                    let lo = sp.start();
                    let hi = sp.end();
                    if is_valid_scheme(&self.chars, lo, hi) {
                        self.cursor = 2;
                        return Ok(Some(sp));
                    } else {
                        return Err(Error::InvalidSchemeCharacters);
                    }
                }
            }
        }
        Ok(None)
    }

    /// Userinfo phase.
    fn parse_userinfo(&mut self) -> (r: Option<Span>)
        requires
            old(self).wf(),
        ensures
            final(self).wf(),
            final(self).text() == old(self).text(),
            final(self).toks() == old(self).toks(),
            userinfo_phase(old(self).toks(), old(self).at()) == (r.deep_view(), final(self).at()),
            r matches Some(sp) ==> span_in(old(self).text(), sp@),
    {
        let ghost s = self.text();
        let ghost ts = self.toks();
        if self.cursor < self.tokens.len() && self.cursor + 1 < self.tokens.len() {
            let t0 = self.tokens[self.cursor];
            let t1 = self.tokens[self.cursor + 1];
            proof {
                assert(t0@ == ts[self.at()]);
                assert(t1@ == ts[self.at() + 1]);
                assert(token_ok(s, ts[self.at()]));
            }
            if let TokenKind::Ident(sp) = *t0.kind() {
                if matches!(*t1.kind(), TokenKind::At) {
                    proof {
                        assert(sp@ == ts[self.at()].span);
                    }
                    self.cursor = self.cursor + 2;
                    return Some(sp);
                }
            }
        }
        None
    }

    /// Host phase.
    fn parse_host(&mut self) -> (r: Result<Span, Error>)
        requires
            old(self).wf(),
        ensures
            final(self).wf(),
            final(self).text() == old(self).text(),
            final(self).toks() == old(self).toks(),
            match r {
                Ok(sp) => host_phase(old(self).text(), old(self).toks(), old(self).at()) == Ok::<
                    (SpanModel, int),
                    ErrorModel,
                >((sp@, final(self).at())) && span_in(old(self).text(), sp@),
                Err(e) => host_phase(old(self).text(), old(self).toks(), old(self).at()) == Err::<
                    (SpanModel, int),
                    ErrorModel,
                >(e@),
            },
    {
        let ghost s = self.text();
        let ghost ts = self.toks();
        if self.cursor < self.tokens.len() {
            let t = self.tokens[self.cursor];
            proof {
                assert(t@ == ts[self.at()]);
                assert(token_ok(s, ts[self.at()]));
            }
            if let TokenKind::Ident(sp) = *t.kind() {
                proof {
                    assert(sp@ == ts[self.at()].span);
                }
                let lo = sp.start();
                let hi = sp.end();
                if is_valid_host(&self.chars, lo, hi) {
                    self.cursor = self.cursor + 1;
                    return Ok(sp);
                } else {
                    return Err(Error::InvalidHostCharacters);
                }
            }
        }
        Err(Error::MissingHost)
    }

    /// Port phase: returns the span and the validated numeric value.
    fn parse_port(&mut self) -> (r: Result<Option<(Span, u16)>, Error>)
        requires
            old(self).wf(),
        ensures
            final(self).wf(),
            final(self).text() == old(self).text(),
            final(self).toks() == old(self).toks(),
            match r {
                Ok(op) => match op {
                    Some((sp, v)) => port_phase(old(self).text(), old(self).toks(), old(self).at())
                        == Ok::<(Option<SpanModel>, int), ErrorModel>((
                        Some(sp@),
                        final(self).at(),
                    )) && span_in(old(self).text(), sp@) && valid_port_text(
                        span_text(old(self).text(), sp@),
                    ) && v == digits_value(span_text(old(self).text(), sp@)),
                    None => port_phase(old(self).text(), old(self).toks(), old(self).at()) == Ok::<
                        (Option<SpanModel>, int),
                        ErrorModel,
                    >((None, final(self).at())),
                },
                Err(e) => port_phase(old(self).text(), old(self).toks(), old(self).at()) == Err::<
                    (Option<SpanModel>, int),
                    ErrorModel,
                >(e@),
            },
    {
        let ghost s = self.text();
        let ghost ts = self.toks();
        if self.cursor < self.tokens.len() && matches!(
            *self.tokens[self.cursor].kind(),
            TokenKind::Colon,
        ) {
            proof {
                assert(self.tokens@[self.at()]@ == ts[self.at()]);
            }
            if self.cursor + 1 < self.tokens.len() {
                let t = self.tokens[self.cursor + 1];
                proof {
                    assert(t@ == ts[self.at() + 1]);
                    assert(token_ok(s, ts[self.at() + 1]));
                }
                if let TokenKind::Ident(sp) = *t.kind() {
                    proof {
                        assert(sp@ == ts[self.at() + 1].span);
                    }
                    let lo = sp.start();
                    let hi = sp.end();
                    match parse_port_value(&self.chars, lo, hi) {
                        Some(v) => {
                            self.cursor = self.cursor + 2;
                            return Ok(Some((sp, v)));
                        },
                        None => {
                            return Err(Error::InvalidPort);
                        },
                    }
                }
            }
            self.cursor = self.cursor + 1;
            return Ok(None);
        }
        Ok(None)
    }

    /// Authority phase.
    fn parse_authority(&mut self) -> (r: Result<Option<Authority>, Error>)
        requires
            old(self).wf(),
        ensures
            final(self).wf(),
            final(self).text() == old(self).text(),
            final(self).toks() == old(self).toks(),
            match r {
                Ok(oa) => authority_phase(old(self).text(), old(self).toks(), old(self).at())
                    == Ok::<(Option<AuthorityModel>, int), ErrorModel>((
                    oa.deep_view(),
                    final(self).at(),
                )) && (oa matches Some(a) ==> authority_ok(old(self).text(), a@, a.port_value)),
                Err(e) => authority_phase(old(self).text(), old(self).toks(), old(self).at())
                    == Err::<(Option<AuthorityModel>, int), ErrorModel>(e@),
            },
    {
        let ghost s = self.text();
        let ghost ts = self.toks();
        let ghost i0 = self.at();
        let n = self.tokens.len();
        let mut two_slashes = false;
        if self.cursor < n && self.cursor + 1 < n {
            proof {
                assert(self.tokens@[i0]@ == ts[i0]);
                assert(self.tokens@[i0 + 1]@ == ts[i0 + 1]);
            }
            let a = matches!(*self.tokens[self.cursor].kind(), TokenKind::ForwardSlash);
            let b = matches!(*self.tokens[self.cursor + 1].kind(), TokenKind::ForwardSlash);
            two_slashes = a && b;
        }
        if two_slashes {
            self.cursor = self.cursor + 2;
            let userinfo = self.parse_userinfo();
            let host = match self.parse_host() {
                Ok(h) => h,
                Err(e) => {
                    return Err(e);
                },
            };
            let port_pair = match self.parse_port() {
                Ok(p) => p,
                Err(e) => {
                    return Err(e);
                },
            };
            let (port, port_value) = match port_pair {
                Some((sp, v)) => (Some(sp), Some(v)),
                None => (None, None),
            };
            let authority = Authority::new(userinfo, host, port, port_value);
            Ok(Some(authority))
        } else {
            Ok(None)
        }
    }

    /// Path phase: cannot fail.
    #[verifier::rlimit(100)]
    fn parse_path(&mut self) -> (r: Span)
        requires
            old(self).wf(),
        ensures
            final(self).wf(),
            final(self).text() == old(self).text(),
            final(self).toks() == old(self).toks(),
            path_phase(old(self).toks(), old(self).at()) == (r@, final(self).at()),
            span_in(old(self).text(), r@),
    {
        let ghost s = self.text();
        let ghost ts = self.toks();
        let ghost i0 = self.at();
        let mut path = Span::new(0, 0);
        let mut first = true;
        loop
            invariant
                self.wf(),
                self.text() == s,
                self.toks() == ts,
                s == old(self).text(),
                ts == old(self).toks(),
                i0 == old(self).at(),
                0 <= i0 <= self.at() <= ts.len(),
                forall|k: int| i0 <= k < self.at() ==> is_path_token(#[trigger] ts[k]),
                first <==> self.at() == i0,
                first ==> path@ == (SpanModel { start: 0, len: 0 }),
                !first ==> path@.start == ts[i0].span.start && path@.start + path@.len
                    == ts[self.at() - 1].span.start + ts[self.at() - 1].span.len,
            ensures
                self.wf(),
                self.text() == s,
                self.toks() == ts,
                i0 <= self.at() <= ts.len(),
                forall|k: int| i0 <= k < self.at() ==> is_path_token(#[trigger] ts[k]),
                first <==> self.at() == i0,
                first ==> path@ == (SpanModel { start: 0, len: 0 }),
                !first ==> path@.start == ts[i0].span.start && path@.start + path@.len
                    == ts[self.at() - 1].span.start + ts[self.at() - 1].span.len,
                self.at() == ts.len() || !is_path_token(ts[self.at()]),
            decreases ts.len() - self.at(),
        {
            if self.cursor >= self.tokens.len() {
                break ;
            }
            let t = self.tokens[self.cursor];
            let is_pt = matches!(*t.kind(), TokenKind::ForwardSlash | TokenKind::Ident(_));
            if !is_pt {
                break ;
            }
            proof {
                assert(t@ == ts[self.at()]);
                assert(token_ok(s, ts[self.at()]));
                assert(token_ok(s, ts[i0]));
                if self.at() > i0 {
                    lemma_adjacent_tokens(s, ts, 0, self.at() - 1);
                }
            }
            if first {
                path.set_start(t.span().start());
                first = false;
            }
            path.add_to_length(t.span().length());
            self.cursor = self.cursor + 1;
        }
        proof {
            lemma_path_run_exact(ts, i0, self.at());
            lemma_path_run(s, ts, i0);
            if self.at() > i0 {
                assert(token_ok(s, ts[self.at() - 1]));
            }
        }
        path
    }

    /// Query phase.
    #[verifier::rlimit(100)]
    fn parse_query(&mut self) -> (r: Result<Option<Span>, Error>)
        requires
            old(self).wf(),
        ensures
            final(self).wf(),
            final(self).text() == old(self).text(),
            final(self).toks() == old(self).toks(),
            match r {
                Ok(oq) => query_phase(old(self).toks(), old(self).at()) == Ok::<
                    (Option<SpanModel>, int),
                    ErrorModel,
                >((oq.deep_view(), final(self).at())) && (oq matches Some(sp) ==> span_in(
                    old(self).text(),
                    sp@,
                )),
                Err(e) => query_phase(old(self).toks(), old(self).at()) == Err::<
                    (Option<SpanModel>, int),
                    ErrorModel,
                >(e@),
            },
    {
        let ghost s = self.text();
        let ghost ts = self.toks();
        let ghost i0 = self.at();
        if self.cursor < self.tokens.len() && matches!(
            *self.tokens[self.cursor].kind(),
            TokenKind::QuestionMark,
        ) {
            proof {
                assert(self.tokens@[i0]@ == ts[i0]);
            }
            self.cursor = self.cursor + 1;
            let start = if self.cursor < self.tokens.len() {
                proof {
                    assert(self.tokens@[i0 + 1]@ == ts[i0 + 1]);
                    assert(token_ok(s, ts[i0 + 1]));
                }
                self.tokens[self.cursor].span().start()
            } else {
                0
            };
            let mut query = Span::new(start, 0);
            let ghost iq = self.at();
            loop
                invariant
                    self.wf(),
                    self.text() == s,
                    self.toks() == ts,
                    s == old(self).text(),
                    ts == old(self).toks(),
                    i0 == old(self).at(),
                    0 <= i0 < ts.len(),
                    ts[i0].kind is QuestionMark,
                    iq == i0 + 1,
                    iq <= self.at() <= ts.len(),
                    query@.start == (if iq < ts.len() {
                        ts[iq].span.start
                    } else {
                        0
                    }),
                    0 <= query@.start <= s.len(),
                    (self.at() == iq && query@.len == 0) || (self.at() > iq && query@.start
                        + query@.len <= ts[self.at() - 1].span.start + ts[self.at() - 1].span.len),
                    (match query_scan(ts, self.at()) {
                        Ok((sum, j)) => query_scan(ts, iq) == Ok::<(int, int), ErrorModel>((
                            query@.len + sum,
                            j,
                        )),
                        Err(e) => query_scan(ts, iq) == Err::<(int, int), ErrorModel>(e),
                    }),
                ensures
                    self.wf(),
                    self.text() == s,
                    self.toks() == ts,
                    s == old(self).text(),
                    ts == old(self).toks(),
                    i0 == old(self).at(),
                    0 <= i0 < ts.len(),
                    ts[i0].kind is QuestionMark,
                    iq == i0 + 1,
                    iq <= self.at() <= ts.len(),
                    query@.start == (if iq < ts.len() {
                        ts[iq].span.start
                    } else {
                        0
                    }),
                    (self.at() == iq && query@.len == 0) || (self.at() > iq && query@.start
                        + query@.len <= ts[self.at() - 1].span.start + ts[self.at() - 1].span.len),
                    query_scan(ts, iq) == Ok::<(int, int), ErrorModel>((
                        query@.len as int,
                        self.at(),
                    )),
                decreases ts.len() - self.at(),
            {
                if self.cursor >= self.tokens.len() {
                    break ;
                }
                let t = self.tokens[self.cursor];
                proof {
                    assert(t@ == ts[self.at()]);
                    assert(token_ok(s, ts[self.at()]));
                    if self.at() > iq {
                        lemma_adjacent_tokens(s, ts, 0, self.at() - 1);
                    } else {
                        assert(self.at() == iq);
                    }
                }
                if matches!(*t.kind(), TokenKind::PoundSign) {
                    break ;
                }
                match *t.kind() {
                    TokenKind::Ident(_isp) => {
                        query.add_to_length(t.span().length());
                        self.cursor = self.cursor + 1;
                    },
                    _ => {
                        return Err(Error::UnexpectedToken(
                            Unexpected::new(*t.kind(), t.span().start()),
                        ));
                    },
                }
            }
            proof {
                if self.at() > iq {
                    assert(token_ok(s, ts[self.at() - 1]));
                }
                let st: int = if iq < ts.len() {
                    ts[iq].span.start
                } else {
                    0
                };
                assert(query@ =~= (SpanModel { start: st, len: query@.len as int }));
            }
            Ok(Some(query))
        } else {
            Ok(None)
        }
    }

    /// Fragment phase.
    fn parse_fragment(&mut self) -> (r: Result<Option<Span>, Error>)
        requires
            old(self).wf(),
        ensures
            final(self).wf(),
            final(self).text() == old(self).text(),
            final(self).toks() == old(self).toks(),
            match r {
                Ok(of) => fragment_phase(old(self).toks(), old(self).at()) == Ok::<
                    (Option<SpanModel>, int),
                    ErrorModel,
                >((of.deep_view(), final(self).at())) && (of matches Some(sp) ==> span_in(
                    old(self).text(),
                    sp@,
                )),
                Err(e) => fragment_phase(old(self).toks(), old(self).at()) == Err::<
                    (Option<SpanModel>, int),
                    ErrorModel,
                >(e@),
            },
    {
        let ghost s = self.text();
        let ghost ts = self.toks();
        let ghost i0 = self.at();
        if self.cursor < self.tokens.len() && matches!(
            *self.tokens[self.cursor].kind(),
            TokenKind::PoundSign,
        ) {
            proof {
                assert(self.tokens@[i0]@ == ts[i0]);
            }
            self.cursor = self.cursor + 1;
            if self.cursor >= self.tokens.len() {
                return Ok(None);
            }
            let t = self.tokens[self.cursor];
            proof {
                assert(t@ == ts[i0 + 1]);
                assert(token_ok(s, ts[i0 + 1]));
            }
            if let TokenKind::Ident(sp) = *t.kind() {
                proof {
                    assert(sp@ == ts[i0 + 1].span);
                }
                self.cursor = self.cursor + 1;
                Ok(Some(sp))
            } else {
                Err(Error::UnexpectedToken(Unexpected::new(*t.kind(), t.span().start())))
            }
        } else {
            Ok(None)
        }
    }

    /// Run the five phases in order, check that a scheme never stands
    /// without an authority, and assemble the URI.
    pub fn parse(self) -> (r: Result<Uri, Error>)
        requires
            self.wf(),
            self.at() == 0,
        ensures
            match r {
                Ok(u) => parse_tokens(self.text(), self.toks()) == Ok::<UriModel, ErrorModel>(u@)
                    && u.text() == self.text() && u.wf(),
                Err(e) => parse_tokens(self.text(), self.toks()) == Err::<UriModel, ErrorModel>(
                    e@,
                ),
            },
    {
        let mut this = self;
        let scheme = match this.parse_scheme() {
            Ok(os) => os,
            Err(e) => {
                return Err(e);
            },
        };
        let authority = match this.parse_authority() {
            Ok(oa) => oa,
            Err(e) => {
                return Err(e);
            },
        };
        let path = this.parse_path();
        let query = match this.parse_query() {
            Ok(oq) => oq,
            Err(e) => {
                return Err(e);
            },
        };
        let fragment = match this.parse_fragment() {
            Ok(of) => of,
            Err(e) => {
                return Err(e);
            },
        };
        if scheme.is_some() && authority.is_none() {
            return Err(Error::SchemeWithoutAuthority);
        }
        Ok(Uri::assemble(this.input, scheme, authority, path, query, fragment))
    }
}

} // verus!
