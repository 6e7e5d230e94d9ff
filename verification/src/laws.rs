//! Laws the parser obeys, stated over the model and proved once for all
//! inputs.
//!
//! The central one: re-parsing the components of a parsed URI, concatenated
//! back into a same-shaped URI string, yields component-equal results.
use crate::model::{
    fold_char, fold_seq, span_text, AuthorityModel, ErrorModel, KindModel, SpanModel, TokenModel,
    UriModel,
};
use crate::parsing::lexer::{
    is_delim, is_ident_cont, is_ident_start, lemma_lex_tokens_ok, lemma_run_len_exact, lens_before,
    lex_from, lex_step, token_chars, token_ok, tokens_ok, LexOutcome, LexStep,
};
use crate::parsing::{
    authority_phase, fragment_phase, host_phase, is_path_token, lemma_path_run, parse_tokens,
    parse_uri, path_phase, path_run_end, path_run_len, port_phase, query_phase, query_scan,
    scheme_phase, userinfo_phase,
};
use vstd::prelude::*;

verus! {

/// The scheme part of a rebuilt URI string: `scheme:` or nothing.
pub open spec fn scheme_part(s: Seq<char>, g: UriModel) -> Seq<char> {
    match g.scheme {
        Some(sp) => span_text(s, sp) + seq![':'],
        None => seq![],
    }
}

/// The userinfo part: `userinfo@` or nothing.
pub open spec fn userinfo_part(s: Seq<char>, a: AuthorityModel) -> Seq<char> {
    match a.userinfo {
        Some(sp) => span_text(s, sp) + seq!['@'],
        None => seq![],
    }
}

/// The port part: `:port` or nothing.
pub open spec fn port_part(s: Seq<char>, a: AuthorityModel) -> Seq<char> {
    match a.port {
        Some(sp) => seq![':'] + span_text(s, sp),
        None => seq![],
    }
}

/// The authority part: `//userinfo@host:port` with the optional pieces
/// present as parsed, or nothing.
pub open spec fn authority_part(s: Seq<char>, g: UriModel) -> Seq<char> {
    match g.authority {
        Some(a) => seq!['/', '/'] + userinfo_part(s, a) + span_text(s, a.host) + port_part(s, a),
        None => seq![],
    }
}

/// The query part: `?query` or nothing.
pub open spec fn query_part(s: Seq<char>, g: UriModel) -> Seq<char> {
    match g.query {
        Some(sp) => seq!['?'] + span_text(s, sp),
        None => seq![],
    }
}

/// The fragment part: `#fragment` or nothing.
pub open spec fn fragment_part(s: Seq<char>, g: UriModel) -> Seq<char> {
    match g.fragment {
        Some(sp) => seq!['#'] + span_text(s, sp),
        None => seq![],
    }
}

/// The components of a parsed URI concatenated back into a same-shaped URI
/// string.
pub open spec fn reconstruct(s: Seq<char>, g: UriModel) -> Seq<char> {
    scheme_part(s, g) + authority_part(s, g) + span_text(s, g.path) + query_part(s, g)
        + fragment_part(s, g)
}

/// Two parses agree component by component: the same components are
/// present, and each present component selects the same text.
pub open spec fn components_equal(
    s1: Seq<char>,
    g1: UriModel,
    s2: Seq<char>,
    g2: UriModel,
) -> bool {
    &&& match (g1.scheme, g2.scheme) {
        (Some(a), Some(b)) => span_text(s1, a) == span_text(s2, b),
        (None, None) => true,
        _ => false,
    }
    &&& match (g1.authority, g2.authority) {
        (Some(a1), Some(a2)) => {
            &&& match (a1.userinfo, a2.userinfo) {
                (Some(u1), Some(u2)) => span_text(s1, u1) == span_text(s2, u2),
                (None, None) => true,
                _ => false,
            }
            &&& span_text(s1, a1.host) == span_text(s2, a2.host)
            &&& match (a1.port, a2.port) {
                (Some(p1), Some(p2)) => span_text(s1, p1) == span_text(s2, p2),
                (None, None) => true,
                _ => false,
            }
        },
        (None, None) => true,
        _ => false,
    }
    &&& span_text(s1, g1.path) == span_text(s2, g2.path)
    &&& match (g1.query, g2.query) {
        (Some(q1), Some(q2)) => span_text(s1, q1) == span_text(s2, q2),
        (None, None) => true,
        _ => false,
    }
    &&& match (g1.fragment, g2.fragment) {
        (Some(f1), Some(f2)) => span_text(s1, f1) == span_text(s2, f2),
        (None, None) => true,
        _ => false,
    }
}

/// Case folding is idempotent.
pub proof fn lemma_fold_idempotent(s: Seq<char>)
    ensures
        fold_seq(fold_seq(s)) == fold_seq(s),
{
    assert forall|i: int| 0 <= i < s.len() implies fold_char(fold_char(s[i])) == fold_char(
        s[i],
    ) by {
        lemma_fold_char_fixed(fold_char(s[i]));
    }
    assert(fold_seq(fold_seq(s)) =~= fold_seq(s));
}

/// A character that case folding has already lowered stays put.
proof fn lemma_fold_char_fixed(c: char)
    requires
        !('A' <= c && c <= 'Z') || fold_char(c) != c,
    ensures
        fold_char(fold_char(c)) == fold_char(c),
{
    if 'A' <= c && c <= 'Z' {
        vstd::utf8::char_is_scalar(c);
        let l = fold_char(c);
        assert(l as u32 == c as u32 + 32) by {
            vstd::utf8::char_u32_cast(l, l as u32);
        };
        assert(!('A' <= l && l <= 'Z'));
    }
}

/// A delimiter character neither starts nor continues an identifier run.
proof fn lemma_delim_not_ident(c: char)
    requires
        is_delim(c),
    ensures
        !is_ident_start(c),
        !is_ident_cont(c),
{
}

/// Two identifier tokens never sit side by side: the first one's run would
/// not have been maximal.
proof fn lemma_no_adjacent_idents(s: Seq<char>, ts: Seq<TokenModel>, i: int, k: int)
    requires
        tokens_ok(s, ts, i),
        0 <= k,
        k + 1 < ts.len(),
        ts[k].kind is Ident,
    ensures
        !(ts[k + 1].kind is Ident),
{
    crate::parsing::lexer::lemma_adjacent_tokens(s, ts, i, k);
    reveal(token_chars);
    assert(token_ok(s, ts[k]));
    assert(token_ok(s, ts[k + 1]));
    if ts[k + 1].kind is Ident {
        let e = ts[k].span.start + ts[k].span.len;
        assert(e < s.len());
        assert(is_ident_start(s[e]));
        assert(!is_ident_cont(s[e]));
    }
}

/// Prepending a block of well-placed tokens to a lexed tail lexes to the
/// concatenation: the lexer is local.
pub proof fn lemma_lex_append(
    s: Seq<char>,
    ts: Seq<TokenModel>,
    a: int,
    b: int,
    rest: Seq<TokenModel>,
)
    requires
        0 <= a <= b <= s.len(),
        forall|k: int| 0 <= k < ts.len() ==> token_ok(s, #[trigger] ts[k]),
        forall|k: int|
            0 <= k < ts.len() ==> (#[trigger] ts[k].span.start) == a + lens_before(ts, k),
        a + lens_before(ts, ts.len() as int) == b,
        lex_from(s, b) == LexOutcome::Toks(rest),
    ensures
        lex_from(s, a) == LexOutcome::Toks(ts + rest),
    decreases ts.len(),
{
    reveal(token_chars);
    if ts.len() == 0 {
        assert(lens_before(ts, 0) == 0);
        assert(a == b);
        assert(ts + rest =~= rest);
    } else {
        let t = ts[0];
        assert(token_ok(s, t));
        assert(lens_before(ts, 0) == 0);
        assert(t.span.start == a);
        let e = a + t.span.len;
        match t.kind {
            KindModel::Ident(sp) => {
                assert(is_ident_start(s[a]));
                lemma_run_len_exact(s, a + 1, e);
                assert(sp =~= (SpanModel { start: a, len: e - a }));
                assert(lex_step(s, a) == LexStep::Tok(t, e));
            },
            _ => {
                lemma_delim_not_ident(s[a]);
                assert(t.span =~= (SpanModel { start: a, len: 1 }));
                assert(lex_step(s, a) == LexStep::Tok(t, e));
            },
        }
        let tail = ts.drop_first();
        assert(ts =~= seq![t] + tail);
        assert forall|k: int| 0 <= k < tail.len() implies (#[trigger] tail[k].span.start) == e
            + lens_before(tail, k) by {
            lemma_lens_before_shift(t, tail, k + 1);
            assert(ts[k + 1] == tail[k]);
        }
        lemma_lens_before_shift(t, tail, ts.len() as int);
        lemma_lens_before_nonneg(s, tail, tail.len() as int);
        lemma_lex_append(s, tail, e, b, rest);
        assert(seq![t] + (tail + rest) =~= ts + rest);
    }
}

/// A sum of token lengths is never negative.
proof fn lemma_lens_before_nonneg(s: Seq<char>, ts: Seq<TokenModel>, k: int)
    requires
        forall|m: int| 0 <= m < ts.len() ==> token_ok(s, #[trigger] ts[m]),
        0 <= k <= ts.len(),
    ensures
        lens_before(ts, k) >= 0,
    decreases k,
{
    if k > 0 {
        lemma_lens_before_nonneg(s, ts, k - 1);
        assert(token_ok(s, ts[k - 1]));
    }
}

/// Dropping the first token shifts the prefix sums down by its length.
proof fn lemma_lens_before_shift(t: TokenModel, tail: Seq<TokenModel>, k: int)
    requires
        1 <= k <= tail.len() + 1,
    ensures
        lens_before(seq![t] + tail, k) == t.span.len + lens_before(tail, k - 1),
    decreases k,
{
    let ts = seq![t] + tail;
    if k == 1 {
        assert(lens_before(ts, 1) == lens_before(ts, 0) + ts[0].span.len);
    } else {
        lemma_lens_before_shift(t, tail, k - 1);
        assert(ts[k - 1] == tail[k - 2]);
    }
}


/// An identifier token covering `[start, start + len)`.
pub open spec fn ident_tok(start: int, len: int) -> TokenModel {
    let sp = SpanModel { start, len };
    TokenModel { kind: KindModel::Ident(sp), span: sp }
}

/// A one-character delimiter token at `start`.
pub open spec fn delim_tok(k: KindModel, start: int) -> TokenModel {
    TokenModel { kind: k, span: SpanModel { start, len: 1 } }
}

/// An identifier token is well formed once its characters are.
proof fn lemma_ident_token_ok(s: Seq<char>, start: int, len: int)
    requires
        0 <= start,
        1 <= len,
        start + len <= s.len(),
        is_ident_start(s[start]),
        forall|k: int| start <= k < start + len ==> is_ident_cont(#[trigger] s[k]),
        start + len < s.len() ==> !is_ident_cont(s[start + len]),
    ensures
        token_ok(s, ident_tok(start, len)),
{
    reveal(token_chars);
}

/// A delimiter token is well formed once its character is.
proof fn lemma_delim_token_ok(s: Seq<char>, start: int, c: char)
    requires
        0 <= start < s.len(),
        s[start] == c,
        is_delim(c),
    ensures
        token_ok(s, delim_tok(crate::parsing::lexer::delim_kind(c), start)),
{
    reveal(token_chars);
}

/// Token blocks with equal lengths have equal prefix sums.
proof fn lemma_lens_before_eq(xs: Seq<TokenModel>, ys: Seq<TokenModel>, off: int, q: int)
    requires
        0 <= q <= xs.len(),
        0 <= off,
        off + q <= ys.len(),
        forall|m: int| 0 <= m < q ==> (#[trigger] xs[m].span).len == ys[off + m].span.len,
    ensures
        lens_before(xs, q) == lens_before(ys, off + q) - lens_before(ys, off),
    decreases q,
{
    if q > 0 {
        lemma_lens_before_eq(xs, ys, off, q - 1);
        assert(xs[q - 1].span.len == ys[off + q - 1].span.len);
    }
}

/// Folding distributes over concatenation.
proof fn lemma_fold_concat(a: Seq<char>, b: Seq<char>)
    ensures
        fold_seq(a + b) == fold_seq(a) + fold_seq(b),
{
    assert(fold_seq(a + b) =~= fold_seq(a) + fold_seq(b));
}

/// A slice of an already-folded text is itself already folded.
proof fn lemma_fold_fixed_span(s: Seq<char>, sp: SpanModel)
    requires
        fold_seq(s) == s,
        crate::model::span_in(s, sp),
    ensures
        fold_seq(span_text(s, sp)) == span_text(s, sp),
{
    assert forall|q: int| 0 <= q < sp.len implies fold_char(span_text(s, sp)[q]) == span_text(
        s,
        sp,
    )[q] by {
        assert(span_text(s, sp)[q] == s[sp.start + q]);
        assert(fold_seq(s)[sp.start + q] == fold_char(s[sp.start + q]));
    }
    assert(fold_seq(span_text(s, sp)) =~= span_text(s, sp));
}

/// A token moved right by `d` positions, its kind kept.
pub open spec fn shift_tok(t: TokenModel, d: int) -> TokenModel {
    match t.kind {
        KindModel::Ident(_) => ident_tok(t.span.start + d, t.span.len),
        k => TokenModel { kind: k, span: SpanModel { start: t.span.start + d, len: t.span.len } },
    }
}

/// The tokens of the rebuilt scheme part.
pub open spec fn scheme_toks(sch: Option<SpanModel>) -> Seq<TokenModel> {
    match sch {
        Some(sp) => seq![ident_tok(0, sp.len), delim_tok(KindModel::Colon, sp.len)],
        None => seq![],
    }
}

/// Where the rebuilt host starts, for an authority part starting at `o`.
pub open spec fn host_off(a: AuthorityModel, o: int) -> int {
    o + 2 + (match a.userinfo {
        Some(u) => u.len + 1,
        None => 0,
    })
}

/// The tokens of the rebuilt authority part starting at `o`.
pub open spec fn authority_toks(a: AuthorityModel, o: int) -> Seq<TokenModel> {
    let slashes = seq![
        delim_tok(KindModel::ForwardSlash, o),
        delim_tok(KindModel::ForwardSlash, o + 1),
    ];
    let ui = match a.userinfo {
        Some(u) => seq![ident_tok(o + 2, u.len), delim_tok(KindModel::At, o + 2 + u.len)],
        None => seq![],
    };
    let h = host_off(a, o);
    let host = seq![ident_tok(h, a.host.len)];
    let port = match a.port {
        Some(p) => seq![
            delim_tok(KindModel::Colon, h + a.host.len),
            ident_tok(h + a.host.len + 1, p.len),
        ],
        None => seq![],
    };
    slashes + ui + host + port
}

/// The tokens of the rebuilt path part: the original path tokens, shifted.
pub open spec fn path_toks(ts: Seq<TokenModel>, i2: int, i3: int, d: int) -> Seq<TokenModel> {
    Seq::new((i3 - i2) as nat, |q: int| shift_tok(ts[i2 + q], d))
}

/// The tokens of the rebuilt query part starting at `o`.
pub open spec fn query_toks(q: Option<SpanModel>, o: int) -> Seq<TokenModel> {
    match q {
        Some(sp) => seq![delim_tok(KindModel::QuestionMark, o)] + (if sp.len > 0 {
            seq![ident_tok(o + 1, sp.len)]
        } else {
            seq![]
        }),
        None => seq![],
    }
}

/// The tokens of the rebuilt fragment part starting at `o`.
pub open spec fn frag_toks(f: Option<SpanModel>, o: int) -> Seq<TokenModel> {
    match f {
        Some(sp) => seq![delim_tok(KindModel::PoundSign, o), ident_tok(o + 1, sp.len)],
        None => seq![],
    }
}

/// The full canonical token list of the rebuilt URI string.
pub open spec fn recon_toks(
    s: Seq<char>,
    ts: Seq<TokenModel>,
    g: UriModel,
    i2: int,
    i3: int,
) -> Seq<TokenModel> {
    let o2 = scheme_part(s, g).len() as int;
    let o3 = o2 + authority_part(s, g).len();
    let o4 = o3 + span_text(s, g.path).len();
    let o5 = o4 + query_part(s, g).len();
    let t2 = match g.authority {
        Some(a) => authority_toks(a, o2),
        None => seq![],
    };
    let d = if i3 > i2 {
        o3 - ts[i2].span.start
    } else {
        0
    };
    scheme_toks(g.scheme) + t2 + path_toks(ts, i2, i3, d) + query_toks(g.query, o4) + frag_toks(
        g.fragment,
        o5,
    )
}

/// `g` is what the five phases made of the tokens `ts` of the text `s`,
/// with `i1` to `i4` the cursor after each phase.
pub open spec fn parsed_with(
    s: Seq<char>,
    ts: Seq<TokenModel>,
    g: UriModel,
    i1: int,
    i2: int,
    i3: int,
    i4: int,
) -> bool {
    &&& tokens_ok(s, ts, 0)
    &&& scheme_phase(s, ts) == Ok::<(Option<SpanModel>, int), ErrorModel>((g.scheme, i1))
    &&& authority_phase(s, ts, i1) == Ok::<(Option<AuthorityModel>, int), ErrorModel>((
        g.authority,
        i2,
    ))
    &&& path_phase(ts, i2) == (g.path, i3)
    &&& query_phase(ts, i3) == Ok::<(Option<SpanModel>, int), ErrorModel>((g.query, i4))
    &&& fragment_phase(ts, i4) is Ok
    &&& fragment_phase(ts, i4)->Ok_0.0 == g.fragment
    &&& !(g.scheme is Some && g.authority is None)
}

/// The characters of an identifier span: the first may start a run, all of
/// them may continue one.
pub open spec fn ident_span_chars(s: Seq<char>, sp: SpanModel) -> bool {
    &&& is_ident_start(s[sp.start])
    &&& forall|k: int| sp.start <= k < sp.start + sp.len ==> is_ident_cont(#[trigger] s[k])
}

/// What an identifier token in a lexed stream says of its span.
proof fn lemma_ident_span(s: Seq<char>, ts: Seq<TokenModel>, k: int)
    requires
        tokens_ok(s, ts, 0),
        0 <= k < ts.len(),
        ts[k].kind is Ident,
    ensures
        ts[k].kind == KindModel::Ident(ts[k].span),
        crate::model::span_in(s, ts[k].span),
        1 <= ts[k].span.len,
        ident_span_chars(s, ts[k].span),
        ts[k].span.start + ts[k].span.len < s.len() ==> !is_ident_cont(
            s[ts[k].span.start + ts[k].span.len],
        ),
{
    assert(token_ok(s, ts[k]));
    reveal(token_chars);
}

/// What a forward-slash token in a lexed stream says of its span.
proof fn lemma_slash_span(s: Seq<char>, ts: Seq<TokenModel>, k: int)
    requires
        tokens_ok(s, ts, 0),
        0 <= k < ts.len(),
        ts[k].kind is ForwardSlash,
    ensures
        crate::model::span_in(s, ts[k].span),
        ts[k].span.len == 1,
        s[ts[k].span.start] == '/',
{
    assert(token_ok(s, ts[k]));
    reveal(token_chars);
}

/// Prefix sums of lexed tokens grow with the index.
proof fn lemma_lens_mono(s: Seq<char>, ts: Seq<TokenModel>, k: int, m: int)
    requires
        forall|j: int| 0 <= j < ts.len() ==> token_ok(s, #[trigger] ts[j]),
        0 <= k <= m <= ts.len(),
    ensures
        lens_before(ts, k) <= lens_before(ts, m),
    decreases m - k,
{
    if k < m {
        assert(token_ok(s, ts[m - 1]));
        lemma_lens_mono(s, ts, k, m - 1);
    }
}

/// Where a path run ends: its members are path tokens and the token after
/// it, if any, is not.
proof fn lemma_path_members(ts: Seq<TokenModel>, i: int)
    requires
        0 <= i <= ts.len(),
    ensures
        i <= path_run_end(ts, i) <= ts.len(),
        forall|k: int| i <= k < path_run_end(ts, i) ==> is_path_token(#[trigger] ts[k]),
        path_run_end(ts, i) < ts.len() ==> !is_path_token(ts[path_run_end(ts, i)]),
    decreases ts.len() - i,
{
    if i < ts.len() && is_path_token(ts[i]) {
        lemma_path_members(ts, i + 1);
    }
}

/// Lexing the rebuilt fragment part at the very end of the text.
proof fn lemma_frag_lex(r: Seq<char>, s: Seq<char>, f: Option<SpanModel>, o5: int)
    requires
        0 <= o5,
        match f {
            Some(fsp) => {
                &&& r.len() == o5 + 1 + fsp.len
                &&& r[o5] == '#'
                &&& 1 <= fsp.len
                &&& crate::model::span_in(s, fsp)
                &&& ident_span_chars(s, fsp)
                &&& forall|q: int| 0 <= q < fsp.len ==> r[o5 + 1 + q] == s[#[trigger] (fsp.start + q)]
            },
            None => r.len() == o5,
        },
    ensures
        lex_from(r, o5) == LexOutcome::Toks(frag_toks(f, o5)),
{
    let t5 = frag_toks(f, o5);
    assert(lex_from(r, r.len() as int) == LexOutcome::Toks(seq![]));
    match f {
        Some(fsp) => {
            lemma_delim_token_ok(r, o5, '#');
            assert(t5[0] == delim_tok(KindModel::PoundSign, o5));
            assert(is_ident_start(r[o5 + 1])) by {
                assert(r[o5 + 1 + 0] == s[#[trigger] (fsp.start + 0)]);
            }
            assert forall|k: int| o5 + 1 <= k < o5 + 1 + fsp.len implies is_ident_cont(
                #[trigger] r[k],
            ) by {
                assert(r[o5 + 1 + (k - o5 - 1)] == s[fsp.start + (k - o5 - 1)]);
                assert(is_ident_cont(s[fsp.start + (k - o5 - 1)]));
            }
            lemma_ident_token_ok(r, o5 + 1, fsp.len);
            assert(t5[1] == ident_tok(o5 + 1, fsp.len));
            assert(lens_before(t5, 0) == 0);
            assert(lens_before(t5, 1) == 1);
            assert(lens_before(t5, 2) == 1 + fsp.len);
            assert(forall|k: int| 0 <= k < t5.len() ==> token_ok(r, #[trigger] t5[k]));
            assert(forall|k: int|
                0 <= k < t5.len() ==> (#[trigger] t5[k].span.start) == o5 + lens_before(t5, k));
            lemma_lex_append(r, t5, o5, r.len() as int, seq![]);
            assert(t5 + seq![] =~= t5);
        },
        None => {
            assert(t5 =~= Seq::<TokenModel>::empty());
        },
    }
}

/// Lexing the rebuilt query part, followed by the already-lexed tail.
proof fn lemma_query_lex(
    r: Seq<char>,
    s: Seq<char>,
    qopt: Option<SpanModel>,
    o4: int,
    o5: int,
    rest: Seq<TokenModel>,
)
    requires
        0 <= o4,
        o5 <= r.len(),
        match qopt {
            Some(qsp) => {
                &&& o5 == o4 + 1 + qsp.len
                &&& r[o4] == '?'
                &&& 0 <= qsp.len
                &&& crate::model::span_in(s, qsp)
                &&& (qsp.len > 0 ==> ident_span_chars(s, qsp))
                &&& forall|q: int| 0 <= q < qsp.len ==> r[o4 + 1 + q] == s[#[trigger] (qsp.start + q)]
            },
            None => o5 == o4,
        },
        o5 < r.len() ==> !is_ident_cont(r[o5]),
        lex_from(r, o5) == LexOutcome::Toks(rest),
    ensures
        lex_from(r, o4) == LexOutcome::Toks(query_toks(qopt, o4) + rest),
{
    let t4 = query_toks(qopt, o4);
    match qopt {
        Some(qsp) => {
            lemma_delim_token_ok(r, o4, '?');
            assert(t4[0] == delim_tok(KindModel::QuestionMark, o4));
            if qsp.len > 0 {
                assert(is_ident_start(r[o4 + 1])) by {
                    assert(r[o4 + 1 + 0] == s[#[trigger] (qsp.start + 0)]);
                }
                assert forall|k: int| o4 + 1 <= k < o4 + 1 + qsp.len implies is_ident_cont(
                    #[trigger] r[k],
                ) by {
                    assert(r[o4 + 1 + (k - o4 - 1)] == s[qsp.start + (k - o4 - 1)]);
                    assert(is_ident_cont(s[qsp.start + (k - o4 - 1)]));
                }
                lemma_ident_token_ok(r, o4 + 1, qsp.len);
                assert(t4[1] == ident_tok(o4 + 1, qsp.len));
                assert(lens_before(t4, 0) == 0);
                assert(lens_before(t4, 1) == 1);
                assert(lens_before(t4, 2) == 1 + qsp.len);
                assert(forall|k: int| 0 <= k < t4.len() ==> token_ok(r, #[trigger] t4[k]));
                assert(forall|k: int|
                    0 <= k < t4.len() ==> (#[trigger] t4[k].span.start) == o4 + lens_before(
                        t4,
                        k,
                    ));
                lemma_lex_append(r, t4, o4, o5, rest);
            } else {
                assert(t4 =~= seq![delim_tok(KindModel::QuestionMark, o4)]);
                assert(lens_before(t4, 0) == 0);
                assert(lens_before(t4, 1) == 1);
                assert(forall|k: int| 0 <= k < t4.len() ==> token_ok(r, #[trigger] t4[k]));
                assert(forall|k: int|
                    0 <= k < t4.len() ==> (#[trigger] t4[k].span.start) == o4 + lens_before(
                        t4,
                        k,
                    ));
                lemma_lex_append(r, t4, o4, o5, rest);
            }
        },
        None => {
            assert(t4 =~= Seq::<TokenModel>::empty());
            assert(t4 + rest =~= rest);
        },
    }
}

/// One path token, shifted into the rebuilt text, is well formed there.
#[verifier::rlimit(100)]
#[verifier::spinoff_prover]
proof fn lemma_path_tok_transfer(
    r: Seq<char>,
    s: Seq<char>,
    ts: Seq<TokenModel>,
    i2: int,
    i3: int,
    d: int,
    o3: int,
    o4: int,
    q: int,
)
    requires
        tokens_ok(s, ts, 0),
        0 <= i2 <= i3 <= ts.len(),
        forall|k: int| i2 <= k < i3 ==> is_path_token(#[trigger] ts[k]),
        0 <= o3,
        o4 <= r.len(),
        i3 > i2,
        d == o3 - ts[i2].span.start,
        o4 == o3 + (lens_before(ts, i3) - lens_before(ts, i2)),
        forall|w: int| 0 <= w < o4 - o3 ==> r[o3 + w] == s[#[trigger] (ts[i2].span.start + w)],
        o4 < r.len() ==> !is_ident_cont(r[o4]),
        0 <= q < i3 - i2,
    ensures
        token_ok(r, shift_tok(ts[i2 + q], d)),
{
    let pstart = ts[i2].span.start;
    assert(pstart == 0 + lens_before(ts, i2));
    assert(lens_before(ts, i3) == lens_before(ts, i3 - 1) + ts[i3 - 1].span.len);
    assert(ts[i3 - 1].span.start == 0 + lens_before(ts, i3 - 1));
    assert(token_ok(s, ts[i3 - 1]));
    assert(lens_before(ts, i3) <= s.len());
    let tq = ts[i2 + q];
    assert(is_path_token(tq));
    assert(token_ok(s, tq));
    lemma_lens_mono(s, ts, i2, i2 + q);
    lemma_lens_mono(s, ts, i2 + q + 1, i3);
    assert(lens_before(ts, i2 + q + 1) == lens_before(ts, i2 + q) + tq.span.len);
    assert(tq.span.start == 0 + lens_before(ts, i2 + q));
    let a = tq.span.start;
    let e = a + tq.span.len;
    assert forall|k: int| a + d <= k < e + d implies (#[trigger] r[k]) == s[k - d] by {
        assert(r[o3 + ((k - d) - pstart)] == s[pstart + ((k - d) - pstart)]);
    }
    match tq.kind {
        KindModel::Ident(sp) => {
            lemma_ident_span(s, ts, i2 + q);
            assert(sp == tq.span);
            assert(r[a + d] == s[a]);
            assert(is_ident_start(r[a + d]));
            assert forall|k: int| a + d <= k < e + d implies is_ident_cont(#[trigger] r[k]) by {
                assert(r[k] == s[k - d]);
                assert(is_ident_cont(s[k - d]));
            }
            if e + d < r.len() {
                if e - pstart < o4 - o3 {
                    assert(r[o3 + (e - pstart)] == s[pstart + (e - pstart)]);
                    assert(e < s.len());
                    assert(!is_ident_cont(s[e]));
                    assert(!is_ident_cont(r[e + d]));
                } else {
                    assert(e + d == o4);
                }
            }
            lemma_ident_token_ok(r, a + d, tq.span.len);
            assert(shift_tok(tq, d) == ident_tok(a + d, tq.span.len));
        },
        _ => {
            assert(tq.kind is ForwardSlash);
            lemma_slash_span(s, ts, i2 + q);
            assert(r[a + d] == s[a]);
            assert(s[a] == '/');
            lemma_delim_token_ok(r, a + d, '/');
            assert(shift_tok(tq, d) =~= delim_tok(crate::parsing::lexer::delim_kind('/'), a + d));
        },
    }
}

/// Lexing the rebuilt path part: the original path tokens, shifted into
/// place, followed by the already-lexed tail.
#[verifier::rlimit(100)]
proof fn lemma_path_lex(
    r: Seq<char>,
    s: Seq<char>,
    ts: Seq<TokenModel>,
    i2: int,
    i3: int,
    d: int,
    o3: int,
    o4: int,
    rest: Seq<TokenModel>,
)
    requires
        tokens_ok(s, ts, 0),
        0 <= i2 <= i3 <= ts.len(),
        forall|k: int| i2 <= k < i3 ==> is_path_token(#[trigger] ts[k]),
        0 <= o3,
        o4 <= r.len(),
        i3 == i2 ==> o4 == o3 && d == 0,
        i3 > i2 ==> d == o3 - ts[i2].span.start && o4 == o3 + (lens_before(ts, i3) - lens_before(
            ts,
            i2,
        )) && (forall|w: int|
            0 <= w < o4 - o3 ==> r[o3 + w] == s[#[trigger] (ts[i2].span.start + w)]),
        o4 < r.len() ==> !is_ident_cont(r[o4]),
        lex_from(r, o4) == LexOutcome::Toks(rest),
    ensures
        lex_from(r, o3) == LexOutcome::Toks(path_toks(ts, i2, i3, d) + rest),
{
    let t3 = path_toks(ts, i2, i3, d);
    if i3 == i2 {
        assert(t3 =~= Seq::<TokenModel>::empty());
        assert(t3 + rest =~= rest);
    } else {
        let pstart = ts[i2].span.start;
        assert(pstart == 0 + lens_before(ts, i2));
        assert forall|q: int| 0 <= q < t3.len() implies token_ok(r, #[trigger] t3[q]) by {
            lemma_path_tok_transfer(r, s, ts, i2, i3, d, o3, o4, q);
            assert(t3[q] == shift_tok(ts[i2 + q], d));
        }
        assert(forall|m: int|
            0 <= m < t3.len() ==> (#[trigger] t3[m].span).len == ts[i2 + m].span.len);
        assert forall|q: int| 0 <= q < t3.len() implies (#[trigger] t3[q].span.start) == o3
            + lens_before(t3, q) by {
            lemma_lens_before_eq(t3, ts, i2, q);
            assert(ts[i2 + q].span.start == 0 + lens_before(ts, i2 + q));
        }
        lemma_lens_before_eq(t3, ts, i2, t3.len() as int);
        assert(o3 + lens_before(t3, t3.len() as int) == o4);
        lemma_lens_mono(s, ts, i2, i3);
        lemma_lex_append(r, t3, o3, o4, rest);
    }
}

/// Lexing the rebuilt scheme part, followed by the already-lexed tail.
proof fn lemma_scheme_lex(
    r: Seq<char>,
    s: Seq<char>,
    sch: Option<SpanModel>,
    o2: int,
    rest: Seq<TokenModel>,
)
    requires
        o2 <= r.len(),
        match sch {
            Some(sp) => {
                &&& o2 == sp.len + 1
                &&& 1 <= sp.len
                &&& crate::model::span_in(s, sp)
                &&& ident_span_chars(s, sp)
                &&& r[sp.len] == ':'
                &&& forall|q: int| 0 <= q < sp.len ==> #[trigger] r[q] == s[sp.start + q]
            },
            None => o2 == 0,
        },
        lex_from(r, o2) == LexOutcome::Toks(rest),
    ensures
        lex_from(r, 0) == LexOutcome::Toks(scheme_toks(sch) + rest),
{
    let t1 = scheme_toks(sch);
    match sch {
        Some(sp) => {
            assert(r[0] == s[sp.start + 0]);
            assert(is_ident_start(r[0]));
            assert forall|k: int| 0 <= k < sp.len implies is_ident_cont(#[trigger] r[k]) by {
                assert(r[k] == s[sp.start + k]);
                assert(is_ident_cont(s[sp.start + k]));
            }
            lemma_delim_not_ident(':');
            lemma_ident_token_ok(r, 0, sp.len);
            assert(t1[0] == ident_tok(0, sp.len));
            lemma_delim_token_ok(r, sp.len, ':');
            assert(t1[1] == delim_tok(KindModel::Colon, sp.len));
            assert(lens_before(t1, 0) == 0);
            assert(lens_before(t1, 1) == sp.len);
            assert(lens_before(t1, 2) == sp.len + 1);
            assert(forall|k: int| 0 <= k < t1.len() ==> token_ok(r, #[trigger] t1[k]));
            assert(forall|k: int|
                0 <= k < t1.len() ==> (#[trigger] t1[k].span.start) == 0 + lens_before(t1, k));
            lemma_lex_append(r, t1, 0, o2, rest);
        },
        None => {
            assert(t1 =~= Seq::<TokenModel>::empty());
            assert(t1 + rest =~= rest);
        },
    }
}

/// Lexing the rebuilt authority part, followed by the already-lexed tail.
#[verifier::rlimit(100)]
#[verifier::spinoff_prover]
proof fn lemma_authority_lex(
    r: Seq<char>,
    s: Seq<char>,
    a: AuthorityModel,
    o2: int,
    o3: int,
    rest: Seq<TokenModel>,
)
    requires
        0 <= o2,
        o3 <= r.len(),
        o3 == o2 + 2 + (match a.userinfo {
            Some(u) => u.len + 1,
            None => 0,
        }) + a.host.len + (match a.port {
            Some(p) => p.len + 1,
            None => 0,
        }),
        match a.userinfo {
            Some(u) => {
                &&& 1 <= u.len
                &&& crate::model::span_in(s, u)
                &&& ident_span_chars(s, u)
                &&& (forall|q: int|
                    0 <= q < u.len ==> #[trigger] r[o2 + 2 + q] == s[u.start + q])
                &&& r[o2 + 2 + u.len] == '@'
            },
            None => true,
        },
        1 <= a.host.len,
        crate::model::span_in(s, a.host),
        ident_span_chars(s, a.host),
        forall|q: int|
            0 <= q < a.host.len ==> #[trigger] r[host_off(a, o2) + q] == s[a.host.start + q],
        match a.port {
            Some(p) => {
                &&& 1 <= p.len
                &&& crate::model::span_in(s, p)
                &&& ident_span_chars(s, p)
                &&& r[host_off(a, o2) + a.host.len] == ':'
                &&& (forall|q: int|
                    0 <= q < p.len ==> #[trigger] r[host_off(a, o2) + a.host.len + 1 + q] == s[
                        p.start + q])
            },
            None => true,
        },
        r[o2] == '/',
        r[o2 + 1] == '/',
        o3 < r.len() ==> !is_ident_cont(r[o3]),
        lex_from(r, o3) == LexOutcome::Toks(rest),
    ensures
        lex_from(r, o2) == LexOutcome::Toks(authority_toks(a, o2) + rest),
{
    let t2 = authority_toks(a, o2);
    let h = host_off(a, o2);
    lemma_delim_token_ok(r, o2, '/');
    lemma_delim_token_ok(r, o2 + 1, '/');
    // host identifier
    assert(r[h + 0] == s[a.host.start + 0]);
    assert(is_ident_start(r[h]));
    assert forall|k: int| h <= k < h + a.host.len implies is_ident_cont(#[trigger] r[k]) by {
        assert(r[h + (k - h)] == s[a.host.start + (k - h)]);
        assert(is_ident_cont(s[a.host.start + (k - h)]));
    }
    match a.port {
        Some(_) => {
            lemma_delim_not_ident(':');
        },
        None => {},
    }
    lemma_ident_token_ok(r, h, a.host.len);
    // userinfo identifier, when present
    match a.userinfo {
        Some(u) => {
            assert(r[o2 + 2 + 0] == s[u.start + 0]);
            assert(is_ident_start(r[o2 + 2]));
            assert forall|k: int| o2 + 2 <= k < o2 + 2 + u.len implies is_ident_cont(
                #[trigger] r[k],
            ) by {
                assert(r[o2 + 2 + (k - o2 - 2)] == s[u.start + (k - o2 - 2)]);
                assert(is_ident_cont(s[u.start + (k - o2 - 2)]));
            }
            lemma_delim_not_ident('@');
            lemma_ident_token_ok(r, o2 + 2, u.len);
            lemma_delim_token_ok(r, o2 + 2 + u.len, '@');
        },
        None => {},
    }
    // port identifier, when present
    match a.port {
        Some(p) => {
            assert(r[h + a.host.len + 1 + 0] == s[p.start + 0]);
            assert(is_ident_start(r[h + a.host.len + 1]));
            assert forall|k: int|
                h + a.host.len + 1 <= k < h + a.host.len + 1 + p.len implies is_ident_cont(
                #[trigger] r[k],
            ) by {
                assert(r[h + a.host.len + 1 + (k - h - a.host.len - 1)] == s[p.start + (k - h
                    - a.host.len - 1)]);
                assert(is_ident_cont(s[p.start + (k - h - a.host.len - 1)]));
            }
            lemma_delim_token_ok(r, h + a.host.len, ':');
            lemma_ident_token_ok(r, h + a.host.len + 1, p.len);
        },
        None => {},
    }
    match (a.userinfo, a.port) {
        (Some(u), Some(p)) => {
            assert(t2 =~= seq![
                delim_tok(KindModel::ForwardSlash, o2),
                delim_tok(KindModel::ForwardSlash, o2 + 1),
                ident_tok(o2 + 2, u.len),
                delim_tok(KindModel::At, o2 + 2 + u.len),
                ident_tok(h, a.host.len),
                delim_tok(KindModel::Colon, h + a.host.len),
                ident_tok(h + a.host.len + 1, p.len),
            ]);
            assert(lens_before(t2, 0) == 0);
            assert(lens_before(t2, 1) == 1);
            assert(lens_before(t2, 2) == 2);
            assert(lens_before(t2, 3) == 2 + u.len);
            assert(lens_before(t2, 4) == 2 + u.len + 1);
            assert(lens_before(t2, 5) == 2 + u.len + 1 + a.host.len);
            assert(lens_before(t2, 6) == 2 + u.len + 1 + a.host.len + 1);
            assert(lens_before(t2, 7) == 2 + u.len + 1 + a.host.len + 1 + p.len);
        },
        (Some(u), None) => {
            assert(t2 =~= seq![
                delim_tok(KindModel::ForwardSlash, o2),
                delim_tok(KindModel::ForwardSlash, o2 + 1),
                ident_tok(o2 + 2, u.len),
                delim_tok(KindModel::At, o2 + 2 + u.len),
                ident_tok(h, a.host.len),
            ]);
            assert(lens_before(t2, 0) == 0);
            assert(lens_before(t2, 1) == 1);
            assert(lens_before(t2, 2) == 2);
            assert(lens_before(t2, 3) == 2 + u.len);
            assert(lens_before(t2, 4) == 2 + u.len + 1);
            assert(lens_before(t2, 5) == 2 + u.len + 1 + a.host.len);
        },
        (None, Some(p)) => {
            assert(t2 =~= seq![
                delim_tok(KindModel::ForwardSlash, o2),
                delim_tok(KindModel::ForwardSlash, o2 + 1),
                ident_tok(h, a.host.len),
                delim_tok(KindModel::Colon, h + a.host.len),
                ident_tok(h + a.host.len + 1, p.len),
            ]);
            assert(lens_before(t2, 0) == 0);
            assert(lens_before(t2, 1) == 1);
            assert(lens_before(t2, 2) == 2);
            assert(lens_before(t2, 3) == 2 + a.host.len);
            assert(lens_before(t2, 4) == 2 + a.host.len + 1);
            assert(lens_before(t2, 5) == 2 + a.host.len + 1 + p.len);
        },
        (None, None) => {
            assert(t2 =~= seq![
                delim_tok(KindModel::ForwardSlash, o2),
                delim_tok(KindModel::ForwardSlash, o2 + 1),
                ident_tok(h, a.host.len),
            ]);
            assert(lens_before(t2, 0) == 0);
            assert(lens_before(t2, 1) == 1);
            assert(lens_before(t2, 2) == 2);
            assert(lens_before(t2, 3) == 2 + a.host.len);
        },
    }
    assert(forall|k: int| 0 <= k < t2.len() ==> token_ok(r, #[trigger] t2[k]));
    assert(forall|k: int|
        0 <= k < t2.len() ==> (#[trigger] t2[k].span.start) == o2 + lens_before(t2, k));
    assert(o2 + lens_before(t2, t2.len() as int) == o3);
    lemma_lex_append(r, t2, o2, o3, rest);
}

/// Everything the reconstruction needs to know of a parse's components.
spec fn recon_facts(s: Seq<char>, ts: Seq<TokenModel>, g: UriModel, i2: int, i3: int) -> bool {
    &&& 0 <= i2 <= i3 <= ts.len()
    &&& match g.scheme {
        Some(sp) => crate::model::span_in(s, sp) && 1 <= sp.len && ident_span_chars(s, sp),
        None => true,
    }
    &&& match g.authority {
        Some(a) => {
            &&& match a.userinfo {
                Some(u) => crate::model::span_in(s, u) && 1 <= u.len && ident_span_chars(s, u),
                None => true,
            }
            &&& crate::model::span_in(s, a.host) && 1 <= a.host.len && ident_span_chars(
                s,
                a.host,
            )
            &&& match a.port {
                Some(p) => crate::model::span_in(s, p) && 1 <= p.len && ident_span_chars(s, p),
                None => true,
            }
            &&& (i3 > i2 ==> ts[i2].kind is ForwardSlash)
        },
        None => true,
    }
    &&& forall|k: int| i2 <= k < i3 ==> is_path_token(#[trigger] ts[k])
    &&& (i3 > i2 ==> g.path == (SpanModel {
        start: ts[i2].span.start,
        len: lens_before(ts, i3) - lens_before(ts, i2),
    }) && crate::model::span_in(s, g.path) && ts[i2].span.start == lens_before(ts, i2))
    &&& (i3 == i2 ==> g.path == (SpanModel { start: 0, len: 0 }))
    &&& match g.query {
        Some(q) => crate::model::span_in(s, q) && 0 <= q.len && (q.len > 0
            ==> ident_span_chars(s, q)),
        None => true,
    }
    &&& match g.fragment {
        Some(f) => crate::model::span_in(s, f) && 1 <= f.len && ident_span_chars(s, f),
        None => true,
    }
}

/// The checks the phases passed, and what ended each of them.
spec fn recon_checks(s: Seq<char>, ts: Seq<TokenModel>, g: UriModel, i2: int) -> bool {
    &&& !(g.scheme is Some && g.authority is None)
    &&& match g.scheme {
        Some(sp) => crate::model::valid_scheme_text(span_text(s, sp)),
        None => true,
    }
    &&& match g.authority {
        Some(a) => {
            &&& crate::model::valid_host_text(span_text(s, a.host))
            &&& match a.port {
                Some(p) => crate::model::valid_port_text(span_text(s, p)),
                None => true,
            }
        },
        None => {
            &&& i2 == 0
            &&& !(i2 + 1 < ts.len() && ts[i2].kind is ForwardSlash && ts[i2 + 1].kind
                is ForwardSlash)
        },
    }
}

/// What the five phases' success says of each component's span.
#[verifier::rlimit(100)]
#[verifier::spinoff_prover]
proof fn lemma_parse_facts(
    s: Seq<char>,
    ts: Seq<TokenModel>,
    g: UriModel,
    i1: int,
    i2: int,
    i3: int,
    i4: int,
)
    requires
        parsed_with(s, ts, g, i1, i2, i3, i4),
    ensures
        recon_facts(s, ts, g, i2, i3),
        recon_checks(s, ts, g, i2),
{
    // ---- phase inversion ----
    // scheme
    if g.scheme is Some {
        let sp = g.scheme->Some_0;
        assert(ts.len() >= 2 && ts[0].kind is Ident && ts[1].kind is Colon && sp == ts[0].span
            && i1 == 2);
        lemma_ident_span(s, ts, 0);
    } else {
        assert(i1 == 0);
    }
    // authority
    if g.authority is Some {
        let a = g.authority->Some_0;
        assert(0 <= i1 && i1 + 1 < ts.len() && ts[i1].kind is ForwardSlash && ts[i1 + 1].kind
            is ForwardSlash);
        let j = userinfo_phase(ts, i1 + 2).1;
        assert(userinfo_phase(ts, i1 + 2).0 == a.userinfo);
        if a.userinfo is Some {
            let u = a.userinfo->Some_0;
            assert(ts[i1 + 2].kind is Ident && ts[i1 + 3].kind is At && u == ts[i1 + 2].span
                && j == i1 + 4);
            lemma_ident_span(s, ts, i1 + 2);
        } else {
            assert(j == i1 + 2);
        }
        assert(host_phase(s, ts, j) == Ok::<(SpanModel, int), ErrorModel>((a.host, j + 1)));
        assert(0 <= j < ts.len() && ts[j].kind is Ident && a.host == ts[j].span);
        lemma_ident_span(s, ts, j);
        let k = j + 1;
        assert(port_phase(s, ts, k) == Ok::<(Option<SpanModel>, int), ErrorModel>((a.port, i2)));
        if a.port is Some {
            let pt = a.port->Some_0;
            assert(0 <= k < ts.len() && ts[k].kind is Colon && k + 1 < ts.len() && ts[k + 1].kind
                is Ident && pt == ts[k + 1].span && i2 == k + 2);
            lemma_ident_span(s, ts, k + 1);
        } else {
            assert(i2 == k + 1 || i2 == k);
        }
        // whatever ended the authority, the token after it is no identifier
        assert(i2 < ts.len() ==> !(ts[i2].kind is Ident)) by {
            if i2 < ts.len() {
                if a.port is Some {
                    lemma_no_adjacent_idents(s, ts, 0, i2 - 1);
                } else {
                    if 0 <= k < ts.len() && ts[k].kind is Colon {
                        assert(i2 == k + 1);
                        assert(!(i2 < ts.len() && ts[i2].kind is Ident));
                    } else {
                        assert(i2 == k);
                        lemma_no_adjacent_idents(s, ts, 0, j);
                    }
                }
            }
        }
    } else {
        assert(i2 == i1);
        assert(g.scheme is None);
        assert(i1 == 0);
    }
    // path
    assert(i3 == path_run_end(ts, i2));
    assert(0 <= i2 <= ts.len());
    lemma_path_members(ts, i2);
    lemma_path_run(s, ts, i2);
    if i3 > i2 {
        assert(g.path == (SpanModel { start: ts[i2].span.start, len: path_run_len(ts, i2) }));
        assert(ts[i2].span.start == 0 + lens_before(ts, i2));
        assert(lens_before(ts, i3) == lens_before(ts, i3 - 1) + ts[i3 - 1].span.len);
        assert(ts[i3 - 1].span.start == 0 + lens_before(ts, i3 - 1));
        assert(token_ok(s, ts[i3 - 1]));
        assert(g.path.len == lens_before(ts, i3) - lens_before(ts, i2));
        assert(crate::model::span_in(s, g.path));
        // with an authority, a nonempty path starts with a slash
        if g.authority is Some {
            assert(is_path_token(ts[i2]));
            assert(ts[i2].kind is ForwardSlash);
            lemma_slash_span(s, ts, i2);
            assert(s[g.path.start] == '/');
        }
    } else {
        assert(g.path == (SpanModel { start: 0, len: 0 }));
    }
    // query
    if g.query is Some {
        let qsp = g.query->Some_0;
        assert(0 <= i3 < ts.len() && ts[i3].kind is QuestionMark);
        let qs = query_scan(ts, i3 + 1);
        assert(qs == Ok::<(int, int), ErrorModel>((qsp.len, i4)));
        assert(qsp.start == (if i3 + 1 < ts.len() {
            ts[i3 + 1].span.start
        } else {
            0
        }));
        if qsp.len > 0 {
            assert(i3 + 1 < ts.len());
            assert(ts[i3 + 1].kind is Ident) by {
                if !(ts[i3 + 1].kind is Ident) {
                    assert(ts[i3 + 1].kind is PoundSign ==> qs == Ok::<(int, int), ErrorModel>((
                        0,
                        i3 + 1,
                    )));
                }
            }
            lemma_ident_span(s, ts, i3 + 1);
            if i3 + 2 < ts.len() {
                lemma_no_adjacent_idents(s, ts, 0, i3 + 1);
            }
            assert(token_ok(s, ts[i3 + 1]));
            assert(query_scan(ts, i3 + 2) == Ok::<(int, int), ErrorModel>((0, i3 + 2))) by {
                if i3 + 2 < ts.len() && !(ts[i3 + 2].kind is PoundSign) {
                    assert(query_scan(ts, i3 + 1) is Err);
                }
            }
            assert(qsp.len == ts[i3 + 1].span.len && i4 == i3 + 2);
            assert(qsp =~= ts[i3 + 1].span);
        } else {
            assert(i4 == i3 + 1) by {
                if i3 + 1 < ts.len() && ts[i3 + 1].kind is Ident {
                    assert(token_ok(s, ts[i3 + 1]));
                    lemma_query_scan_pos(s, ts, i3 + 1);
                }
            }
            lemma_query_scan_nonneg(s, ts, i3 + 1);
            assert(qsp.len == 0);
            assert(crate::model::span_in(s, qsp)) by {
                if i3 + 1 < ts.len() {
                    assert(token_ok(s, ts[i3 + 1]));
                }
            }
        }
    } else {
        assert(i4 == i3);
    }
    // fragment
    if g.fragment is Some {
        let fsp = g.fragment->Some_0;
        assert(0 <= i4 < ts.len() && ts[i4].kind is PoundSign && i4 + 1 < ts.len() && ts[i4
            + 1].kind is Ident && fsp == ts[i4 + 1].span);
        lemma_ident_span(s, ts, i4 + 1);
    }
}

/// The rebuilt URI string lexes to exactly its canonical token list.
#[verifier::rlimit(100)]
#[verifier::spinoff_prover]
proof fn lemma_recon_lex(s: Seq<char>, ts: Seq<TokenModel>, g: UriModel, i2: int, i3: int)
    requires
        tokens_ok(s, ts, 0),
        recon_facts(s, ts, g, i2, i3),
    ensures
        lex_from(reconstruct(s, g), 0) == LexOutcome::Toks(recon_toks(s, ts, g, i2, i3)),
{
    let r = reconstruct(s, g);
    let p1 = scheme_part(s, g);
    let p2 = authority_part(s, g);
    let p3 = span_text(s, g.path);
    let p4 = query_part(s, g);
    let p5 = fragment_part(s, g);
    let o2 = p1.len() as int;
    let o3 = o2 + p2.len();
    let o4 = o3 + p3.len();
    let o5 = o4 + p4.len();
    let oe = o5 + p5.len();
    assert(r == p1 + p2 + p3 + p4 + p5);
    assert(r.len() == oe);
    assert forall|q: int| 0 <= q < p1.len() implies #[trigger] r[q] == p1[q] by {}
    assert forall|q: int| 0 <= q < p2.len() implies #[trigger] r[o2 + q] == p2[q] by {}
    assert forall|q: int| 0 <= q < p3.len() implies #[trigger] r[o3 + q] == p3[q] by {}
    assert forall|q: int| 0 <= q < p4.len() implies #[trigger] r[o4 + q] == p4[q] by {}
    assert forall|q: int| 0 <= q < p5.len() implies #[trigger] r[o5 + q] == p5[q] by {}
    if i3 > i2 && g.authority is Some {
        lemma_slash_span(s, ts, i2);
        assert(s[g.path.start] == '/');
    }
    // ---- assemble the segments, back to front ----
    let t5 = frag_toks(g.fragment, o5);
    if g.fragment is Some {
        let fsp = g.fragment->Some_0;
        assert(p5 == seq!['#'] + span_text(s, fsp));
        assert(p5.len() == 1 + fsp.len);
        assert(r[o5] == '#');
        assert forall|q: int| 0 <= q < fsp.len implies r[o5 + 1 + q] == s[#[trigger] (fsp.start
            + q)] by {
            assert(r[o5 + (1 + q)] == p5[1 + q]);
            assert(p5[1 + q] == span_text(s, fsp)[q]);
        }
        lemma_frag_lex(r, s, g.fragment, o5);
    } else {
        assert(p5.len() == 0);
        lemma_frag_lex(r, s, g.fragment, o5);
    }
    let t4 = query_toks(g.query, o4);
    if g.query is Some {
        let qsp = g.query->Some_0;
        assert(p4 == seq!['?'] + span_text(s, qsp));
        assert(r[o4] == '?');
        assert forall|q: int| 0 <= q < qsp.len implies r[o4 + 1 + q] == s[#[trigger] (qsp.start
            + q)] by {
            assert(r[o4 + (1 + q)] == p4[1 + q]);
            assert(p4[1 + q] == span_text(s, qsp)[q]);
        }
        assert(o5 < r.len() ==> !is_ident_cont(r[o5])) by {
            if o5 < r.len() {
                assert(g.fragment is Some);
                assert(r[o5] == '#');
                lemma_delim_not_ident('#');
            }
        }
        lemma_query_lex(r, s, g.query, o4, o5, t5);
    } else {
        assert(p4.len() == 0);
        assert(o5 < r.len() ==> !is_ident_cont(r[o5])) by {
            if o5 < r.len() {
                assert(r[o5] == '#');
                lemma_delim_not_ident('#');
            }
        }
        lemma_query_lex(r, s, g.query, o4, o5, t5);
    }
    let d = if i3 > i2 {
        o3 - ts[i2].span.start
    } else {
        0
    };
    let t3 = path_toks(ts, i2, i3, d);
    assert(o4 < r.len() ==> !is_ident_cont(r[o4])) by {
        if o4 < r.len() {
            if g.query is Some {
                assert(r[o4] == '?');
                lemma_delim_not_ident('?');
            } else {
                assert(o4 == o5);
                assert(r[o5] == '#');
                lemma_delim_not_ident('#');
            }
        }
    }
    if i3 > i2 {
        assert forall|w: int| 0 <= w < o4 - o3 implies r[o3 + w] == s[#[trigger] (ts[i2].span.start
            + w)] by {
            assert(r[o3 + w] == p3[w]);
            assert(p3[w] == s[g.path.start + w]);
        }
    }
    lemma_path_lex(r, s, ts, i2, i3, d, o3, o4, t4 + t5);
    let t2 = match g.authority {
        Some(a) => authority_toks(a, o2),
        None => seq![],
    };
    match g.authority {
        Some(a) => {
            assert(o3 < r.len() ==> !is_ident_cont(r[o3])) by {
                if o3 < r.len() {
                    if i3 > i2 {
                        assert(r[o3 + 0] == p3[0]);
                        assert(p3[0] == s[g.path.start + 0]);
                        assert(s[g.path.start] == '/');
                        lemma_delim_not_ident('/');
                    } else {
                        assert(o3 == o4);
                    }
                }
            }
            let uip = userinfo_part(s, a);
            let pp = port_part(s, a);
            assert(p2 == seq!['/', '/'] + uip + span_text(s, a.host) + pp);
            assert(r[o2 + 0] == p2[0]);
            assert(r[o2 + 1] == p2[1]);
            assert(p2[0] == '/' && p2[1] == '/');
            let h = host_off(a, o2);
            assert(h - o2 == 2 + uip.len());
            if a.userinfo is Some {
                let u = a.userinfo->Some_0;
                assert(uip == span_text(s, u) + seq!['@']);
                assert forall|q: int| 0 <= q < u.len implies #[trigger] r[o2 + 2 + q] == s[u.start
                    + q] by {
                    assert(r[o2 + (2 + q)] == p2[2 + q]);
                    assert(p2[2 + q] == uip[q]);
                    assert(uip[q] == span_text(s, u)[q]);
                }
                assert(r[o2 + (2 + u.len)] == p2[2 + u.len]);
                assert(p2[2 + u.len] == uip[u.len]);
                assert(r[o2 + 2 + u.len] == '@');
            }
            assert forall|q: int| 0 <= q < a.host.len implies #[trigger] r[h + q] == s[a.host.start
                + q] by {
                assert(r[o2 + ((h - o2) + q)] == p2[(h - o2) + q]);
                assert(p2[(h - o2) + q] == span_text(s, a.host)[q]);
            }
            if a.port is Some {
                let pt = a.port->Some_0;
                assert(pp == seq![':'] + span_text(s, pt));
                assert(r[o2 + ((h - o2) + a.host.len)] == p2[(h - o2) + a.host.len]);
                assert(p2[(h - o2) + a.host.len] == pp[0]);
                assert(r[h + a.host.len] == ':');
                assert forall|q: int| 0 <= q < pt.len implies #[trigger] r[h + a.host.len + 1 + q]
                    == s[pt.start + q] by {
                    assert(r[o2 + ((h - o2) + a.host.len + 1 + q)] == p2[(h - o2) + a.host.len + 1
                        + q]);
                    assert(p2[(h - o2) + a.host.len + 1 + q] == pp[1 + q]);
                    assert(pp[1 + q] == span_text(s, pt)[q]);
                }
            }
            assert(o3 == o2 + 2 + (match a.userinfo {
                Some(u) => u.len + 1,
                None => 0,
            }) + a.host.len + (match a.port {
                Some(pt) => pt.len + 1,
                None => 0,
            }));
            lemma_authority_lex(r, s, a, o2, o3, t3 + (t4 + t5));
        },
        None => {
            assert(p2.len() == 0);
            assert(t2 + (t3 + (t4 + t5)) =~= t3 + (t4 + t5));
        },
    }
    assert(lex_from(r, o2) == LexOutcome::Toks(t2 + (t3 + (t4 + t5))));
    let t1 = scheme_toks(g.scheme);
    match g.scheme {
        Some(sp) => {
            assert(p1 == span_text(s, sp) + seq![':']);
            assert(o2 == sp.len + 1);
            assert forall|q: int| 0 <= q < sp.len implies #[trigger] r[q] == s[sp.start + q] by {
                assert(r[q] == p1[q]);
                assert(p1[q] == span_text(s, sp)[q]);
            }
            assert(r[sp.len] == p1[sp.len]);
            assert(r[sp.len] == ':');
            lemma_scheme_lex(r, s, g.scheme, o2, t2 + (t3 + (t4 + t5)));
        },
        None => {
            assert(o2 == 0);
            lemma_scheme_lex(r, s, g.scheme, o2, t2 + (t3 + (t4 + t5)));
        },
    }
    assert(t1 + (t2 + (t3 + (t4 + t5))) =~= recon_toks(s, ts, g, i2, i3));
}

/// A scan that starts at an identifier counts at least its length.
proof fn lemma_query_scan_pos(s: Seq<char>, ts: Seq<TokenModel>, i: int)
    requires
        tokens_ok(s, ts, 0),
        0 <= i < ts.len(),
        ts[i].kind is Ident,
        query_scan(ts, i) is Ok,
    ensures
        query_scan(ts, i)->Ok_0.0 >= ts[i].span.len,
{
    assert(token_ok(s, ts[i]));
    let qs2 = query_scan(ts, i + 1);
    match qs2 {
        Ok((sum2, _)) => {
            lemma_query_scan_nonneg(s, ts, i + 1);
        },
        Err(_) => {},
    }
}

/// A scan never counts a negative length.
proof fn lemma_query_scan_nonneg(s: Seq<char>, ts: Seq<TokenModel>, i: int)
    requires
        tokens_ok(s, ts, 0),
        query_scan(ts, i) is Ok,
    ensures
        query_scan(ts, i)->Ok_0.0 >= 0,
    decreases ts.len() - i,
{
    if 0 <= i < ts.len() && !(ts[i].kind is PoundSign) && ts[i].kind is Ident {
        lemma_query_scan_nonneg(s, ts, i + 1);
        assert(token_ok(s, ts[i]));
    }
}


/// Offset of the rebuilt authority part.
pub open spec fn off2(s: Seq<char>, g: UriModel) -> int {
    scheme_part(s, g).len() as int
}

/// Offset of the rebuilt path part.
pub open spec fn off3(s: Seq<char>, g: UriModel) -> int {
    off2(s, g) + authority_part(s, g).len()
}

/// Offset of the rebuilt query part.
pub open spec fn off4(s: Seq<char>, g: UriModel) -> int {
    off3(s, g) + span_text(s, g.path).len()
}

/// Offset of the rebuilt fragment part.
pub open spec fn off5(s: Seq<char>, g: UriModel) -> int {
    off4(s, g) + query_part(s, g).len()
}

/// How many tokens the rebuilt scheme part holds.
pub open spec fn cut1(g: UriModel) -> int {
    scheme_toks(g.scheme).len() as int
}

/// How many tokens the rebuilt scheme and authority parts hold.
pub open spec fn cut2(s: Seq<char>, g: UriModel) -> int {
    cut1(g) + (match g.authority {
        Some(a) => authority_toks(a, off2(s, g)).len() as int,
        None => 0,
    })
}

/// ... and with the path part.
pub open spec fn cut3(s: Seq<char>, g: UriModel, i2: int, i3: int) -> int {
    cut2(s, g) + (i3 - i2)
}

/// ... and with the query part.
pub open spec fn cut4(s: Seq<char>, g: UriModel, i2: int, i3: int) -> int {
    cut3(s, g, i2, i3) + query_toks(g.query, off4(s, g)).len()
}

/// The model the rebuilt URI string parses to: the same components, with
/// spans moved to their rebuilt places.
pub open spec fn recon_model(s: Seq<char>, g: UriModel, i2: int, i3: int) -> UriModel {
    UriModel {
        scheme: match g.scheme {
            Some(sp) => Some(SpanModel { start: 0, len: sp.len }),
            None => None,
        },
        authority: match g.authority {
            Some(a) => Some(
                AuthorityModel {
                    userinfo: match a.userinfo {
                        Some(u) => Some(SpanModel { start: off2(s, g) + 2, len: u.len }),
                        None => None,
                    },
                    host: SpanModel { start: host_off(a, off2(s, g)), len: a.host.len },
                    port: match a.port {
                        Some(p) => Some(
                            SpanModel {
                                start: host_off(a, off2(s, g)) + a.host.len + 1,
                                len: p.len,
                            },
                        ),
                        None => None,
                    },
                },
            ),
            None => None,
        },
        path: if i3 == i2 {
            SpanModel { start: 0, len: 0 }
        } else {
            SpanModel { start: off3(s, g), len: g.path.len }
        },
        query: match g.query {
            Some(qsp) => Some(
                SpanModel {
                    start: if qsp.len > 0 {
                        off4(s, g) + 1
                    } else if g.fragment is Some {
                        off5(s, g)
                    } else {
                        0
                    },
                    len: qsp.len,
                },
            ),
            None => None,
        },
        fragment: match g.fragment {
            Some(fsp) => Some(SpanModel { start: off5(s, g) + 1, len: fsp.len }),
            None => None,
        },
    }
}

/// The scheme phase on the rebuilt token list.
#[verifier::rlimit(100)]
#[verifier::spinoff_prover]
proof fn lemma_recon_scheme(s: Seq<char>, ts: Seq<TokenModel>, g: UriModel, i2: int, i3: int)
    requires
        tokens_ok(s, ts, 0),
        recon_facts(s, ts, g, i2, i3),
        recon_checks(s, ts, g, i2),
    ensures
        scheme_phase(reconstruct(s, g), recon_toks(s, ts, g, i2, i3)) == Ok::<
            (Option<SpanModel>, int),
            ErrorModel,
        >((recon_model(s, g, i2, i3).scheme, cut1(g))),
        g.scheme matches Some(sp) ==> span_text(
            reconstruct(s, g),
            recon_model(s, g, i2, i3).scheme->Some_0,
        ) == span_text(s, sp),
{
    let r = reconstruct(s, g);
    let p1 = scheme_part(s, g);
    let tr = recon_toks(s, ts, g, i2, i3);
    let o2 = off2(s, g);
    let o3 = off3(s, g);
    let t1 = scheme_toks(g.scheme);
    let t2 = match g.authority {
        Some(a) => authority_toks(a, o2),
        None => seq![],
    };
    let d = if i3 > i2 {
        o3 - ts[i2].span.start
    } else {
        0
    };
    let t3 = path_toks(ts, i2, i3, d);
    let t4 = query_toks(g.query, off4(s, g));
    let t5 = frag_toks(g.fragment, off5(s, g));
    assert(tr == t1 + t2 + t3 + t4 + t5);
    let c1 = t1.len() as int;
    assert(r == p1 + authority_part(s, g) + span_text(s, g.path) + query_part(s, g)
        + fragment_part(s, g));
    match g.scheme {
        Some(sp) => {
            assert(tr[0] == t1[0] && tr[1] == t1[1]);
            assert(tr[0] == ident_tok(0, sp.len));
            assert(tr[1] == delim_tok(KindModel::Colon, sp.len));
            assert(span_text(r, SpanModel { start: 0, len: sp.len }) =~= span_text(s, sp)) by {
                assert forall|q: int| 0 <= q < sp.len implies r[q] == span_text(s, sp)[q] by {
                    assert(r[q] == p1[q]);
                    assert(p1[q] == span_text(s, sp)[q]);
                }
            }
        },
        None => {
            assert(c1 == 0);
            if tr.len() >= 2 && tr[0].kind is Ident {
                assert(g.authority is None);
                assert(i2 == 0);
                if t3.len() >= 2 {
                    assert(tr[0] == t3[0] && tr[1] == t3[1]);
                    assert(ts[0].span.start == 0 + lens_before(ts, 0));
                    assert(d == 0);
                    assert(tr[1].kind == ts[1].kind);
                    assert(is_path_token(ts[1]));
                    assert(!(tr[1].kind is Colon));
                } else if t3.len() == 1 {
                    assert(tr[0] == t3[0]);
                    if t4.len() > 0 {
                        assert(tr[1] == t4[0]);
                    } else {
                        assert(tr[1] == t5[0]);
                    }
                    assert(!(tr[1].kind is Colon));
                } else {
                    if t4.len() > 0 {
                        assert(tr[0] == t4[0]);
                    } else {
                        assert(tr[0] == t5[0]);
                    }
                    assert(!(tr[0].kind is Ident));
                }
            }
        },
    }
}

/// The rebuilt authority region repeats the original component texts.
#[verifier::rlimit(100)]
#[verifier::spinoff_prover]
proof fn lemma_auth_texts(r: Seq<char>, s: Seq<char>, a: AuthorityModel, o2: int)
    requires
        0 <= o2,
        match a.userinfo {
            Some(u) => crate::model::span_in(s, u),
            None => true,
        },
        crate::model::span_in(s, a.host),
        match a.port {
            Some(p) => crate::model::span_in(s, p),
            None => true,
        },
        ({
            let p2 = seq!['/', '/'] + userinfo_part(s, a) + span_text(s, a.host) + port_part(
                s,
                a,
            );
            &&& o2 + p2.len() <= r.len()
            &&& forall|q: int| 0 <= q < p2.len() ==> #[trigger] r[o2 + q] == p2[q]
        }),
    ensures
        span_text(r, SpanModel { start: host_off(a, o2), len: a.host.len }) == span_text(
            s,
            a.host,
        ),
        match a.userinfo {
            Some(u) => span_text(r, SpanModel { start: o2 + 2, len: u.len }) == span_text(s, u),
            None => true,
        },
        match a.port {
            Some(p) => span_text(
                r,
                SpanModel { start: host_off(a, o2) + a.host.len + 1, len: p.len },
            ) == span_text(s, p),
            None => true,
        },
{
    let p2 = seq!['/', '/'] + userinfo_part(s, a) + span_text(s, a.host) + port_part(s, a);
    let uip = userinfo_part(s, a);
    let pp = port_part(s, a);
    let h = host_off(a, o2);
    match a.userinfo {
        Some(u) => {
            assert(span_text(r, SpanModel { start: o2 + 2, len: u.len }) =~= span_text(
                s,
                u,
            )) by {
                assert forall|q: int| 0 <= q < u.len implies r[o2 + 2 + q] == span_text(
                    s,
                    u,
                )[q] by {
                    assert(r[o2 + (2 + q)] == p2[2 + q]);
                    assert(p2[2 + q] == uip[q]);
                    assert(uip[q] == span_text(s, u)[q]);
                }
            }
        },
        None => {},
    }
    assert(span_text(r, SpanModel { start: h, len: a.host.len }) =~= span_text(s, a.host)) by {
        assert forall|q: int| 0 <= q < a.host.len implies r[h + q] == span_text(s, a.host)[q] by {
            assert(r[o2 + ((h - o2) + q)] == p2[(h - o2) + q]);
            assert(p2[(h - o2) + q] == span_text(s, a.host)[q]);
        }
    }
    match a.port {
        Some(p) => {
            assert(span_text(r, SpanModel { start: h + a.host.len + 1, len: p.len }) =~= span_text(
                s,
                p,
            )) by {
                assert forall|q: int| 0 <= q < p.len implies r[h + a.host.len + 1 + q] == span_text(
                    s,
                    p,
                )[q] by {
                    assert(r[o2 + ((h - o2) + a.host.len + 1 + q)] == p2[(h - o2) + a.host.len + 1
                        + q]);
                    assert(p2[(h - o2) + a.host.len + 1 + q] == pp[1 + q]);
                    assert(pp[1 + q] == span_text(s, p)[q]);
                }
            }
        },
        None => {},
    }
}

/// The authority phase on the rebuilt token list, when an authority is
/// present.
#[verifier::rlimit(100)]
#[verifier::spinoff_prover]
proof fn lemma_recon_authority_some(
    s: Seq<char>,
    ts: Seq<TokenModel>,
    g: UriModel,
    i2: int,
    i3: int,
)
    requires
        tokens_ok(s, ts, 0),
        recon_facts(s, ts, g, i2, i3),
        recon_checks(s, ts, g, i2),
        g.authority is Some,
    ensures
        authority_phase(reconstruct(s, g), recon_toks(s, ts, g, i2, i3), cut1(g)) == Ok::<
            (Option<AuthorityModel>, int),
            ErrorModel,
        >((recon_model(s, g, i2, i3).authority, cut2(s, g))),
        match (g.authority, recon_model(s, g, i2, i3).authority) {
            (Some(a), Some(m)) => {
                &&& span_text(reconstruct(s, g), m.host) == span_text(s, a.host)
                &&& match (a.userinfo, m.userinfo) {
                    (Some(u), Some(mu)) => span_text(reconstruct(s, g), mu) == span_text(s, u),
                    (None, None) => true,
                    _ => false,
                }
                &&& match (a.port, m.port) {
                    (Some(p), Some(mp)) => span_text(reconstruct(s, g), mp) == span_text(s, p),
                    (None, None) => true,
                    _ => false,
                }
            },
            _ => false,
        },
{
    let r = reconstruct(s, g);
    let p1 = scheme_part(s, g);
    let p2 = authority_part(s, g);
    let tr = recon_toks(s, ts, g, i2, i3);
    let o2 = off2(s, g);
    let o3 = off3(s, g);
    let t1 = scheme_toks(g.scheme);
    let t2 = match g.authority {
        Some(a) => authority_toks(a, o2),
        None => seq![],
    };
    let d = if i3 > i2 {
        o3 - ts[i2].span.start
    } else {
        0
    };
    let t3 = path_toks(ts, i2, i3, d);
    let t4 = query_toks(g.query, off4(s, g));
    let t5 = frag_toks(g.fragment, off5(s, g));
    assert(tr == t1 + t2 + t3 + t4 + t5);
    let c1 = t1.len() as int;
    let c2 = c1 + t2.len();
    let c3 = c2 + t3.len();
    let c4 = c3 + t4.len();
    assert(r == p1 + p2 + span_text(s, g.path) + query_part(s, g) + fragment_part(s, g));
    assert forall|q: int| 0 <= q < p2.len() implies #[trigger] r[o2 + q] == p2[q] by {}
    match g.authority {
        Some(a) => {
            let h = host_off(a, o2);
            assert(p2 == seq!['/', '/'] + userinfo_part(s, a) + span_text(s, a.host) + port_part(
                s,
                a,
            ));
            lemma_auth_texts(r, s, a, o2);
            assert(tr[c1] == t2[0] && tr[c1 + 1] == t2[1]);
            assert(tr[c1].kind is ForwardSlash && tr[c1 + 1].kind is ForwardSlash);
            let ui_r = userinfo_phase(tr, c1 + 2);
            match a.userinfo {
                Some(u) => {
                    assert(tr[c1 + 2] == t2[2] && tr[c1 + 3] == t2[3]);
                    assert(tr[c1 + 2] == ident_tok(o2 + 2, u.len));
                    assert(tr[c1 + 3].kind is At);
                    assert(ui_r == (Some(SpanModel { start: o2 + 2, len: u.len }), c1 + 4));
                },
                None => {
                    assert(tr[c1 + 2] == t2[2]);
                    assert(t2[2] == ident_tok(h, a.host.len));
                    if c1 + 3 < tr.len() {
                        assert(!(tr[c1 + 3].kind is At)) by {
                            if t2.len() > 3 {
                                assert(tr[c1 + 3] == t2[3]);
                            } else {
                                if t3.len() > 0 {
                                    assert(tr[c2] == t3[0]);
                                    assert(ts[i2].kind is ForwardSlash);
                                } else if t4.len() > 0 {
                                    assert(tr[c3] == t4[0]);
                                } else {
                                    assert(tr[c4] == t5[0]);
                                }
                            }
                        }
                    }
                    assert(ui_r == (None::<SpanModel>, c1 + 2));
                },
            }
            let jh = ui_r.1;
            assert(tr[jh] == ident_tok(h, a.host.len));
            assert(host_phase(r, tr, jh) == Ok::<(SpanModel, int), ErrorModel>((
                SpanModel { start: h, len: a.host.len },
                jh + 1,
            )));
            match a.port {
                Some(p) => {
                    assert(tr[jh + 1] == delim_tok(KindModel::Colon, h + a.host.len));
                    assert(tr[jh + 2] == ident_tok(h + a.host.len + 1, p.len));
                    assert(port_phase(r, tr, jh + 1) == Ok::<
                        (Option<SpanModel>, int),
                        ErrorModel,
                    >((Some(SpanModel { start: h + a.host.len + 1, len: p.len }), jh + 3)));
                    assert(jh + 3 == c2);
                },
                None => {
                    if jh + 1 < tr.len() {
                        assert(!(tr[jh + 1].kind is Colon)) by {
                            assert(jh + 1 == c2);
                            if t3.len() > 0 {
                                assert(tr[c2] == t3[0]);
                                assert(ts[i2].kind is ForwardSlash);
                            } else if t4.len() > 0 {
                                assert(tr[c3] == t4[0]);
                            } else {
                                assert(tr[c4] == t5[0]);
                            }
                        }
                    }
                    assert(port_phase(r, tr, jh + 1) == Ok::<
                        (Option<SpanModel>, int),
                        ErrorModel,
                    >((None, jh + 1)));
                    assert(jh + 1 == c2);
                },
            }
        },
        None => {},
    }
}

/// The authority phase on the rebuilt token list, when no authority is
/// present.
#[verifier::rlimit(100)]
#[verifier::spinoff_prover]
proof fn lemma_recon_authority_none(
    s: Seq<char>,
    ts: Seq<TokenModel>,
    g: UriModel,
    i2: int,
    i3: int,
)
    requires
        tokens_ok(s, ts, 0),
        recon_facts(s, ts, g, i2, i3),
        recon_checks(s, ts, g, i2),
        g.authority is None,
    ensures
        authority_phase(reconstruct(s, g), recon_toks(s, ts, g, i2, i3), cut1(g)) == Ok::<
            (Option<AuthorityModel>, int),
            ErrorModel,
        >((recon_model(s, g, i2, i3).authority, cut2(s, g))),
{
    let r = reconstruct(s, g);
    let p1 = scheme_part(s, g);
    let p2 = authority_part(s, g);
    let tr = recon_toks(s, ts, g, i2, i3);
    let o2 = off2(s, g);
    let o3 = off3(s, g);
    let t1 = scheme_toks(g.scheme);
    let t2 = match g.authority {
        Some(a) => authority_toks(a, o2),
        None => seq![],
    };
    let d = if i3 > i2 {
        o3 - ts[i2].span.start
    } else {
        0
    };
    let t3 = path_toks(ts, i2, i3, d);
    let t4 = query_toks(g.query, off4(s, g));
    let t5 = frag_toks(g.fragment, off5(s, g));
    assert(tr == t1 + t2 + t3 + t4 + t5);
    let c1 = t1.len() as int;
    let c2 = c1 + t2.len();
    let c3 = c2 + t3.len();
    let c4 = c3 + t4.len();
    assert(r == p1 + p2 + span_text(s, g.path) + query_part(s, g) + fragment_part(s, g));
    assert forall|q: int| 0 <= q < p2.len() implies #[trigger] r[o2 + q] == p2[q] by {}
    match g.authority {
        Some(_) => {},
        None => {
            assert(c1 == 0 && c2 == 0 && i2 == 0);
            if c1 + 1 < tr.len() && tr[c1].kind is ForwardSlash {
                if t3.len() >= 2 {
                    assert(tr[0] == t3[0] && tr[1] == t3[1]);
                    assert(ts[0].span.start == 0 + lens_before(ts, 0));
                    assert(d == 0);
                    assert(tr[0].kind == ts[0].kind && tr[1].kind == ts[1].kind);
                    assert(i2 + 1 < ts.len());
                    assert(!(tr[1].kind is ForwardSlash));
                } else if t3.len() == 1 {
                    if t4.len() > 0 {
                        assert(tr[1] == t4[0]);
                    } else {
                        assert(tr[1] == t5[0]);
                    }
                    assert(!(tr[1].kind is ForwardSlash));
                } else {
                    if t4.len() > 0 {
                        assert(tr[0] == t4[0]);
                    } else {
                        assert(tr[0] == t5[0]);
                    }
                    assert(!(tr[0].kind is ForwardSlash));
                }
            }
        },
    }
}


/// The path phase on the rebuilt token list.
#[verifier::rlimit(100)]
#[verifier::spinoff_prover]
proof fn lemma_recon_path(s: Seq<char>, ts: Seq<TokenModel>, g: UriModel, i2: int, i3: int)
    requires
        tokens_ok(s, ts, 0),
        recon_facts(s, ts, g, i2, i3),
        tokens_ok(reconstruct(s, g), recon_toks(s, ts, g, i2, i3), 0),
    ensures
        path_phase(recon_toks(s, ts, g, i2, i3), cut2(s, g)) == (
            recon_model(s, g, i2, i3).path,
            cut3(s, g, i2, i3),
        ),
        span_text(reconstruct(s, g), recon_model(s, g, i2, i3).path) == span_text(s, g.path),
{
    let r = reconstruct(s, g);
    let tr = recon_toks(s, ts, g, i2, i3);
    let o2 = off2(s, g);
    let o3 = off3(s, g);
    let o4 = off4(s, g);
    let o5 = off5(s, g);
    let p3 = span_text(s, g.path);
    let t1 = scheme_toks(g.scheme);
    let t2 = match g.authority {
        Some(a) => authority_toks(a, o2),
        None => seq![],
    };
    let d = if i3 > i2 {
        o3 - ts[i2].span.start
    } else {
        0
    };
    let t3 = path_toks(ts, i2, i3, d);
    let t4 = query_toks(g.query, o4);
    let t5 = frag_toks(g.fragment, o5);
    assert(tr == t1 + t2 + t3 + t4 + t5);
    let c1 = t1.len() as int;
    let c2 = c1 + t2.len();
    let c3 = c2 + t3.len();
    let c4 = c3 + t4.len();
    assert(r == scheme_part(s, g) + authority_part(s, g) + p3 + query_part(s, g) + fragment_part(
        s,
        g,
    ));
    assert forall|q: int| 0 <= q < p3.len() implies #[trigger] r[o3 + q] == p3[q] by {}
    assert forall|j: int| c2 <= j < c3 implies is_path_token(#[trigger] tr[j]) by {
        assert(tr[j] == t3[j - c2]);
        assert(t3[j - c2] == shift_tok(ts[i2 + (j - c2)], d));
        assert(is_path_token(ts[i2 + (j - c2)]));
    }
    assert(c3 < tr.len() ==> !is_path_token(tr[c3])) by {
        if c3 < tr.len() {
            if t4.len() > 0 {
                assert(tr[c3] == t4[0]);
            } else {
                assert(tr[c3] == t5[0]);
            }
        }
    }
    assert(c3 <= tr.len());
    crate::parsing::lemma_path_run_exact(tr, c2, c3);
    if i3 > i2 {
        lemma_path_run(r, tr, c2);
        assert(tr[c2] == t3[0]);
        assert(tr[c2].span.start == o3);
        assert(tr[c3 - 1] == t3[t3.len() - 1]);
        assert(t3[t3.len() - 1] == shift_tok(ts[i3 - 1], d));
        assert(lens_before(ts, i3) == lens_before(ts, i3 - 1) + ts[i3 - 1].span.len);
        assert(ts[i3 - 1].span.start == 0 + lens_before(ts, i3 - 1));
        assert(tr[c3 - 1].span.start + tr[c3 - 1].span.len == o4);
        assert(path_run_len(tr, c2) == o4 - o3);
        assert(recon_model(s, g, i2, i3).path == (SpanModel { start: o3, len: g.path.len }));
        assert(span_text(r, recon_model(s, g, i2, i3).path) =~= span_text(s, g.path)) by {
            assert forall|q: int| 0 <= q < g.path.len implies r[o3 + q] == span_text(
                s,
                g.path,
            )[q] by {
                assert(r[o3 + q] == p3[q]);
            }
        }
    } else {
        assert(t3.len() == 0);
        assert(path_phase(tr, c2) == (SpanModel { start: 0, len: 0 }, c2));
        assert(span_text(r, recon_model(s, g, i2, i3).path) =~= span_text(s, g.path));
    }
}

/// The query phase on the rebuilt token list.
#[verifier::rlimit(100)]
#[verifier::spinoff_prover]
proof fn lemma_recon_query(s: Seq<char>, ts: Seq<TokenModel>, g: UriModel, i2: int, i3: int)
    requires
        tokens_ok(s, ts, 0),
        recon_facts(s, ts, g, i2, i3),
    ensures
        query_phase(recon_toks(s, ts, g, i2, i3), cut3(s, g, i2, i3)) == Ok::<
            (Option<SpanModel>, int),
            ErrorModel,
        >((recon_model(s, g, i2, i3).query, cut4(s, g, i2, i3))),
        match (g.query, recon_model(s, g, i2, i3).query) {
            (Some(q), Some(mq)) => span_text(reconstruct(s, g), mq) == span_text(s, q),
            (None, None) => true,
            _ => false,
        },
{
    let r = reconstruct(s, g);
    let tr = recon_toks(s, ts, g, i2, i3);
    let o2 = off2(s, g);
    let o3 = off3(s, g);
    let o4 = off4(s, g);
    let o5 = off5(s, g);
    let p3 = span_text(s, g.path);
    let t1 = scheme_toks(g.scheme);
    let t2 = match g.authority {
        Some(a) => authority_toks(a, o2),
        None => seq![],
    };
    let d = if i3 > i2 {
        o3 - ts[i2].span.start
    } else {
        0
    };
    let t3 = path_toks(ts, i2, i3, d);
    let t4 = query_toks(g.query, o4);
    let t5 = frag_toks(g.fragment, o5);
    assert(tr == t1 + t2 + t3 + t4 + t5);
    let c1 = t1.len() as int;
    let c2 = c1 + t2.len();
    let c3 = c2 + t3.len();
    let c4 = c3 + t4.len();
    assert(r == scheme_part(s, g) + authority_part(s, g) + p3 + query_part(s, g) + fragment_part(
        s,
        g,
    ));
    let p4 = query_part(s, g);
    assert forall|q: int| 0 <= q < p4.len() implies #[trigger] r[o4 + q] == p4[q] by {}
    match g.query {
        Some(qsp) => {
            assert(p4 == seq!['?'] + span_text(s, qsp));
            assert(tr[c3] == t4[0]);
            assert(tr[c3].kind is QuestionMark);
            if qsp.len > 0 {
                assert(tr[c3 + 1] == t4[1]);
                assert(t4[1] == ident_tok(o4 + 1, qsp.len));
                assert(query_scan(tr, c3 + 2) == Ok::<(int, int), ErrorModel>((0, c3 + 2))) by {
                    if c3 + 2 < tr.len() {
                        assert(tr[c3 + 2] == t5[0]);
                    }
                }
                assert(query_scan(tr, c3 + 1) == Ok::<(int, int), ErrorModel>((
                    qsp.len,
                    c3 + 2,
                )));
                assert(span_text(r, SpanModel { start: o4 + 1, len: qsp.len }) =~= span_text(
                    s,
                    qsp,
                )) by {
                    assert forall|q: int| 0 <= q < qsp.len implies r[o4 + 1 + q] == span_text(
                        s,
                        qsp,
                    )[q] by {
                        assert(r[o4 + (1 + q)] == p4[1 + q]);
                        assert(p4[1 + q] == span_text(s, qsp)[q]);
                    }
                }
            } else {
                assert(t4.len() == 1);
                assert(query_scan(tr, c3 + 1) == Ok::<(int, int), ErrorModel>((0, c3 + 1))) by {
                    if c3 + 1 < tr.len() {
                        assert(tr[c3 + 1] == t5[0]);
                    }
                }
                assert(recon_model(s, g, i2, i3).query->Some_0.len == 0);
                assert(span_text(r, recon_model(s, g, i2, i3).query->Some_0) =~= span_text(
                    s,
                    qsp,
                ));
                if c3 + 1 < tr.len() {
                    assert(tr[c3 + 1] == t5[0]);
                    assert(g.fragment is Some);
                    assert(tr[c3 + 1].span.start == o5);
                } else {
                    assert(g.fragment is None);
                }
            }
        },
        None => {
            assert(t4.len() == 0 && c4 == c3);
            if c3 < tr.len() {
                assert(tr[c3] == t5[0]);
                assert(!(tr[c3].kind is QuestionMark));
            }
        },
    }
}

/// The fragment phase on the rebuilt token list.
#[verifier::rlimit(100)]
#[verifier::spinoff_prover]
proof fn lemma_recon_fragment(s: Seq<char>, ts: Seq<TokenModel>, g: UriModel, i2: int, i3: int)
    requires
        tokens_ok(s, ts, 0),
        recon_facts(s, ts, g, i2, i3),
    ensures
        fragment_phase(recon_toks(s, ts, g, i2, i3), cut4(s, g, i2, i3)) is Ok,
        fragment_phase(recon_toks(s, ts, g, i2, i3), cut4(s, g, i2, i3))->Ok_0.0 == recon_model(
            s,
            g,
            i2,
            i3,
        ).fragment,
        match (g.fragment, recon_model(s, g, i2, i3).fragment) {
            (Some(f), Some(mf)) => span_text(reconstruct(s, g), mf) == span_text(s, f),
            (None, None) => true,
            _ => false,
        },
{
    let r = reconstruct(s, g);
    let tr = recon_toks(s, ts, g, i2, i3);
    let o2 = off2(s, g);
    let o3 = off3(s, g);
    let o4 = off4(s, g);
    let o5 = off5(s, g);
    let p3 = span_text(s, g.path);
    let t1 = scheme_toks(g.scheme);
    let t2 = match g.authority {
        Some(a) => authority_toks(a, o2),
        None => seq![],
    };
    let d = if i3 > i2 {
        o3 - ts[i2].span.start
    } else {
        0
    };
    let t3 = path_toks(ts, i2, i3, d);
    let t4 = query_toks(g.query, o4);
    let t5 = frag_toks(g.fragment, o5);
    assert(tr == t1 + t2 + t3 + t4 + t5);
    let c1 = t1.len() as int;
    let c2 = c1 + t2.len();
    let c3 = c2 + t3.len();
    let c4 = c3 + t4.len();
    assert(r == scheme_part(s, g) + authority_part(s, g) + p3 + query_part(s, g) + fragment_part(
        s,
        g,
    ));
    let p5 = fragment_part(s, g);
    assert forall|q: int| 0 <= q < p5.len() implies #[trigger] r[o5 + q] == p5[q] by {}
    let c5 = c4 + t5.len();
    assert(tr.len() == c5);
    match g.fragment {
        Some(fsp) => {
            assert(p5 == seq!['#'] + span_text(s, fsp));
            assert(tr[c4] == t5[0]);
            assert(tr[c4 + 1] == t5[1]);
            assert(t5[1] == ident_tok(o5 + 1, fsp.len));
            assert(fragment_phase(tr, c4) == Ok::<(Option<SpanModel>, int), ErrorModel>((
                Some(SpanModel { start: o5 + 1, len: fsp.len }),
                c4 + 2,
            )));
            assert(span_text(r, SpanModel { start: o5 + 1, len: fsp.len }) =~= span_text(
                s,
                fsp,
            )) by {
                assert forall|q: int| 0 <= q < fsp.len implies r[o5 + 1 + q] == span_text(
                    s,
                    fsp,
                )[q] by {
                    assert(r[o5 + (1 + q)] == p5[1 + q]);
                    assert(p5[1 + q] == span_text(s, fsp)[q]);
                }
            }
        },
        None => {
            assert(t5.len() == 0);
            assert(c4 == tr.len());
        },
    }
}

/// The rebuilt URI string is already case-folded.
proof fn lemma_fold_fixed_recon(s: Seq<char>, ts: Seq<TokenModel>, g: UriModel, i2: int, i3: int)
    requires
        fold_seq(s) == s,
        recon_facts(s, ts, g, i2, i3),
    ensures
        fold_seq(reconstruct(s, g)) == reconstruct(s, g),
{
    let p1 = scheme_part(s, g);
    let p2 = authority_part(s, g);
    let p3 = span_text(s, g.path);
    let p4 = query_part(s, g);
    let p5 = fragment_part(s, g);
    assert(fold_seq(seq![':']) =~= seq![':']);
    assert(fold_seq(seq!['/', '/']) =~= seq!['/', '/']);
    assert(fold_seq(seq!['@']) =~= seq!['@']);
    assert(fold_seq(seq!['?']) =~= seq!['?']);
    assert(fold_seq(seq!['#']) =~= seq!['#']);
    assert(fold_seq(p1) == p1) by {
        match g.scheme {
            Some(sp) => {
                lemma_fold_fixed_span(s, sp);
                lemma_fold_concat(span_text(s, sp), seq![':']);
            },
            None => {
                assert(fold_seq(p1) =~= p1);
            },
        }
    }
    assert(fold_seq(p2) == p2) by {
        match g.authority {
            Some(a) => {
                let uip = userinfo_part(s, a);
                let pp = port_part(s, a);
                assert(fold_seq(uip) == uip) by {
                    match a.userinfo {
                        Some(u) => {
                            lemma_fold_fixed_span(s, u);
                            lemma_fold_concat(span_text(s, u), seq!['@']);
                        },
                        None => {
                            assert(fold_seq(uip) =~= uip);
                        },
                    }
                }
                assert(fold_seq(pp) == pp) by {
                    match a.port {
                        Some(pt) => {
                            lemma_fold_fixed_span(s, pt);
                            lemma_fold_concat(seq![':'], span_text(s, pt));
                        },
                        None => {
                            assert(fold_seq(pp) =~= pp);
                        },
                    }
                }
                lemma_fold_fixed_span(s, a.host);
                lemma_fold_concat(seq!['/', '/'], uip);
                lemma_fold_concat(seq!['/', '/'] + uip, span_text(s, a.host));
                lemma_fold_concat(seq!['/', '/'] + uip + span_text(s, a.host), pp);
            },
            None => {
                assert(fold_seq(p2) =~= p2);
            },
        }
    }
    assert(fold_seq(p3) == p3) by {
        if i3 > i2 {
            lemma_fold_fixed_span(s, g.path);
        } else {
            assert(g.path == (SpanModel { start: 0, len: 0 }));
            lemma_fold_fixed_span(s, g.path);
        }
    }
    assert(fold_seq(p4) == p4) by {
        match g.query {
            Some(q) => {
                lemma_fold_fixed_span(s, q);
                lemma_fold_concat(seq!['?'], span_text(s, q));
            },
            None => {
                assert(fold_seq(p4) =~= p4);
            },
        }
    }
    assert(fold_seq(p5) == p5) by {
        match g.fragment {
            Some(f) => {
                lemma_fold_fixed_span(s, f);
                lemma_fold_concat(seq!['#'], span_text(s, f));
            },
            None => {
                assert(fold_seq(p5) =~= p5);
            },
        }
    }
    lemma_fold_concat(p1, p2);
    lemma_fold_concat(p1 + p2, p3);
    lemma_fold_concat(p1 + p2 + p3, p4);
    lemma_fold_concat(p1 + p2 + p3 + p4, p5);
}

/// Parsing the canonical token list of the rebuilt URI string yields the
/// same components, with spans moved to their rebuilt places.
#[verifier::rlimit(100)]
#[verifier::spinoff_prover]
proof fn lemma_recon_parse(s: Seq<char>, ts: Seq<TokenModel>, g: UriModel, i2: int, i3: int)
    requires
        tokens_ok(s, ts, 0),
        recon_facts(s, ts, g, i2, i3),
        recon_checks(s, ts, g, i2),
        tokens_ok(reconstruct(s, g), recon_toks(s, ts, g, i2, i3), 0),
    ensures
        parse_tokens(reconstruct(s, g), recon_toks(s, ts, g, i2, i3)) == Ok::<
            UriModel,
            ErrorModel,
        >(recon_model(s, g, i2, i3)),
        components_equal(s, g, reconstruct(s, g), recon_model(s, g, i2, i3)),
{
    let r = reconstruct(s, g);
    let tr = recon_toks(s, ts, g, i2, i3);
    let m = recon_model(s, g, i2, i3);
    lemma_recon_scheme(s, ts, g, i2, i3);
    if g.authority is Some {
        lemma_recon_authority_some(s, ts, g, i2, i3);
    } else {
        lemma_recon_authority_none(s, ts, g, i2, i3);
    }
    lemma_recon_path(s, ts, g, i2, i3);
    lemma_recon_query(s, ts, g, i2, i3);
    lemma_recon_fragment(s, ts, g, i2, i3);
    assert(!(m.scheme is Some && m.authority is None));
    assert(parse_tokens(r, tr) == Ok::<UriModel, ErrorModel>(
        UriModel {
            scheme: m.scheme,
            authority: m.authority,
            path: m.path,
            query: m.query,
            fragment: m.fragment,
        },
    ));
    assert((UriModel {
        scheme: m.scheme,
        authority: m.authority,
        path: m.path,
        query: m.query,
        fragment: m.fragment,
    }) =~= m);
}

/// The library's central law: parse a URI, read its components back,
/// concatenate them into a same-shaped URI string, and parse again — the
/// result has exactly the same components.  No information is invented or
/// dropped on the second pass.
///
/// `s` is the case-folded text the first parse ran on; the rebuilt string
/// is already folded, so the second parse sees it unchanged.
pub proof fn lemma_reparse_components(s: Seq<char>, g: UriModel)
    requires
        fold_seq(s) == s,
        parse_uri(s) == Ok::<UriModel, ErrorModel>(g),
    ensures
        fold_seq(reconstruct(s, g)) == reconstruct(s, g),
        parse_uri(reconstruct(s, g)) matches Ok(g2) && components_equal(
            s,
            g,
            reconstruct(s, g),
            g2,
        ),
{
    let ts = lex_from(s, 0)->Toks_0;
    assert(lex_from(s, 0) is Toks);
    lemma_lex_tokens_ok(s, 0, ts);
    let sr = scheme_phase(s, ts);
    assert(sr is Ok);
    let i1 = sr->Ok_0.1;
    let ar = authority_phase(s, ts, i1);
    assert(ar is Ok);
    let i2 = ar->Ok_0.1;
    let pp = path_phase(ts, i2);
    let i3 = pp.1;
    let qr = query_phase(ts, i3);
    assert(qr is Ok);
    let i4 = qr->Ok_0.1;
    let fr = fragment_phase(ts, i4);
    assert(fr is Ok);
    assert(g == (UriModel {
        scheme: sr->Ok_0.0,
        authority: ar->Ok_0.0,
        path: pp.0,
        query: qr->Ok_0.0,
        fragment: fr->Ok_0.0,
    }));
    assert(parsed_with(s, ts, g, i1, i2, i3, i4));
    lemma_parse_facts(s, ts, g, i1, i2, i3, i4);
    lemma_fold_fixed_recon(s, ts, g, i2, i3);
    lemma_recon_lex(s, ts, g, i2, i3);
    let r = reconstruct(s, g);
    let tr = recon_toks(s, ts, g, i2, i3);
    lemma_lex_tokens_ok(r, 0, tr);
    lemma_recon_parse(s, ts, g, i2, i3);
    assert(parse_uri(r) == Ok::<UriModel, ErrorModel>(recon_model(s, g, i2, i3)));
}

/// The same law, phrased against the library pipeline, which case-folds
/// every input before parsing: re-parsing the rebuilt component string
/// through the pipeline gives component-equal results.
pub proof fn lemma_reparse_after_parse(input: Seq<char>, g: UriModel)
    requires
        parse_uri(fold_seq(input)) == Ok::<UriModel, ErrorModel>(g),
    ensures
        ({
            let s = fold_seq(input);
            parse_uri(fold_seq(reconstruct(s, g))) matches Ok(g2) && components_equal(
                s,
                g,
                reconstruct(s, g),
                g2,
            )
        }),
{
    lemma_fold_idempotent(input);
    lemma_reparse_components(fold_seq(input), g);
}
} // verus!
