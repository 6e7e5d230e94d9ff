//! Mathematical model of URIs: span positions as unbounded integers,
//! token and component shapes, and the character classes the grammar uses.
use vstd::prelude::*;

verus! {

/// A half-open range `[start, start + len)` of character positions in the input.
#[verifier::ext_equal]
pub struct SpanModel {
    pub start: int,
    pub len: int,
}

/// Token classification; an identifier carries the span of its character run.
pub enum KindModel {
    Colon,
    ForwardSlash,
    QuestionMark,
    PoundSign,
    At,
    Ident(SpanModel),
    Other(char),
}

/// A classified token together with the exact extent it covers.
#[verifier::ext_equal]
pub struct TokenModel {
    pub kind: KindModel,
    pub span: SpanModel,
}

/// The `userinfo@host:port` component of a URI.
#[verifier::ext_equal]
pub struct AuthorityModel {
    pub userinfo: Option<SpanModel>,
    pub host: SpanModel,
    pub port: Option<SpanModel>,
}

/// A parsed URI: spans index into the case-folded input text.
#[verifier::ext_equal]
pub struct UriModel {
    pub scheme: Option<SpanModel>,
    pub authority: Option<AuthorityModel>,
    pub path: SpanModel,
    pub query: Option<SpanModel>,
    pub fragment: Option<SpanModel>,
}

/// Everything that can go wrong while parsing.
pub enum ErrorModel {
    InvalidSchemeCharacters,
    InvalidHostCharacters,
    InvalidPort,
    MissingHost,
    SchemeWithoutAuthority,
    UnexpectedToken(KindModel, int),
}

/// ASCII case folding of a single character: `A`..`Z` map to `a`..`z`,
/// every other character is unchanged.
pub open spec fn fold_char(c: char) -> char {
    if 'A' <= c && c <= 'Z' {
        (((c as u32) + 32) as u8) as char
    } else {
        c
    }
}

/// ASCII case folding of a whole character sequence.
pub open spec fn fold_seq(s: Seq<char>) -> Seq<char> {
    Seq::new(s.len(), |i: int| fold_char(s[i]))
}

/// The text a span selects out of the input.
pub open spec fn span_text(s: Seq<char>, sp: SpanModel) -> Seq<char> {
    s.subrange(sp.start, sp.start + sp.len)
}

/// The span lies inside the input.
pub open spec fn span_in(s: Seq<char>, sp: SpanModel) -> bool {
    0 <= sp.start && 0 <= sp.len && sp.start + sp.len <= s.len()
}

pub open spec fn is_ascii_alpha(c: char) -> bool {
    ('a' <= c && c <= 'z') || ('A' <= c && c <= 'Z')
}

pub open spec fn is_ascii_digit(c: char) -> bool {
    '0' <= c && c <= '9'
}

pub open spec fn is_ascii_alphanumeric(c: char) -> bool {
    is_ascii_alpha(c) || is_ascii_digit(c)
}

/// Characters allowed in a scheme.
pub open spec fn is_scheme_char(c: char) -> bool {
    is_ascii_alpha(c) || c == '+' || c == '-' || c == '.'
}

/// Characters allowed in a host.
pub open spec fn is_host_char(c: char) -> bool {
    is_ascii_alphanumeric(c) || c == '-' || c == '.'
}

pub open spec fn valid_scheme_text(t: Seq<char>) -> bool {
    forall|i: int| 0 <= i < t.len() ==> is_scheme_char(#[trigger] t[i])
}

pub open spec fn valid_host_text(t: Seq<char>) -> bool {
    forall|i: int| 0 <= i < t.len() ==> is_host_char(#[trigger] t[i])
}

pub open spec fn all_digits(t: Seq<char>) -> bool {
    forall|i: int| 0 <= i < t.len() ==> is_ascii_digit(#[trigger] t[i])
}

pub open spec fn digit_val(c: char) -> int {
    c as u32 - '0' as u32
}

/// The value of a run of decimal digits, most significant first.
pub open spec fn digits_value(t: Seq<char>) -> int
    decreases t.len(),
{
    if t.len() == 0 {
        0
    } else {
        digits_value(t.drop_last()) * 10 + digit_val(t.last())
    }
}

/// A port is valid when it is all decimal digits and fits in sixteen bits.
pub open spec fn valid_port_text(t: Seq<char>) -> bool {
    all_digits(t) && digits_value(t) <= 65535
}


/// The value of a digit run is never negative.
pub proof fn lemma_digits_value_nonneg(t: Seq<char>)
    requires
        all_digits(t),
    ensures
        digits_value(t) >= 0,
    decreases t.len(),
{
    if t.len() > 0 {
        assert(all_digits(t.drop_last()));
        lemma_digits_value_nonneg(t.drop_last());
        assert(is_ascii_digit(t.last()));
    }
}

/// Reading further digits can only grow the value.
pub proof fn lemma_digits_value_mono(t: Seq<char>, m: int)
    requires
        all_digits(t),
        0 <= m <= t.len(),
    ensures
        digits_value(t) >= digits_value(t.take(m)),
    decreases t.len() - m,
{
    if m == t.len() {
        assert(t.take(m) =~= t);
    } else {
        assert(t.take(m + 1).drop_last() =~= t.take(m));
        assert(all_digits(t.take(m)));
        lemma_digits_value_nonneg(t.take(m));
        assert(is_ascii_digit(t[m]));
        assert(t.take(m + 1).last() == t[m]);
        assert(digits_value(t.take(m + 1)) >= digits_value(t.take(m)));
        lemma_digits_value_mono(t, m + 1);
    }
}


/// The authority's spans lie inside the text, and the remembered port
/// value (kept beside the model) is the number its digits spell.
pub open spec fn authority_ok(s: Seq<char>, m: AuthorityModel, port_value: Option<u16>) -> bool {
    &&& match m.userinfo {
        Some(sp) => span_in(s, sp),
        None => true,
    }
    &&& span_in(s, m.host)
    &&& match (m.port, port_value) {
        (Some(sp), Some(v)) => span_in(s, sp) && valid_port_text(span_text(s, sp)) && v
            == digits_value(span_text(s, sp)),
        (None, None) => true,
        _ => false,
    }
}
} // verus!
