//! Shared grammar primitives: parse errors, byte classifiers, and the small
//! scanners (skip a class, match a literal, find a literal) that both the XML
//! parser and the path parser are built from.
//!
//! Every executable scanner is specified against a recursive spec function
//! over the input's byte sequence, so the higher parsers can be stated and
//! proved purely over `Seq<u8>`.

use vstd::prelude::*;

verus! {

/// Why a parse failed: the input ended where more bytes could have extended a
/// valid match, or the grammar was violated at the given byte offset.
#[derive(Debug, PartialEq, Eq, Structural, Clone, Copy)]
pub enum ParseError {
    Incomplete,
    Invalid(usize),
}

/// Mathematical outcome of a parser: a value with the position just past it,
/// or one of the two failures.
pub enum PRes<T> {
    Val(T, int),
    Incomplete,
    Invalid(int),
}

/// The outcome of an executable parser, lifted to its mathematical shadow.
pub open spec fn res_view<T: DeepView>(r: Result<(T, usize), ParseError>) -> PRes<<T as DeepView>::V> {
    match r {
        Ok((v, j)) => PRes::Val(v.deep_view(), j as int),
        Err(ParseError::Incomplete) => PRes::Incomplete,
        Err(ParseError::Invalid(p)) => PRes::Invalid(p as int),
    }
}

/// The outcome of an executable matcher that returns only a position.
pub open spec fn pos_res_view(r: Result<usize, ParseError>) -> PRes<()> {
    match r {
        Ok(j) => PRes::Val((), j as int),
        Err(ParseError::Incomplete) => PRes::Incomplete,
        Err(ParseError::Invalid(p)) => PRes::Invalid(p as int),
    }
}

// ---------------------------------------------------------------------------
// Byte classifiers.
// ---------------------------------------------------------------------------

/// Whitespace: space, tab, carriage return, line feed.
pub open spec fn spec_is_ws(c: u8) -> bool {
    c == 32 || c == 9 || c == 13 || c == 10
}

/// Inline whitespace only: space, tab.
pub open spec fn spec_is_sp(c: u8) -> bool {
    c == 32 || c == 9
}

pub open spec fn spec_is_digit(c: u8) -> bool {
    48 <= c <= 57
}

pub open spec fn spec_is_alpha(c: u8) -> bool {
    (65 <= c <= 90) || (97 <= c <= 122)
}

pub open spec fn spec_is_alnum(c: u8) -> bool {
    spec_is_alpha(c) || spec_is_digit(c)
}

/// First byte of an XML name: a letter, `_` or `:`.
pub open spec fn spec_is_name_start(c: u8) -> bool {
    spec_is_alpha(c) || c == 95 || c == 58
}

/// Later byte of an XML name: alphanumeric or `.`, `-`, `_`, `:`.
pub open spec fn spec_is_name_char(c: u8) -> bool {
    spec_is_alnum(c) || c == 46 || c == 45 || c == 95 || c == 58
}

/// Byte of an encoding name: alphanumeric or `.`, `-`, `_`.
pub open spec fn spec_is_enc_char(c: u8) -> bool {
    spec_is_alnum(c) || c == 46 || c == 45 || c == 95
}

/// Byte of a version token: alphanumeric or `.`, `-`, `_`, `:`.
pub open spec fn spec_is_version_char(c: u8) -> bool {
    spec_is_alnum(c) || c == 46 || c == 45 || c == 95 || c == 58
}

/// Byte that may occur in a numeric literal token: digit, `.`, `-`, `e`.
pub open spec fn spec_is_num_char(c: u8) -> bool {
    spec_is_digit(c) || c == 46 || c == 45 || c == 101
}

pub fn is_ws(c: u8) -> (r: bool)
    ensures
        r == spec_is_ws(c),
{
    c == 32 || c == 9 || c == 13 || c == 10
}

pub fn is_sp(c: u8) -> (r: bool)
    ensures
        r == spec_is_sp(c),
{
    c == 32 || c == 9
}

pub fn is_digit(c: u8) -> (r: bool)
    ensures
        r == spec_is_digit(c),
{
    48 <= c && c <= 57
}

pub fn is_alpha(c: u8) -> (r: bool)
    ensures
        r == spec_is_alpha(c),
{
    (65 <= c && c <= 90) || (97 <= c && c <= 122)
}

pub fn is_name_start(c: u8) -> (r: bool)
    ensures
        r == spec_is_name_start(c),
{
    is_alpha(c) || c == 95 || c == 58
}

pub fn is_name_char(c: u8) -> (r: bool)
    ensures
        r == spec_is_name_char(c),
{
    is_alpha(c) || is_digit(c) || c == 46 || c == 45 || c == 95 || c == 58
}

pub fn is_enc_char(c: u8) -> (r: bool)
    ensures
        r == spec_is_enc_char(c),
{
    is_alpha(c) || is_digit(c) || c == 46 || c == 45 || c == 95
}

pub fn is_version_char(c: u8) -> (r: bool)
    ensures
        r == spec_is_version_char(c),
{
    is_alpha(c) || is_digit(c) || c == 46 || c == 45 || c == 95 || c == 58
}

pub fn is_num_char(c: u8) -> (r: bool)
    ensures
        r == spec_is_num_char(c),
{
    is_digit(c) || c == 46 || c == 45 || c == 101
}

// ---------------------------------------------------------------------------
// Generic scanners.
// ---------------------------------------------------------------------------

/// First position at or after `i` whose byte fails `p` (or the end of input).
pub open spec fn spec_skip_while(s: Seq<u8>, i: int, p: spec_fn(u8) -> bool) -> int
    decreases s.len() - i
        when 0 <= i <= s.len()
{
    if i < s.len() && p(s[i]) {
        spec_skip_while(s, i + 1, p)
    } else {
        i
    }
}

pub proof fn lemma_skip_while_bounds(s: Seq<u8>, i: int, p: spec_fn(u8) -> bool)
    requires
        0 <= i <= s.len(),
    ensures
        i <= spec_skip_while(s, i, p) <= s.len(),
        forall|k: int| i <= k < spec_skip_while(s, i, p) ==> p(s[k]),
        spec_skip_while(s, i, p) < s.len() ==> !p(s[spec_skip_while(s, i, p)]),
    decreases s.len() - i,
{
    if i < s.len() && p(s[i]) {
        lemma_skip_while_bounds(s, i + 1, p);
    }
}

/// The whitespace class, as a predicate value shared by every use site.
pub open spec fn ws_pred() -> spec_fn(u8) -> bool {
    |c: u8| spec_is_ws(c)
}

/// The inline-whitespace class.
pub open spec fn sp_pred() -> spec_fn(u8) -> bool {
    |c: u8| spec_is_sp(c)
}

/// The XML name-character class.
pub open spec fn name_char_pred() -> spec_fn(u8) -> bool {
    |c: u8| spec_is_name_char(c)
}

/// The numeric-literal character class.
pub open spec fn num_char_pred() -> spec_fn(u8) -> bool {
    |c: u8| spec_is_num_char(c)
}

/// Every byte except `q`.
pub open spec fn not_byte_pred(q: u8) -> spec_fn(u8) -> bool {
    |c: u8| c != q
}

/// Position after the run of whitespace starting at `i`.
pub open spec fn spec_sws(s: Seq<u8>, i: int) -> int {
    spec_skip_while(s, i, ws_pred())
}

/// Skip whitespace (space, tab, carriage return, line feed).
pub fn skip_ws(s: &[u8], i: usize) -> (j: usize)
    requires
        i <= s@.len(),
    ensures
        j as int == spec_sws(s@, i as int),
        i <= j <= s@.len(),
{
    let mut j: usize = i;
    while j < s.len() && is_ws(s[j])
        invariant
            i <= j <= s@.len(),
            spec_sws(s@, i as int) == spec_skip_while(s@, j as int, ws_pred()),
        decreases s@.len() - j,
    {
        proof {
            assert(ws_pred()(s@[j as int]));
            assert(spec_skip_while(s@, j as int, ws_pred()) == spec_skip_while(
                s@,
                j + 1 as int,
                ws_pred(),
            ));
        }
        j = j + 1;
    }
    proof {
        if j < s@.len() {
            assert(!ws_pred()(s@[j as int]));
        }
        assert(spec_skip_while(s@, j as int, ws_pred()) == j);
    }
    j
}

/// Skip inline whitespace (space, tab) only.
pub fn skip_sp(s: &[u8], i: usize) -> (j: usize)
    requires
        i <= s@.len(),
    ensures
        j as int == spec_skip_while(s@, i as int, sp_pred()),
        i <= j <= s@.len(),
{
    let mut j: usize = i;
    while j < s.len() && is_sp(s[j])
        invariant
            i <= j <= s@.len(),
            spec_skip_while(s@, i as int, sp_pred()) == spec_skip_while(s@, j as int, sp_pred()),
        decreases s@.len() - j,
    {
        proof {
            assert(sp_pred()(s@[j as int]));
            assert(spec_skip_while(s@, j as int, sp_pred()) == spec_skip_while(
                s@,
                j + 1 as int,
                sp_pred(),
            ));
        }
        j = j + 1;
    }
    proof {
        if j < s@.len() {
            assert(!sp_pred()(s@[j as int]));
        }
        assert(spec_skip_while(s@, j as int, sp_pred()) == j);
    }
    j
}

/// Byte-vector equality, decided executably.
pub fn vec_u8_eq(a: &Vec<u8>, b: &Vec<u8>) -> (r: bool)
    ensures
        r == (a@ == b@),
{
    if a.len() != b.len() {
        return false;
    }
    let mut k: usize = 0;
    while k < a.len()
        invariant
            a@.len() == b@.len(),
            k <= a@.len(),
            forall|m: int| 0 <= m < k ==> a@[m] == b@[m],
        decreases a@.len() - k,
    {
        if a[k] != b[k] {
            return false;
        }
        k = k + 1;
    }
    proof {
        assert(a@ =~= b@);
    }
    true
}

/// For byte vectors the deep view and the view coincide.
pub broadcast proof fn lemma_vec_u8_deep_view(v: Vec<u8>)
    ensures
        #[trigger] v.deep_view() == v@,
{
    assert(v.deep_view() =~= v@);
}

/// Positions bookkeeping: a parser's success position never moves backwards
/// nor past the end of input.
pub open spec fn ok_in_bounds<T>(r: Result<(T, usize), ParseError>, i: int, n: int) -> bool {
    match r {
        Ok((_, j)) => i <= j <= n,
        Err(_) => true,
    }
}

/// Match a single byte at `i`.
pub open spec fn spec_expect_byte(s: Seq<u8>, i: int, b: u8) -> PRes<()> {
    if i >= s.len() {
        PRes::Incomplete
    } else if s[i] == b {
        PRes::Val((), i + 1)
    } else {
        PRes::Invalid(i)
    }
}

/// Executable form of `spec_expect_byte`.
pub fn expect_byte(s: &[u8], i: usize, b: u8) -> (r: Result<usize, ParseError>)
    requires
        i <= s@.len(),
    ensures
        pos_res_view(r) == spec_expect_byte(s@, i as int, b),
        r matches Ok(j) ==> i < j <= s@.len(),
{
    if i >= s.len() {
        Err(ParseError::Incomplete)
    } else if s[i] == b {
        Ok(i + 1)
    } else {
        Err(ParseError::Invalid(i))
    }
}

/// When every byte from `i` on matches, the skip runs to the end of input.
pub proof fn lemma_skip_while_all(s: Seq<u8>, i: int, p: spec_fn(u8) -> bool)
    requires
        0 <= i <= s.len(),
        forall|k: int| i <= k < s.len() ==> p(s[k]),
    ensures
        spec_skip_while(s, i, p) == s.len(),
    decreases s.len() - i,
{
    if i < s.len() {
        lemma_skip_while_all(s, i + 1, p);
    }
}

/// Whether the literal `tok` occurs in `s` starting exactly at `i`.
pub open spec fn spec_match_at(s: Seq<u8>, i: int, tok: Seq<u8>) -> bool {
    0 <= i && i + tok.len() <= s.len() && s.subrange(i, i + tok.len()) == tok
}

/// Position of the first occurrence of `tok` at or after `i`, if any.
pub open spec fn spec_find_from(s: Seq<u8>, i: int, tok: Seq<u8>) -> Option<int>
    decreases s.len() - i
        when 0 <= i <= s.len() && tok.len() > 0
{
    if i + tok.len() > s.len() {
        None
    } else if spec_match_at(s, i, tok) {
        Some(i)
    } else {
        spec_find_from(s, i + 1, tok)
    }
}

pub proof fn lemma_find_from_bounds(s: Seq<u8>, i: int, tok: Seq<u8>)
    requires
        0 <= i <= s.len(),
        tok.len() > 0,
    ensures
        match spec_find_from(s, i, tok) {
            Some(k) => i <= k && k + tok.len() <= s.len() && spec_match_at(s, k, tok),
            None => true,
        },
    decreases s.len() - i,
{
    if i + tok.len() > s.len() {
    } else if spec_match_at(s, i, tok) {
    } else {
        lemma_find_from_bounds(s, i + 1, tok);
    }
}

/// Executable test for `spec_match_at`.
pub fn match_at(s: &[u8], i: usize, tok: &Vec<u8>) -> (r: bool)
    requires
        i <= s@.len(),
    ensures
        r == spec_match_at(s@, i as int, tok@),
{
    if tok.len() > s.len() - i {
        return false;
    }
    let mut k: usize = 0;
    while k < tok.len()
        invariant
            i + tok@.len() <= s@.len(),
            s@.len() <= usize::MAX,
            k <= tok@.len(),
            forall|m: int| 0 <= m < k ==> s@[i + m] == tok@[m],
        decreases tok@.len() - k,
    {
        if s[i + k] != tok[k] {
            proof {
                assert(s@.subrange(i as int, i + tok@.len())[k as int] != tok@[k as int]);
            }
            return false;
        }
        k = k + 1;
    }
    proof {
        assert(s@.subrange(i as int, i + tok@.len()) =~= tok@);
    }
    true
}

/// Executable search for `spec_find_from`.
pub fn find_from(s: &[u8], i: usize, tok: &Vec<u8>) -> (r: Option<usize>)
    requires
        i <= s@.len(),
        tok@.len() > 0,
    ensures
        match r {
            Some(k) => spec_find_from(s@, i as int, tok@) == Some(k as int),
            None => spec_find_from(s@, i as int, tok@) is None,
        },
{
    let mut j: usize = i;
    while tok.len() <= s.len() - j
        invariant
            i <= j <= s@.len(),
            tok@.len() > 0,
            spec_find_from(s@, i as int, tok@) == spec_find_from(s@, j as int, tok@),
        decreases s@.len() - j,
    {
        if match_at(s, j, tok) {
            return Some(j);
        }
        j = j + 1;
    }
    None
}

/// Match a literal at `i`: past-the-end position on success, `Incomplete` when
/// the input ends first, `Invalid(i)` on a mismatch.
pub open spec fn spec_expect(s: Seq<u8>, i: int, tok: Seq<u8>) -> PRes<()> {
    if i + tok.len() > s.len() {
        PRes::Incomplete
    } else if spec_match_at(s, i, tok) {
        PRes::Val((), i + tok.len())
    } else {
        PRes::Invalid(i)
    }
}

/// Executable form of `spec_expect`.
pub fn expect_lit(s: &[u8], i: usize, tok: &Vec<u8>) -> (r: Result<usize, ParseError>)
    requires
        i <= s@.len(),
    ensures
        pos_res_view(r) == spec_expect(s@, i as int, tok@),
        r matches Ok(j) ==> i <= j <= s@.len(),
{
    if tok.len() > s.len() - i {
        Err(ParseError::Incomplete)
    } else if match_at(s, i, tok) {
        Ok(i + tok.len())
    } else {
        Err(ParseError::Invalid(i))
    }
}

/// The fixed literals of the XML and SVG grammars.
#[derive(Debug, PartialEq, Eq, Structural, Clone, Copy)]
pub enum Kw {
    /// `<?xml`
    XmlOpen,
    /// `?>`
    XmlClose,
    /// `version`
    Version,
    /// `encoding`
    Encoding,
    /// `standalone`
    Standalone,
    /// `yes`
    Yes,
    /// `no`
    No,
    /// `<!DOCTYPE\u{20}`
    DoctypeOpen,
    /// `<!--`
    CommentOpen,
    /// `--`
    DashDash,
    /// `-->`
    CommentClose,
    /// `<![CDATA[`
    CdataOpen,
    /// `]]>`
    CdataClose,
    /// `</`
    CloseTag,
    /// `/>`
    EmptyClose,
    /// `quot`
    EntQuot,
    /// `amp`
    EntAmp,
    /// `apos`
    EntApos,
    /// `lt`
    EntLt,
    /// `gt`
    EntGt,
    /// `svg`
    Svg,
    /// `g`
    GroupTag,
    /// `path`
    PathTag,
    /// `d`
    DName,
    /// `transform`
    Transform,
    /// `translate(`
    TranslateOpen,
    /// `UTF-8`
    Utf8,
}

/// The byte sequence of a grammar literal.
pub open spec fn kw_seq(k: Kw) -> Seq<u8> {
    match k {
        Kw::XmlOpen => seq![60u8, 63u8, 120u8, 109u8, 108u8],
        Kw::XmlClose => seq![63u8, 62u8],
        Kw::Version => seq![118u8, 101u8, 114u8, 115u8, 105u8, 111u8, 110u8],
        Kw::Encoding => seq![101u8, 110u8, 99u8, 111u8, 100u8, 105u8, 110u8, 103u8],
        Kw::Standalone => seq![115u8, 116u8, 97u8, 110u8, 100u8, 97u8, 108u8, 111u8, 110u8, 101u8],
        Kw::Yes => seq![121u8, 101u8, 115u8],
        Kw::No => seq![110u8, 111u8],
        Kw::DoctypeOpen => seq![60u8, 33u8, 68u8, 79u8, 67u8, 84u8, 89u8, 80u8, 69u8, 32u8],
        Kw::CommentOpen => seq![60u8, 33u8, 45u8, 45u8],
        Kw::DashDash => seq![45u8, 45u8],
        Kw::CommentClose => seq![45u8, 45u8, 62u8],
        Kw::CdataOpen => seq![60u8, 33u8, 91u8, 67u8, 68u8, 65u8, 84u8, 65u8, 91u8],
        Kw::CdataClose => seq![93u8, 93u8, 62u8],
        Kw::CloseTag => seq![60u8, 47u8],
        Kw::EmptyClose => seq![47u8, 62u8],
        Kw::EntQuot => seq![113u8, 117u8, 111u8, 116u8],
        Kw::EntAmp => seq![97u8, 109u8, 112u8],
        Kw::EntApos => seq![97u8, 112u8, 111u8, 115u8],
        Kw::EntLt => seq![108u8, 116u8],
        Kw::EntGt => seq![103u8, 116u8],
        Kw::Svg => seq![115u8, 118u8, 103u8],
        Kw::GroupTag => seq![103u8],
        Kw::PathTag => seq![112u8, 97u8, 116u8, 104u8],
        Kw::DName => seq![100u8],
        Kw::Transform => seq![116u8, 114u8, 97u8, 110u8, 115u8, 102u8, 111u8, 114u8, 109u8],
        Kw::TranslateOpen => seq![116u8, 114u8, 97u8, 110u8, 115u8, 108u8, 97u8, 116u8, 101u8, 40u8],
        Kw::Utf8 => seq![85u8, 84u8, 70u8, 45u8, 56u8],
    }
}

/// The byte sequence of a grammar literal, as executable data.
pub fn kw_bytes(k: Kw) -> (v: Vec<u8>)
    ensures
        v@ == kw_seq(k),
{
    let v: Vec<u8> = match k {
        Kw::XmlOpen => vec![60u8, 63u8, 120u8, 109u8, 108u8],
        Kw::XmlClose => vec![63u8, 62u8],
        Kw::Version => vec![118u8, 101u8, 114u8, 115u8, 105u8, 111u8, 110u8],
        Kw::Encoding => vec![101u8, 110u8, 99u8, 111u8, 100u8, 105u8, 110u8, 103u8],
        Kw::Standalone => vec![115u8, 116u8, 97u8, 110u8, 100u8, 97u8, 108u8, 111u8, 110u8, 101u8],
        Kw::Yes => vec![121u8, 101u8, 115u8],
        Kw::No => vec![110u8, 111u8],
        Kw::DoctypeOpen => vec![60u8, 33u8, 68u8, 79u8, 67u8, 84u8, 89u8, 80u8, 69u8, 32u8],
        Kw::CommentOpen => vec![60u8, 33u8, 45u8, 45u8],
        Kw::DashDash => vec![45u8, 45u8],
        Kw::CommentClose => vec![45u8, 45u8, 62u8],
        Kw::CdataOpen => vec![60u8, 33u8, 91u8, 67u8, 68u8, 65u8, 84u8, 65u8, 91u8],
        Kw::CdataClose => vec![93u8, 93u8, 62u8],
        Kw::CloseTag => vec![60u8, 47u8],
        Kw::EmptyClose => vec![47u8, 62u8],
        Kw::EntQuot => vec![113u8, 117u8, 111u8, 116u8],
        Kw::EntAmp => vec![97u8, 109u8, 112u8],
        Kw::EntApos => vec![97u8, 112u8, 111u8, 115u8],
        Kw::EntLt => vec![108u8, 116u8],
        Kw::EntGt => vec![103u8, 116u8],
        Kw::Svg => vec![115u8, 118u8, 103u8],
        Kw::GroupTag => vec![103u8],
        Kw::PathTag => vec![112u8, 97u8, 116u8, 104u8],
        Kw::DName => vec![100u8],
        Kw::Transform => vec![116u8, 114u8, 97u8, 110u8, 115u8, 102u8, 111u8, 114u8, 109u8],
        Kw::TranslateOpen => vec![116u8, 114u8, 97u8, 110u8, 115u8, 108u8, 97u8, 116u8, 101u8, 40u8],
        Kw::Utf8 => vec![85u8, 84u8, 70u8, 45u8, 56u8],
    };
    proof {
        assert(v@ =~= kw_seq(k));
    }
    v
}

} // verus!
