//! The XML document parser.
//!
//! The grammar is stated once, as recursive spec functions over `Seq<u8>`
//! (`spec_p_name`, `spec_p_element`, ..., `spec_parse_xml_doc`), and the
//! executable parser is proved to return exactly what those functions say,
//! for every input.  A failure is either `Incomplete` (the input ended where
//! more bytes could have extended a valid match) or `Invalid(position)` (a
//! grammar mismatch at that byte).
//!
//! Entity references (`&quot; &amp; &apos; &lt; &gt;`) are resolved eagerly
//! in character data and attribute values; close tags must repeat the open
//! tag's name byte for byte; comments may surround the doctype and follow the
//! root element; CDATA sections pass their bytes through verbatim.

use vstd::prelude::*;
use vstd::slice::slice_subrange;
use vstd::slice::slice_to_vec;
use crate::prim::{
    Kw, PRes, ParseError, expect_byte, expect_lit, find_from, is_alpha, is_enc_char, is_name_char,
    is_name_start, is_version_char, is_ws, kw_bytes, kw_seq, lemma_find_from_bounds,
    lemma_skip_while_bounds, match_at, name_char_pred, not_byte_pred, ok_in_bounds, pos_res_view,
    res_view, skip_ws, spec_expect, spec_expect_byte, spec_find_from, spec_is_alpha,
    spec_is_enc_char, spec_is_name_char, spec_is_name_start, spec_is_version_char, spec_is_ws,
    spec_match_at, spec_skip_while, spec_sws,
};

verus! {

broadcast use crate::prim::lemma_vec_u8_deep_view;

// ---------------------------------------------------------------------------
// The document tree and its mathematical shadow.
// ---------------------------------------------------------------------------

/// A comment's text, without the `<!--` `-->` delimiters.
#[derive(Debug, PartialEq, Eq, Clone)]
pub struct Comment(pub Vec<u8>);

/// One `name="value"` pair; the value has entity references resolved.
#[derive(Debug, PartialEq, Eq)]
pub struct Attribute {
    pub name: Vec<u8>,
    pub value: Vec<u8>,
}

/// A child of an element: a comment, a nested element, or character data
/// (with entity references resolved and CDATA unescaped).
#[derive(Debug, PartialEq, Eq)]
pub enum Content {
    Comment(Comment),
    Element(Element),
    Chars(Vec<u8>),
}

/// An element: its tag name, attributes, and children in document order.
#[derive(Debug, PartialEq, Eq)]
pub struct Element {
    pub name: Vec<u8>,
    pub attributes: Vec<Attribute>,
    pub children: Vec<Content>,
}

/// The XML declaration `<?xml version=... encoding=... standalone=... ?>`.
/// A missing encoding defaults to `UTF-8`, a missing standalone to `false`.
#[derive(Debug, PartialEq, Eq)]
pub struct XMLDecl {
    pub version: Vec<u8>,
    pub encoding: Vec<u8>,
    pub standalone: bool,
}

/// The `<!DOCTYPE name>` declaration.
#[derive(Debug, PartialEq, Eq)]
pub struct Doctype {
    pub name: Vec<u8>,
}

/// Everything before the root element: an optional declaration, the comments
/// around an optional doctype (in order, concatenated).
#[derive(Debug, PartialEq, Eq)]
pub struct XMLProlog {
    pub decl: Option<XMLDecl>,
    pub comments: Vec<Comment>,
    pub doctype: Option<Doctype>,
}

/// A parsed document: prolog, root element, and trailing comments.
#[derive(Debug, PartialEq, Eq)]
pub struct XMLDoc {
    pub prolog: XMLProlog,
    pub root: Element,
    pub misc: Vec<Comment>,
}

/// Shadow of `Attribute`.
pub struct SpecAttribute {
    pub name: Seq<u8>,
    pub value: Seq<u8>,
}

/// Shadow of `Content`.
pub enum SpecContent {
    Comment(Seq<u8>),
    Element(SpecElement),
    Chars(Seq<u8>),
}

/// Shadow of `Element`.
pub struct SpecElement {
    pub name: Seq<u8>,
    pub attributes: Seq<SpecAttribute>,
    pub children: Seq<SpecContent>,
}

/// Shadow of `XMLDecl`.
pub struct SpecXMLDecl {
    pub version: Seq<u8>,
    pub encoding: Seq<u8>,
    pub standalone: bool,
}

/// Shadow of `Doctype`.
pub struct SpecDoctype {
    pub name: Seq<u8>,
}

/// Shadow of `XMLProlog`.
pub struct SpecXMLProlog {
    pub decl: Option<SpecXMLDecl>,
    pub comments: Seq<Seq<u8>>,
    pub doctype: Option<SpecDoctype>,
}

/// Shadow of `XMLDoc`.
pub struct SpecXMLDoc {
    pub prolog: SpecXMLProlog,
    pub root: SpecElement,
    pub misc: Seq<Seq<u8>>,
}

impl DeepView for Comment {
    type V = Seq<u8>;

    open spec fn deep_view(&self) -> Seq<u8> {
        self.0@
    }
}

impl DeepView for Attribute {
    type V = SpecAttribute;

    open spec fn deep_view(&self) -> SpecAttribute {
        SpecAttribute { name: self.name@, value: self.value@ }
    }
}

/// Shadow of a `Content` value, recursively.
pub open spec fn view_content(c: Content) -> SpecContent
    decreases c,
{
    match c {
        Content::Comment(cm) => SpecContent::Comment(cm.0@),
        Content::Element(e) => SpecContent::Element(view_element(e)),
        Content::Chars(v) => SpecContent::Chars(v@),
    }
}

/// Shadow of a sequence of `Content` values, elementwise.
pub open spec fn view_contents(cs: Seq<Content>) -> Seq<SpecContent>
    decreases cs,
{
    if cs.len() == 0 {
        Seq::empty()
    } else {
        seq![view_content(cs.first())] + view_contents(cs.drop_first())
    }
}

/// `view_contents` maps elementwise.
pub proof fn lemma_view_contents_props(s: Seq<Content>)
    ensures
        view_contents(s).len() == s.len(),
        forall|i: int| 0 <= i < s.len() ==> view_contents(s)[i] == view_content(s[i]),
    decreases s.len(),
{
    if s.len() > 0 {
        lemma_view_contents_props(s.drop_first());
    }
}

pub proof fn lemma_view_contents_push(s: Seq<Content>, x: Content)
    ensures
        view_contents(s.push(x)) == view_contents(s).push(view_content(x)),
    decreases s.len(),
{
    if s.len() == 0 {
        assert(s.push(x).first() == x);
        assert(s.push(x).drop_first() =~= Seq::<Content>::empty());
        assert(view_contents(Seq::<Content>::empty()) =~= Seq::<SpecContent>::empty());
        assert(view_contents(s.push(x)) =~= view_contents(s).push(view_content(x)));
    } else {
        assert(s.push(x).first() == s.first());
        assert(s.push(x).drop_first() =~= s.drop_first().push(x));
        lemma_view_contents_push(s.drop_first(), x);
        assert(view_contents(s.push(x)) =~= view_contents(s).push(view_content(x)));
    }
}

/// Shadow of an `Element` value, recursively.
pub open spec fn view_element(e: Element) -> SpecElement
    decreases e,
    via view_element_decreases
{
    SpecElement {
        name: e.name@,
        attributes: e.attributes.deep_view(),
        children: view_contents(e.children@),
    }
}

#[via_fn]
proof fn view_element_decreases(e: Element) {
    assert(decreases_to!(e => e.children));
    assert(decreases_to!(e.children => e.children@));
}

impl DeepView for Content {
    type V = SpecContent;

    open spec fn deep_view(&self) -> SpecContent {
        view_content(*self)
    }
}

impl DeepView for Element {
    type V = SpecElement;

    open spec fn deep_view(&self) -> SpecElement {
        view_element(*self)
    }
}

impl DeepView for XMLDecl {
    type V = SpecXMLDecl;

    open spec fn deep_view(&self) -> SpecXMLDecl {
        SpecXMLDecl {
            version: self.version@,
            encoding: self.encoding@,
            standalone: self.standalone,
        }
    }
}

impl DeepView for Doctype {
    type V = SpecDoctype;

    open spec fn deep_view(&self) -> SpecDoctype {
        SpecDoctype { name: self.name@ }
    }
}

impl DeepView for XMLProlog {
    type V = SpecXMLProlog;

    open spec fn deep_view(&self) -> SpecXMLProlog {
        SpecXMLProlog {
            decl: self.decl.deep_view(),
            comments: self.comments.deep_view(),
            doctype: self.doctype.deep_view(),
        }
    }
}

impl DeepView for XMLDoc {
    type V = SpecXMLDoc;

    open spec fn deep_view(&self) -> SpecXMLDoc {
        SpecXMLDoc {
            prolog: self.prolog.deep_view(),
            root: self.root.deep_view(),
            misc: self.misc.deep_view(),
        }
    }
}

// ---------------------------------------------------------------------------
// Names.
// ---------------------------------------------------------------------------

/// A name token: the first byte must be a name-start byte, and the token is
/// the maximal run of name bytes from there.
pub open spec fn spec_p_name(s: Seq<u8>, i: int) -> PRes<Seq<u8>> {
    if i >= s.len() {
        PRes::Incomplete
    } else if !spec_is_name_start(s[i]) {
        PRes::Invalid(i)
    } else {
        let j = spec_skip_while(s, i, name_char_pred());
        PRes::Val(s.subrange(i, j), j)
    }
}

/// Parse a name token.
pub fn name(s: &[u8], i: usize) -> (r: Result<(Vec<u8>, usize), ParseError>)
    requires
        i <= s@.len(),
    ensures
        res_view(r) == spec_p_name(s@, i as int),
        ok_in_bounds(r, i as int, s@.len() as int),
{
    if i >= s.len() {
        return Err(ParseError::Incomplete);
    }
    if !is_name_start(s[i]) {
        return Err(ParseError::Invalid(i));
    }
    let mut j: usize = i;
    while j < s.len() && is_name_char(s[j])
        invariant
            i <= j <= s@.len(),
            spec_skip_while(s@, i as int, name_char_pred()) == spec_skip_while(
                s@,
                j as int,
                name_char_pred(),
            ),
        decreases s@.len() - j,
    {
        proof {
            assert(name_char_pred()(s@[j as int]));
            assert(spec_skip_while(s@, j as int, name_char_pred()) == spec_skip_while(
                s@,
                j + 1 as int,
                name_char_pred(),
            ));
        }
        j = j + 1;
    }
    proof {
        if j < s@.len() {
            assert(!name_char_pred()(s@[j as int]));
        }
        assert(spec_skip_while(s@, j as int, name_char_pred()) == j);
    }
    let v = slice_to_vec(slice_subrange(s, i, j));
    Ok((v, j))
}

// ---------------------------------------------------------------------------
// Entity references and character data.
// ---------------------------------------------------------------------------

/// One alternative of an entity reference: the name after `&`, then `;`.
/// `None` when the name does not match at `i + 1`.
pub open spec fn spec_ent_alt(s: Seq<u8>, i: int, k: Kw, b: u8) -> Option<PRes<u8>> {
    if spec_match_at(s, i + 1, kw_seq(k)) {
        let j = i + 1 + kw_seq(k).len();
        Some(
            if j >= s.len() {
                PRes::Incomplete
            } else if s[j] == 59 {
                PRes::Val(b, j + 1)
            } else {
                PRes::Invalid(i)
            },
        )
    } else {
        None
    }
}

/// An entity reference: `&quot;`, `&amp;`, `&apos;`, `&lt;` or `&gt;`,
/// resolved to the byte it names.
pub open spec fn spec_p_entity(s: Seq<u8>, i: int) -> PRes<u8> {
    if i >= s.len() {
        PRes::Incomplete
    } else if s[i] != 38 {
        PRes::Invalid(i)
    } else {
        match spec_ent_alt(s, i, Kw::EntQuot, 34) {
            Some(r) => r,
            None => match spec_ent_alt(s, i, Kw::EntAmp, 38) {
                Some(r) => r,
                None => match spec_ent_alt(s, i, Kw::EntApos, 39) {
                    Some(r) => r,
                    None => match spec_ent_alt(s, i, Kw::EntLt, 60) {
                        Some(r) => r,
                        None => match spec_ent_alt(s, i, Kw::EntGt, 62) {
                            Some(r) => r,
                            None => if s.len() < i + 6 {
                                PRes::Incomplete
                            } else {
                                PRes::Invalid(i)
                            },
                        },
                    },
                },
            },
        }
    }
}

/// Try one entity alternative.
fn ent_alt(s: &[u8], i: usize, k: Kw, b: u8) -> (r: Option<Result<(u8, usize), ParseError>>)
    requires
        i < s@.len(),
    ensures
        match r {
            Some(rr) => Some(res_view(rr)) == spec_ent_alt(s@, i as int, k, b) && ok_in_bounds(
                rr,
                i as int,
                s@.len() as int,
            ),
            None => spec_ent_alt(s@, i as int, k, b) is None,
        },
{
    let n = s.len();
    let kw = kw_bytes(k);
    if match_at(s, i + 1, &kw) {
        proof {
            assert(i + 1 + kw@.len() <= n);
        }
        let j = i + 1 + kw.len();
        Some(
            if j >= s.len() {
                Err(ParseError::Incomplete)
            } else if s[j] == 59 {
                Ok((b, j + 1))
            } else {
                Err(ParseError::Invalid(i))
            },
        )
    } else {
        None
    }
}

/// Parse an entity reference.
pub fn entity_ref(s: &[u8], i: usize) -> (r: Result<(u8, usize), ParseError>)
    requires
        i <= s@.len(),
    ensures
        res_view(r) == spec_p_entity(s@, i as int),
        ok_in_bounds(r, i as int, s@.len() as int),
{
    if i >= s.len() {
        return Err(ParseError::Incomplete);
    }
    if s[i] != 38 {
        return Err(ParseError::Invalid(i));
    }
    if let Some(r) = ent_alt(s, i, Kw::EntQuot, 34) {
        return r;
    }
    if let Some(r) = ent_alt(s, i, Kw::EntAmp, 38) {
        return r;
    }
    if let Some(r) = ent_alt(s, i, Kw::EntApos, 39) {
        return r;
    }
    if let Some(r) = ent_alt(s, i, Kw::EntLt, 60) {
        return r;
    }
    if let Some(r) = ent_alt(s, i, Kw::EntGt, 62) {
        return r;
    }
    if s.len() - i < 6 {
        Err(ParseError::Incomplete)
    } else {
        Err(ParseError::Invalid(i))
    }
}

/// The longest run of character data starting at `i`: plain bytes other than
/// `<` and `&`, and resolved entity references.  Returns the resolved bytes
/// and the position where the run stops (at `<`, at a `&` that is no valid
/// entity reference, or at the end of input).
pub open spec fn spec_chars_run(s: Seq<u8>, i: int) -> (Seq<u8>, int)
    decreases s.len() - i
        when 0 <= i <= s.len()
{
    if i >= s.len() {
        (Seq::empty(), i)
    } else if s[i] == 60 {
        (Seq::empty(), i)
    } else if s[i] == 38 {
        match spec_p_entity(s, i) {
            PRes::Val(b, j) => if i < j <= s.len() {
                let r = spec_chars_run(s, j);
                (seq![b] + r.0, r.1)
            } else {
                (Seq::empty(), i)
            },
            _ => (Seq::empty(), i),
        }
    } else {
        let r = spec_chars_run(s, i + 1);
        (seq![s[i]] + r.0, r.1)
    }
}

/// Character data as a content item: the run must consume at least one byte.
pub open spec fn spec_p_chars(s: Seq<u8>, i: int) -> PRes<Seq<u8>> {
    let r = spec_chars_run(s, i);
    if r.1 > i {
        PRes::Val(r.0, r.1)
    } else if i >= s.len() {
        PRes::Incomplete
    } else {
        PRes::Invalid(i)
    }
}

/// Collect the character-data run starting at `i`.
fn chars_run(s: &[u8], i: usize) -> (r: (Vec<u8>, usize))
    requires
        i <= s@.len(),
    ensures
        r.0@ == spec_chars_run(s@, i as int).0,
        r.1 as int == spec_chars_run(s@, i as int).1,
        i <= r.1 <= s@.len(),
    decreases s@.len() - i,
{
    if i >= s.len() {
        return (Vec::new(), i);
    }
    let c = s[i];
    if c == 60 {
        return (Vec::new(), i);
    }
    if c == 38 {
        match entity_ref(s, i) {
            Ok((b, j)) => {
                if i < j {
                    let (mut rest, e) = chars_run(s, j);
                    rest.insert(0, b);
                    proof {
                        assert(rest@ =~= seq![b] + spec_chars_run(s@, j as int).0);
                    }
                    (rest, e)
                } else {
                    (Vec::new(), i)
                }
            },
            Err(_) => (Vec::new(), i),
        }
    } else {
        let (mut rest, e) = chars_run(s, i + 1);
        rest.insert(0, c);
        proof {
            assert(rest@ =~= seq![c] + spec_chars_run(s@, i + 1 as int).0);
        }
        (rest, e)
    }
}

/// Parse one character-data content item.
pub fn node_value(s: &[u8], i: usize) -> (r: Result<(Vec<u8>, usize), ParseError>)
    requires
        i <= s@.len(),
    ensures
        res_view(r) == spec_p_chars(s@, i as int),
        ok_in_bounds(r, i as int, s@.len() as int),
{
    let (v, j) = chars_run(s, i);
    if j > i {
        Ok((v, j))
    } else if i >= s.len() {
        Err(ParseError::Incomplete)
    } else {
        Err(ParseError::Invalid(i))
    }
}

// ---------------------------------------------------------------------------
// CDATA and comments.
// ---------------------------------------------------------------------------

/// A CDATA section: `<![CDATA[` raw bytes `]]>`; the bytes pass through
/// unescaped.  An unterminated section is `Incomplete`.
pub open spec fn spec_p_cdata(s: Seq<u8>, i: int) -> PRes<Seq<u8>> {
    match spec_expect(s, i, kw_seq(Kw::CdataOpen)) {
        PRes::Val(_, j) => match spec_find_from(s, j, kw_seq(Kw::CdataClose)) {
            Some(k) => PRes::Val(s.subrange(j, k), k + kw_seq(Kw::CdataClose).len()),
            None => PRes::Incomplete,
        },
        PRes::Incomplete => PRes::Incomplete,
        PRes::Invalid(p) => PRes::Invalid(p),
    }
}

/// Parse a CDATA section.
pub fn cdata(s: &[u8], i: usize) -> (r: Result<(Vec<u8>, usize), ParseError>)
    requires
        i <= s@.len(),
    ensures
        res_view(r) == spec_p_cdata(s@, i as int),
        ok_in_bounds(r, i as int, s@.len() as int),
{
    let n = s.len();
    let open = kw_bytes(Kw::CdataOpen);
    let close = kw_bytes(Kw::CdataClose);
    match expect_lit(s, i, &open) {
        Ok(j) => match find_from(s, j, &close) {
            Some(k) => {
                proof {
                    lemma_find_from_bounds(s@, j as int, close@);
                    assert(k + close@.len() <= n);
                }
                let v = slice_to_vec(slice_subrange(s, j, k));
                Ok((v, k + close.len()))
            },
            None => Err(ParseError::Incomplete),
        },
        Err(e) => Err(e),
    }
}

/// A comment: `<!--`, then everything up to the first `--`, which must open
/// the closing `-->`.  The text is returned without the delimiters.
pub open spec fn spec_p_comment(s: Seq<u8>, i: int) -> PRes<Seq<u8>> {
    match spec_expect(s, i, kw_seq(Kw::CommentOpen)) {
        PRes::Val(_, j) => match spec_find_from(s, j, kw_seq(Kw::DashDash)) {
            Some(k) => match spec_expect(s, k, kw_seq(Kw::CommentClose)) {
                PRes::Val(_, e) => PRes::Val(s.subrange(j, k), e),
                PRes::Incomplete => PRes::Incomplete,
                PRes::Invalid(p) => PRes::Invalid(p),
            },
            None => PRes::Incomplete,
        },
        PRes::Incomplete => PRes::Incomplete,
        PRes::Invalid(p) => PRes::Invalid(p),
    }
}

/// Parse a comment.
pub fn comment(s: &[u8], i: usize) -> (r: Result<(Vec<u8>, usize), ParseError>)
    requires
        i <= s@.len(),
    ensures
        res_view(r) == spec_p_comment(s@, i as int),
        ok_in_bounds(r, i as int, s@.len() as int),
{
    let open = kw_bytes(Kw::CommentOpen);
    let dashes = kw_bytes(Kw::DashDash);
    let close = kw_bytes(Kw::CommentClose);
    match expect_lit(s, i, &open) {
        Ok(j) => match find_from(s, j, &dashes) {
            Some(k) => {
                proof {
                    lemma_find_from_bounds(s@, j as int, dashes@);
                }
                match expect_lit(s, k, &close) {
                    Ok(e) => {
                        let v = slice_to_vec(slice_subrange(s, j, k));
                        Ok((v, e))
                    },
                    Err(e) => Err(e),
                }
            },
            None => Err(ParseError::Incomplete),
        },
        Err(e) => Err(e),
    }
}

/// A possibly empty comment list: whitespace, then comments each followed by
/// whitespace.  Never fails; stops before the first thing that is not a
/// comment.
pub open spec fn spec_p_comment_list(s: Seq<u8>, i: int) -> (Seq<Seq<u8>>, int)
    decreases s.len() - i
        when 0 <= i <= s.len()
{
    let j0 = spec_sws(s, i);
    if !(i <= j0 <= s.len()) {
        (Seq::empty(), i)
    } else {
        match spec_p_comment(s, j0) {
            PRes::Val(c, j) => if j0 < j <= s.len() {
                let r = spec_p_comment_list(s, j);
                (seq![c] + r.0, r.1)
            } else {
                (seq![c], j)
            },
            _ => (Seq::empty(), j0),
        }
    }
}

/// Parse a comment list (with its surrounding whitespace).
pub fn comment_list(s: &[u8], i: usize) -> (r: (Vec<Comment>, usize))
    requires
        i <= s@.len(),
    ensures
        r.0.deep_view() == spec_p_comment_list(s@, i as int).0,
        r.1 as int == spec_p_comment_list(s@, i as int).1,
        i <= r.1 <= s@.len(),
    decreases s@.len() - i,
{
    let j0 = skip_ws(s, i);
    match comment(s, j0) {
        Ok((c, j)) => {
            if j0 < j {
                let (mut rest, e) = comment_list(s, j);
                rest.insert(0, Comment(c));
                proof {
                    assert(rest.deep_view() =~= seq![c@] + spec_p_comment_list(s@, j as int).0);
                }
                (rest, e)
            } else {
                let mut v: Vec<Comment> = Vec::new();
                v.push(Comment(c));
                proof {
                    assert(v.deep_view() =~= seq![c@]);
                }
                (v, j)
            }
        },
        Err(_) => {
            let v: Vec<Comment> = Vec::new();
            proof {
                assert(v.deep_view() =~= Seq::<Seq<u8>>::empty());
            }
            (v, j0)
        },
    }
}

// ---------------------------------------------------------------------------
// Quoted values.
// ---------------------------------------------------------------------------

/// A quoted token (single or double quotes), taken verbatim: every byte up
/// to the first closing quote.  Unterminated quotes are `Incomplete`.
pub open spec fn spec_p_quoted_raw(s: Seq<u8>, i: int) -> PRes<Seq<u8>> {
    if i >= s.len() {
        PRes::Incomplete
    } else if s[i] == 34 || s[i] == 39 {
        let q = s[i];
        let k = spec_skip_while(s, i + 1, not_byte_pred(q));
        if k >= s.len() {
            PRes::Incomplete
        } else {
            PRes::Val(s.subrange(i + 1, k), k + 1)
        }
    } else {
        PRes::Invalid(i)
    }
}

/// Parse a verbatim quoted token.
pub fn quoted_raw(s: &[u8], i: usize) -> (r: Result<(Vec<u8>, usize), ParseError>)
    requires
        i <= s@.len(),
    ensures
        res_view(r) == spec_p_quoted_raw(s@, i as int),
        ok_in_bounds(r, i as int, s@.len() as int),
{
    if i >= s.len() {
        return Err(ParseError::Incomplete);
    }
    let q = s[i];
    if q != 34 && q != 39 {
        return Err(ParseError::Invalid(i));
    }
    let mut k: usize = i + 1;
    while k < s.len() && s[k] != q
        invariant
            i + 1 <= k <= s@.len(),
            spec_skip_while(s@, i + 1 as int, not_byte_pred(q)) == spec_skip_while(
                s@,
                k as int,
                not_byte_pred(q),
            ),
        decreases s@.len() - k,
    {
        proof {
            assert(not_byte_pred(q)(s@[k as int]));
            assert(spec_skip_while(s@, k as int, not_byte_pred(q)) == spec_skip_while(
                s@,
                k + 1 as int,
                not_byte_pred(q),
            ));
        }
        k = k + 1;
    }
    proof {
        if k < s@.len() {
            assert(!not_byte_pred(q)(s@[k as int]));
        }
        assert(spec_skip_while(s@, k as int, not_byte_pred(q)) == k);
    }
    if k >= s.len() {
        Err(ParseError::Incomplete)
    } else {
        let v = slice_to_vec(slice_subrange(s, i + 1, k));
        Ok((v, k + 1))
    }
}

/// Body of a quoted attribute value, from just past the opening quote `q` to
/// the closing quote: plain bytes (no `<`), with entity references resolved.
pub open spec fn spec_attr_inner(s: Seq<u8>, i: int, q: u8) -> PRes<Seq<u8>>
    decreases s.len() - i
        when 0 <= i <= s.len()
{
    if i >= s.len() {
        PRes::Incomplete
    } else if s[i] == q {
        PRes::Val(Seq::empty(), i + 1)
    } else if s[i] == 60 {
        PRes::Invalid(i)
    } else if s[i] == 38 {
        match spec_p_entity(s, i) {
            PRes::Val(b, j) => if i < j <= s.len() {
                match spec_attr_inner(s, j, q) {
                    PRes::Val(rest, e) => PRes::Val(seq![b] + rest, e),
                    PRes::Incomplete => PRes::Incomplete,
                    PRes::Invalid(p) => PRes::Invalid(p),
                }
            } else {
                PRes::Invalid(i)
            },
            PRes::Incomplete => PRes::Incomplete,
            PRes::Invalid(p) => PRes::Invalid(p),
        }
    } else {
        match spec_attr_inner(s, i + 1, q) {
            PRes::Val(rest, e) => PRes::Val(seq![s[i]] + rest, e),
            PRes::Incomplete => PRes::Incomplete,
            PRes::Invalid(p) => PRes::Invalid(p),
        }
    }
}

/// A quoted attribute value, including both quotes.
pub open spec fn spec_p_attr_value(s: Seq<u8>, i: int) -> PRes<Seq<u8>> {
    if i >= s.len() {
        PRes::Incomplete
    } else if s[i] == 34 || s[i] == 39 {
        spec_attr_inner(s, i + 1, s[i])
    } else {
        PRes::Invalid(i)
    }
}

/// Parse the body of a quoted attribute value.
fn attr_inner(s: &[u8], i: usize, q: u8) -> (r: Result<(Vec<u8>, usize), ParseError>)
    requires
        i <= s@.len(),
    ensures
        res_view(r) == spec_attr_inner(s@, i as int, q),
        ok_in_bounds(r, i as int, s@.len() as int),
    decreases s@.len() - i,
{
    if i >= s.len() {
        return Err(ParseError::Incomplete);
    }
    let c = s[i];
    if c == q {
        return Ok((Vec::new(), i + 1));
    }
    if c == 60 {
        return Err(ParseError::Invalid(i));
    }
    if c == 38 {
        match entity_ref(s, i) {
            Ok((b, j)) => {
                if i < j {
                    match attr_inner(s, j, q) {
                        Ok((mut rest, e)) => {
                            let ghost pre = rest@;
                            rest.insert(0, b);
                            proof {
                                assert(rest@ =~= seq![b] + pre);
                            }
                            Ok((rest, e))
                        },
                        Err(e) => Err(e),
                    }
                } else {
                    Err(ParseError::Invalid(i))
                }
            },
            Err(e) => Err(e),
        }
    } else {
        match attr_inner(s, i + 1, q) {
            Ok((mut rest, e)) => {
                let ghost pre = rest@;
                rest.insert(0, c);
                proof {
                    assert(rest@ =~= seq![c] + pre);
                }
                Ok((rest, e))
            },
            Err(e) => Err(e),
        }
    }
}

/// Parse a quoted attribute value.
pub fn attr_value(s: &[u8], i: usize) -> (r: Result<(Vec<u8>, usize), ParseError>)
    requires
        i <= s@.len(),
    ensures
        res_view(r) == spec_p_attr_value(s@, i as int),
        ok_in_bounds(r, i as int, s@.len() as int),
{
    if i >= s.len() {
        return Err(ParseError::Incomplete);
    }
    let q = s[i];
    if q == 34 || q == 39 {
        attr_inner(s, i + 1, q)
    } else {
        Err(ParseError::Invalid(i))
    }
}

// ---------------------------------------------------------------------------
// Attributes.
// ---------------------------------------------------------------------------

/// An attribute: a name, `=` amid optional whitespace, and a quoted value.
pub open spec fn spec_p_attribute(s: Seq<u8>, i: int) -> PRes<SpecAttribute> {
    match spec_p_name(s, i) {
        PRes::Val(nm, j1) => {
            let j2 = spec_sws(s, j1);
            match spec_expect_byte(s, j2, 61) {
                PRes::Val(_, j3) => {
                    let j4 = spec_sws(s, j3);
                    match spec_p_attr_value(s, j4) {
                        PRes::Val(v, j5) => PRes::Val(SpecAttribute { name: nm, value: v }, j5),
                        PRes::Incomplete => PRes::Incomplete,
                        PRes::Invalid(p) => PRes::Invalid(p),
                    }
                },
                PRes::Incomplete => PRes::Incomplete,
                PRes::Invalid(p) => PRes::Invalid(p),
            }
        },
        PRes::Incomplete => PRes::Incomplete,
        PRes::Invalid(p) => PRes::Invalid(p),
    }
}

/// Parse an attribute.
pub fn attribute(s: &[u8], i: usize) -> (r: Result<(Attribute, usize), ParseError>)
    requires
        i <= s@.len(),
    ensures
        res_view(r) == spec_p_attribute(s@, i as int),
        ok_in_bounds(r, i as int, s@.len() as int),
{
    match name(s, i) {
        Ok((nm, j1)) => {
            let j2 = skip_ws(s, j1);
            match expect_byte(s, j2, 61) {
                Ok(j3) => {
                    let j4 = skip_ws(s, j3);
                    match attr_value(s, j4) {
                        Ok((v, j5)) => Ok((Attribute { name: nm, value: v }, j5)),
                        Err(e) => Err(e),
                    }
                },
                Err(e) => Err(e),
            }
        },
        Err(e) => Err(e),
    }
}

/// A possibly empty attribute list; each attribute needs at least one byte of
/// whitespace before it.  Never fails: it stops before the first stretch that
/// is not whitespace followed by an attribute, leaving the whitespace
/// unconsumed.
pub open spec fn spec_p_attr_list(s: Seq<u8>, i: int) -> (Seq<SpecAttribute>, int)
    decreases s.len() - i
        when 0 <= i <= s.len()
{
    let j0 = spec_sws(s, i);
    if !(i < j0 <= s.len()) {
        (Seq::empty(), i)
    } else {
        match spec_p_attribute(s, j0) {
            PRes::Val(a, j) => if j0 < j <= s.len() {
                let r = spec_p_attr_list(s, j);
                (seq![a] + r.0, r.1)
            } else {
                (seq![a], j)
            },
            _ => (Seq::empty(), i),
        }
    }
}

/// Parse an attribute list.
pub fn attr_list(s: &[u8], i: usize) -> (r: (Vec<Attribute>, usize))
    requires
        i <= s@.len(),
    ensures
        r.0.deep_view() == spec_p_attr_list(s@, i as int).0,
        r.1 as int == spec_p_attr_list(s@, i as int).1,
        i <= r.1 <= s@.len(),
    decreases s@.len() - i,
{
    let j0 = skip_ws(s, i);
    if j0 <= i {
        let v: Vec<Attribute> = Vec::new();
        proof {
            assert(v.deep_view() =~= Seq::<SpecAttribute>::empty());
        }
        return (v, i);
    }
    match attribute(s, j0) {
        Ok((a, j)) => {
            if j0 < j {
                let (mut rest, e) = attr_list(s, j);
                let ghost pre = rest.deep_view();
                rest.insert(0, a);
                proof {
                    assert(rest.deep_view() =~= seq![a.deep_view()] + pre);
                }
                (rest, e)
            } else {
                let mut v: Vec<Attribute> = Vec::new();
                v.push(a);
                proof {
                    assert(v.deep_view() =~= seq![a.deep_view()]);
                }
                (v, j)
            }
        },
        Err(_) => {
            let v: Vec<Attribute> = Vec::new();
            proof {
                assert(v.deep_view() =~= Seq::<SpecAttribute>::empty());
            }
            (v, i)
        },
    }
}

// ---------------------------------------------------------------------------
// The XML declaration and the doctype.
// ---------------------------------------------------------------------------

/// A valid version token: nonempty, all version bytes.
pub open spec fn spec_version_ok(v: Seq<u8>) -> bool {
    v.len() > 0 && forall|k: int| 0 <= k < v.len() ==> spec_is_version_char(v[k])
}

/// A valid encoding name: nonempty, starts with a letter, all encoding bytes.
pub open spec fn spec_enc_ok(v: Seq<u8>) -> bool {
    v.len() > 0 && spec_is_alpha(v[0]) && forall|k: int| 0 <= k < v.len() ==> spec_is_enc_char(
        v[k],
    )
}

fn version_ok(v: &Vec<u8>) -> (r: bool)
    ensures
        r == spec_version_ok(v@),
{
    if v.len() == 0 {
        return false;
    }
    let mut k: usize = 0;
    while k < v.len()
        invariant
            k <= v@.len(),
            forall|m: int| 0 <= m < k ==> spec_is_version_char(v@[m]),
        decreases v@.len() - k,
    {
        if !is_version_char(v[k]) {
            return false;
        }
        k = k + 1;
    }
    true
}

fn enc_ok(v: &Vec<u8>) -> (r: bool)
    ensures
        r == spec_enc_ok(v@),
{
    if v.len() == 0 {
        return false;
    }
    if !is_alpha(v[0]) {
        return false;
    }
    let mut k: usize = 0;
    while k < v.len()
        invariant
            k <= v@.len(),
            forall|m: int| 0 <= m < k ==> spec_is_enc_char(v@[m]),
        decreases v@.len() - k,
    {
        if !is_enc_char(v[k]) {
            return false;
        }
        k = k + 1;
    }
    true
}

/// `version=` with a quoted, valid version token.
pub open spec fn spec_p_version_decl(s: Seq<u8>, i: int) -> PRes<Seq<u8>> {
    match spec_expect(s, i, kw_seq(Kw::Version)) {
        PRes::Val(_, j1) => {
            let j2 = spec_sws(s, j1);
            match spec_expect_byte(s, j2, 61) {
                PRes::Val(_, j3) => {
                    let j4 = spec_sws(s, j3);
                    match spec_p_quoted_raw(s, j4) {
                        PRes::Val(v, j5) => if spec_version_ok(v) {
                            PRes::Val(v, j5)
                        } else {
                            PRes::Invalid(j4)
                        },
                        PRes::Incomplete => PRes::Incomplete,
                        PRes::Invalid(p) => PRes::Invalid(p),
                    }
                },
                PRes::Incomplete => PRes::Incomplete,
                PRes::Invalid(p) => PRes::Invalid(p),
            }
        },
        PRes::Incomplete => PRes::Incomplete,
        PRes::Invalid(p) => PRes::Invalid(p),
    }
}

/// Parse `version='...'`.
pub fn version_decl(s: &[u8], i: usize) -> (r: Result<(Vec<u8>, usize), ParseError>)
    requires
        i <= s@.len(),
    ensures
        res_view(r) == spec_p_version_decl(s@, i as int),
        ok_in_bounds(r, i as int, s@.len() as int),
{
    let kw = kw_bytes(Kw::Version);
    match expect_lit(s, i, &kw) {
        Ok(j1) => {
            let j2 = skip_ws(s, j1);
            match expect_byte(s, j2, 61) {
                Ok(j3) => {
                    let j4 = skip_ws(s, j3);
                    match quoted_raw(s, j4) {
                        Ok((v, j5)) => {
                            if version_ok(&v) {
                                Ok((v, j5))
                            } else {
                                Err(ParseError::Invalid(j4))
                            }
                        },
                        Err(e) => Err(e),
                    }
                },
                Err(e) => Err(e),
            }
        },
        Err(e) => Err(e),
    }
}

/// `encoding=` with a quoted, valid encoding name.
pub open spec fn spec_p_enc_decl(s: Seq<u8>, i: int) -> PRes<Seq<u8>> {
    match spec_expect(s, i, kw_seq(Kw::Encoding)) {
        PRes::Val(_, j1) => {
            let j2 = spec_sws(s, j1);
            match spec_expect_byte(s, j2, 61) {
                PRes::Val(_, j3) => {
                    let j4 = spec_sws(s, j3);
                    match spec_p_quoted_raw(s, j4) {
                        PRes::Val(v, j5) => if spec_enc_ok(v) {
                            PRes::Val(v, j5)
                        } else {
                            PRes::Invalid(j4)
                        },
                        PRes::Incomplete => PRes::Incomplete,
                        PRes::Invalid(p) => PRes::Invalid(p),
                    }
                },
                PRes::Incomplete => PRes::Incomplete,
                PRes::Invalid(p) => PRes::Invalid(p),
            }
        },
        PRes::Incomplete => PRes::Incomplete,
        PRes::Invalid(p) => PRes::Invalid(p),
    }
}

/// Parse `encoding='...'`.
pub fn enc_decl(s: &[u8], i: usize) -> (r: Result<(Vec<u8>, usize), ParseError>)
    requires
        i <= s@.len(),
    ensures
        res_view(r) == spec_p_enc_decl(s@, i as int),
        ok_in_bounds(r, i as int, s@.len() as int),
{
    let kw = kw_bytes(Kw::Encoding);
    match expect_lit(s, i, &kw) {
        Ok(j1) => {
            let j2 = skip_ws(s, j1);
            match expect_byte(s, j2, 61) {
                Ok(j3) => {
                    let j4 = skip_ws(s, j3);
                    match quoted_raw(s, j4) {
                        Ok((v, j5)) => {
                            if enc_ok(&v) {
                                Ok((v, j5))
                            } else {
                                Err(ParseError::Invalid(j4))
                            }
                        },
                        Err(e) => Err(e),
                    }
                },
                Err(e) => Err(e),
            }
        },
        Err(e) => Err(e),
    }
}

/// `standalone=` with a quoted `yes` or `no`.
pub open spec fn spec_p_sd_decl(s: Seq<u8>, i: int) -> PRes<bool> {
    match spec_expect(s, i, kw_seq(Kw::Standalone)) {
        PRes::Val(_, j1) => {
            let j2 = spec_sws(s, j1);
            match spec_expect_byte(s, j2, 61) {
                PRes::Val(_, j3) => {
                    let j4 = spec_sws(s, j3);
                    match spec_p_quoted_raw(s, j4) {
                        PRes::Val(v, j5) => if v == kw_seq(Kw::Yes) {
                            PRes::Val(true, j5)
                        } else if v == kw_seq(Kw::No) {
                            PRes::Val(false, j5)
                        } else {
                            PRes::Invalid(j4)
                        },
                        PRes::Incomplete => PRes::Incomplete,
                        PRes::Invalid(p) => PRes::Invalid(p),
                    }
                },
                PRes::Incomplete => PRes::Incomplete,
                PRes::Invalid(p) => PRes::Invalid(p),
            }
        },
        PRes::Incomplete => PRes::Incomplete,
        PRes::Invalid(p) => PRes::Invalid(p),
    }
}

/// Parse `standalone='yes'` or `standalone='no'`.
pub fn sd_decl(s: &[u8], i: usize) -> (r: Result<(bool, usize), ParseError>)
    requires
        i <= s@.len(),
    ensures
        res_view(r) == spec_p_sd_decl(s@, i as int),
        ok_in_bounds(r, i as int, s@.len() as int),
{
    let kw = kw_bytes(Kw::Standalone);
    match expect_lit(s, i, &kw) {
        Ok(j1) => {
            let j2 = skip_ws(s, j1);
            match expect_byte(s, j2, 61) {
                Ok(j3) => {
                    let j4 = skip_ws(s, j3);
                    match quoted_raw(s, j4) {
                        Ok((v, j5)) => {
                            let yes = kw_bytes(Kw::Yes);
                            let no = kw_bytes(Kw::No);
                            if crate::prim::vec_u8_eq(&v, &yes) {
                                Ok((true, j5))
                            } else if crate::prim::vec_u8_eq(&v, &no) {
                                Ok((false, j5))
                            } else {
                                Err(ParseError::Invalid(j4))
                            }
                        },
                        Err(e) => Err(e),
                    }
                },
                Err(e) => Err(e),
            }
        },
        Err(e) => Err(e),
    }
}

/// The optional `encoding` declaration: committed to when whitespace followed
/// by the keyword is present, defaulting to `UTF-8` (position unmoved)
/// otherwise.
pub open spec fn spec_p_opt_enc(s: Seq<u8>, i: int) -> PRes<Seq<u8>> {
    let j = spec_sws(s, i);
    if i < j && spec_match_at(s, j, kw_seq(Kw::Encoding)) {
        spec_p_enc_decl(s, j)
    } else {
        PRes::Val(kw_seq(Kw::Utf8), i)
    }
}

/// The optional `standalone` declaration, defaulting to `false`.
pub open spec fn spec_p_opt_sd(s: Seq<u8>, i: int) -> PRes<bool> {
    let j = spec_sws(s, i);
    if i < j && spec_match_at(s, j, kw_seq(Kw::Standalone)) {
        spec_p_sd_decl(s, j)
    } else {
        PRes::Val(false, i)
    }
}

/// The XML declaration `<?xml version=... (encoding=...)? (standalone=...)? ?>`,
/// with at least one byte of whitespace after `<?xml` and before each
/// keyword; missing encoding defaults to `UTF-8`, missing standalone to
/// `false`.
pub open spec fn spec_p_xml_decl(s: Seq<u8>, i: int) -> PRes<SpecXMLDecl> {
    match spec_expect(s, i, kw_seq(Kw::XmlOpen)) {
        PRes::Val(_, j1) => {
            let j2 = spec_sws(s, j1);
            if j2 == j1 {
                if j1 >= s.len() {
                    PRes::Incomplete
                } else {
                    PRes::Invalid(j1)
                }
            } else {
                match spec_p_version_decl(s, j2) {
                    PRes::Val(ver, j3) => match spec_p_opt_enc(s, j3) {
                        PRes::Val(enc, j4) => match spec_p_opt_sd(s, j4) {
                            PRes::Val(sd, j5) => {
                                let j6 = spec_sws(s, j5);
                                match spec_expect(s, j6, kw_seq(Kw::XmlClose)) {
                                    PRes::Val(_, j7) => PRes::Val(
                                        SpecXMLDecl { version: ver, encoding: enc, standalone: sd },
                                        j7,
                                    ),
                                    PRes::Incomplete => PRes::Incomplete,
                                    PRes::Invalid(p) => PRes::Invalid(p),
                                }
                            },
                            PRes::Incomplete => PRes::Incomplete,
                            PRes::Invalid(p) => PRes::Invalid(p),
                        },
                        PRes::Incomplete => PRes::Incomplete,
                        PRes::Invalid(p) => PRes::Invalid(p),
                    },
                    PRes::Incomplete => PRes::Incomplete,
                    PRes::Invalid(p) => PRes::Invalid(p),
                }
            }
        },
        PRes::Incomplete => PRes::Incomplete,
        PRes::Invalid(p) => PRes::Invalid(p),
    }
}

/// Parse the XML declaration.
pub fn xml_decl(s: &[u8], i: usize) -> (r: Result<(XMLDecl, usize), ParseError>)
    requires
        i <= s@.len(),
    ensures
        res_view(r) == spec_p_xml_decl(s@, i as int),
        ok_in_bounds(r, i as int, s@.len() as int),
{
    let kw = kw_bytes(Kw::XmlOpen);
    match expect_lit(s, i, &kw) {
        Ok(j1) => {
            let j2 = skip_ws(s, j1);
            if j2 == j1 {
                if j1 >= s.len() {
                    return Err(ParseError::Incomplete);
                } else {
                    return Err(ParseError::Invalid(j1));
                }
            }
            match version_decl(s, j2) {
                Ok((ver, j3)) => {
                    let je = skip_ws(s, j3);
                    let enc_kw = kw_bytes(Kw::Encoding);
                    let enc_r: Result<(Vec<u8>, usize), ParseError> = if j3 < je && match_at(
                        s,
                        je,
                        &enc_kw,
                    ) {
                        enc_decl(s, je)
                    } else {
                        Ok((kw_bytes(Kw::Utf8), j3))
                    };
                    match enc_r {
                        Ok((enc, j4)) => {
                            let js = skip_ws(s, j4);
                            let sd_kw = kw_bytes(Kw::Standalone);
                            let sd_r: Result<(bool, usize), ParseError> = if j4 < js && match_at(
                                s,
                                js,
                                &sd_kw,
                            ) {
                                sd_decl(s, js)
                            } else {
                                Ok((false, j4))
                            };
                            match sd_r {
                                Ok((sd, j5)) => {
                                    let j6 = skip_ws(s, j5);
                                    let close = kw_bytes(Kw::XmlClose);
                                    match expect_lit(s, j6, &close) {
                                        Ok(j7) => Ok(
                                            (
                                                XMLDecl {
                                                    version: ver,
                                                    encoding: enc,
                                                    standalone: sd,
                                                },
                                                j7,
                                            ),
                                        ),
                                        Err(e) => Err(e),
                                    }
                                },
                                Err(e) => Err(e),
                            }
                        },
                        Err(e) => Err(e),
                    }
                },
                Err(e) => Err(e),
            }
        },
        Err(e) => Err(e),
    }
}

/// The doctype declaration `<!DOCTYPE name>` (the keyword carries one space;
/// more whitespace may surround the name).
pub open spec fn spec_p_doctype(s: Seq<u8>, i: int) -> PRes<SpecDoctype> {
    match spec_expect(s, i, kw_seq(Kw::DoctypeOpen)) {
        PRes::Val(_, j1) => {
            let j2 = spec_sws(s, j1);
            match spec_p_name(s, j2) {
                PRes::Val(nm, j3) => {
                    let j4 = spec_sws(s, j3);
                    match spec_expect_byte(s, j4, 62) {
                        PRes::Val(_, j5) => PRes::Val(SpecDoctype { name: nm }, j5),
                        PRes::Incomplete => PRes::Incomplete,
                        PRes::Invalid(p) => PRes::Invalid(p),
                    }
                },
                PRes::Incomplete => PRes::Incomplete,
                PRes::Invalid(p) => PRes::Invalid(p),
            }
        },
        PRes::Incomplete => PRes::Incomplete,
        PRes::Invalid(p) => PRes::Invalid(p),
    }
}

/// Parse a doctype declaration.
pub fn doctype_decl(s: &[u8], i: usize) -> (r: Result<(Doctype, usize), ParseError>)
    requires
        i <= s@.len(),
    ensures
        res_view(r) == spec_p_doctype(s@, i as int),
        ok_in_bounds(r, i as int, s@.len() as int),
{
    let kw = kw_bytes(Kw::DoctypeOpen);
    match expect_lit(s, i, &kw) {
        Ok(j1) => {
            let j2 = skip_ws(s, j1);
            match name(s, j2) {
                Ok((nm, j3)) => {
                    let j4 = skip_ws(s, j3);
                    match expect_byte(s, j4, 62) {
                        Ok(j5) => Ok((Doctype { name: nm }, j5)),
                        Err(e) => Err(e),
                    }
                },
                Err(e) => Err(e),
            }
        },
        Err(e) => Err(e),
    }
}

/// The prolog: an XML declaration exactly when the document opens with
/// `<?xml`, comments, a doctype exactly when `<!DOCTYPE ` follows, and more
/// comments.  Both comment runs are kept, in order, in one list.
pub open spec fn spec_p_prolog(s: Seq<u8>, i: int) -> PRes<SpecXMLProlog> {
    let dres: PRes<Option<SpecXMLDecl>> = if spec_match_at(s, i, kw_seq(Kw::XmlOpen)) {
        match spec_p_xml_decl(s, i) {
            PRes::Val(d, j) => PRes::Val(Some(d), j),
            PRes::Incomplete => PRes::Incomplete,
            PRes::Invalid(p) => PRes::Invalid(p),
        }
    } else {
        PRes::Val(None, i)
    };
    match dres {
        PRes::Val(decl, j) => {
            if !(0 <= j <= s.len()) {
                PRes::Invalid(i)
            } else {
                let c1 = spec_p_comment_list(s, j);
                if !(0 <= c1.1 <= s.len()) {
                    PRes::Invalid(i)
                } else {
                    let dtres: PRes<Option<SpecDoctype>> = if spec_match_at(
                        s,
                        c1.1,
                        kw_seq(Kw::DoctypeOpen),
                    ) {
                        match spec_p_doctype(s, c1.1) {
                            PRes::Val(d, j2) => PRes::Val(Some(d), j2),
                            PRes::Incomplete => PRes::Incomplete,
                            PRes::Invalid(p) => PRes::Invalid(p),
                        }
                    } else {
                        PRes::Val(None, c1.1)
                    };
                    match dtres {
                        PRes::Val(doctype, j3) => {
                            if !(0 <= j3 <= s.len()) {
                                PRes::Invalid(i)
                            } else {
                                let c2 = spec_p_comment_list(s, j3);
                                PRes::Val(
                                    SpecXMLProlog { decl, comments: c1.0 + c2.0, doctype },
                                    c2.1,
                                )
                            }
                        },
                        PRes::Incomplete => PRes::Incomplete,
                        PRes::Invalid(p) => PRes::Invalid(p),
                    }
                }
            }
        },
        PRes::Incomplete => PRes::Incomplete,
        PRes::Invalid(p) => PRes::Invalid(p),
    }
}

/// Parse the prolog.
pub fn xml_prolog(s: &[u8], i: usize) -> (r: Result<(XMLProlog, usize), ParseError>)
    requires
        i <= s@.len(),
    ensures
        res_view(r) == spec_p_prolog(s@, i as int),
        ok_in_bounds(r, i as int, s@.len() as int),
{
    let xml_kw = kw_bytes(Kw::XmlOpen);
    let decl: Option<XMLDecl>;
    let j: usize;
    if match_at(s, i, &xml_kw) {
        match xml_decl(s, i) {
            Ok((d, jj)) => {
                decl = Some(d);
                j = jj;
            },
            Err(e) => {
                return Err(e);
            },
        }
    } else {
        decl = None;
        j = i;
    }
    let (c1, j1) = comment_list(s, j);
    let dt_kw = kw_bytes(Kw::DoctypeOpen);
    let doctype: Option<Doctype>;
    let j3: usize;
    if match_at(s, j1, &dt_kw) {
        match doctype_decl(s, j1) {
            Ok((d, jj)) => {
                doctype = Some(d);
                j3 = jj;
            },
            Err(e) => {
                return Err(e);
            },
        }
    } else {
        doctype = None;
        j3 = j1;
    }
    let (c2, j4) = comment_list(s, j3);
    let mut comments = c1;
    let mut c2m = c2;
    let ghost pre1 = comments.deep_view();
    let ghost pre2 = c2m.deep_view();
    comments.append(&mut c2m);
    proof {
        assert(comments.deep_view() =~= pre1 + pre2);
    }
    Ok((XMLProlog { decl, comments, doctype }, j4))
}

// ---------------------------------------------------------------------------
// Elements and content.
// ---------------------------------------------------------------------------

/// An element: `<` name attributes, then either `/>`, or `>` children
/// `</` the same name `>`.  The close tag must repeat the open tag's name
/// byte for byte, or the element is invalid.
pub open spec fn spec_p_element(s: Seq<u8>, i: int) -> PRes<SpecElement>
    decreases s.len() - i, 0int
        when 0 <= i <= s.len()
{
    match spec_expect_byte(s, i, 60) {
        PRes::Val(_, j1) => match spec_p_name(s, j1) {
            PRes::Val(nm, j2) => if !(i < j2 <= s.len()) {
                PRes::Invalid(i)
            } else {
                let al = spec_p_attr_list(s, j2);
                if !(i < al.1 <= s.len()) {
                    PRes::Invalid(i)
                } else {
                    let j4 = spec_sws(s, al.1);
                    if spec_match_at(s, j4, kw_seq(Kw::EmptyClose)) {
                        PRes::Val(
                            SpecElement { name: nm, attributes: al.0, children: Seq::empty() },
                            j4 + 2,
                        )
                    } else {
                        match spec_expect_byte(s, j4, 62) {
                            PRes::Val(_, j5) => if !(i < j5 <= s.len()) {
                                PRes::Invalid(i)
                            } else {
                                let cs = spec_p_contents(s, j5);
                                if !(i < cs.1 <= s.len()) {
                                    PRes::Invalid(i)
                                } else {
                                    match spec_expect(s, cs.1, kw_seq(Kw::CloseTag)) {
                                        PRes::Val(_, j6) => match spec_expect(s, j6, nm) {
                                            PRes::Val(_, j7) => {
                                                let j8 = spec_sws(s, j7);
                                                match spec_expect_byte(s, j8, 62) {
                                                    PRes::Val(_, j9) => PRes::Val(
                                                        SpecElement {
                                                            name: nm,
                                                            attributes: al.0,
                                                            children: cs.0,
                                                        },
                                                        j9,
                                                    ),
                                                    PRes::Incomplete => PRes::Incomplete,
                                                    PRes::Invalid(p) => PRes::Invalid(p),
                                                }
                                            },
                                            PRes::Incomplete => PRes::Incomplete,
                                            PRes::Invalid(p) => PRes::Invalid(p),
                                        },
                                        PRes::Incomplete => PRes::Incomplete,
                                        PRes::Invalid(p) => PRes::Invalid(p),
                                    }
                                }
                            },
                            PRes::Incomplete => PRes::Incomplete,
                            PRes::Invalid(p) => PRes::Invalid(p),
                        }
                    }
                }
            },
            PRes::Incomplete => PRes::Incomplete,
            PRes::Invalid(p) => PRes::Invalid(p),
        },
        PRes::Incomplete => PRes::Incomplete,
        PRes::Invalid(p) => PRes::Invalid(p),
    }
}

/// One content item, decided by what the next bytes open: a CDATA section or
/// a comment by their delimiters, any other `<` an element, anything else a
/// character-data run.
pub open spec fn spec_p_content(s: Seq<u8>, i: int) -> PRes<SpecContent>
    decreases s.len() - i, 1int
        when 0 <= i <= s.len()
{
    if i >= s.len() {
        PRes::Incomplete
    } else if s[i] == 60 {
        if spec_match_at(s, i, kw_seq(Kw::CdataOpen)) {
            match spec_p_cdata(s, i) {
                PRes::Val(t, j) => PRes::Val(SpecContent::Chars(t), j),
                PRes::Incomplete => PRes::Incomplete,
                PRes::Invalid(p) => PRes::Invalid(p),
            }
        } else if spec_match_at(s, i, kw_seq(Kw::CommentOpen)) {
            match spec_p_comment(s, i) {
                PRes::Val(t, j) => PRes::Val(SpecContent::Comment(t), j),
                PRes::Incomplete => PRes::Incomplete,
                PRes::Invalid(p) => PRes::Invalid(p),
            }
        } else {
            match spec_p_element(s, i) {
                PRes::Val(e, j) => PRes::Val(SpecContent::Element(e), j),
                PRes::Incomplete => PRes::Incomplete,
                PRes::Invalid(p) => PRes::Invalid(p),
            }
        }
    } else {
        match spec_p_chars(s, i) {
            PRes::Val(t, j) => PRes::Val(SpecContent::Chars(t), j),
            PRes::Incomplete => PRes::Incomplete,
            PRes::Invalid(p) => PRes::Invalid(p),
        }
    }
}

/// A possibly empty run of content items, each preceded by insignificant
/// whitespace.  Never fails: it stops (after the skipped whitespace) before
/// the first position where no content item parses.
pub open spec fn spec_p_contents(s: Seq<u8>, i: int) -> (Seq<SpecContent>, int)
    decreases s.len() - i, 2int
        when 0 <= i <= s.len()
{
    let j0 = spec_sws(s, i);
    if !(i <= j0 <= s.len()) {
        (Seq::empty(), i)
    } else {
        match spec_p_content(s, j0) {
            PRes::Val(c, j) => if j0 < j <= s.len() {
                let r = spec_p_contents(s, j);
                (seq![c] + r.0, r.1)
            } else {
                (seq![c], j)
            },
            _ => (Seq::empty(), j0),
        }
    }
}

/// Parse an element.
pub fn element(s: &[u8], i: usize) -> (r: Result<(Element, usize), ParseError>)
    requires
        i <= s@.len(),
    ensures
        res_view(r) == spec_p_element(s@, i as int),
        ok_in_bounds(r, i as int, s@.len() as int),
    decreases s@.len() - i, 0int,
{
    match expect_byte(s, i, 60) {
        Ok(j1) => match name(s, j1) {
            Ok((nm, j2)) => {
                let n = s.len();
                let (attrs, j3) = attr_list(s, j2);
                let j4 = skip_ws(s, j3);
                let empty_close = kw_bytes(Kw::EmptyClose);
                if match_at(s, j4, &empty_close) {
                    proof {
                        assert(j4 + 2 <= n);
                    }
                    let elem = Element { name: nm, attributes: attrs, children: Vec::new() };
                    proof {
                        assert(view_contents(elem.children@) =~= Seq::<SpecContent>::empty());
                    }
                    Ok((elem, j4 + 2))
                } else {
                    match expect_byte(s, j4, 62) {
                        Ok(j5) => {
                            let (children, j6) = contents(s, j5);
                            let close_tag = kw_bytes(Kw::CloseTag);
                            match expect_lit(s, j6, &close_tag) {
                                Ok(j7) => match expect_lit(s, j7, &nm) {
                                    Ok(j8) => {
                                        let j9 = skip_ws(s, j8);
                                        match expect_byte(s, j9, 62) {
                                            Ok(j10) => Ok(
                                                (
                                                    Element {
                                                        name: nm,
                                                        attributes: attrs,
                                                        children,
                                                    },
                                                    j10,
                                                ),
                                            ),
                                            Err(e) => Err(e),
                                        }
                                    },
                                    Err(e) => Err(e),
                                },
                                Err(e) => Err(e),
                            }
                        },
                        Err(e) => Err(e),
                    }
                }
            },
            Err(e) => Err(e),
        },
        Err(e) => Err(e),
    }
}

/// Parse one content item.
pub fn content(s: &[u8], i: usize) -> (r: Result<(Content, usize), ParseError>)
    requires
        i <= s@.len(),
    ensures
        res_view(r) == spec_p_content(s@, i as int),
        ok_in_bounds(r, i as int, s@.len() as int),
    decreases s@.len() - i, 1int,
{
    if i >= s.len() {
        return Err(ParseError::Incomplete);
    }
    if s[i] == 60 {
        let cdata_open = kw_bytes(Kw::CdataOpen);
        let comment_open = kw_bytes(Kw::CommentOpen);
        if match_at(s, i, &cdata_open) {
            match cdata(s, i) {
                Ok((t, j)) => Ok((Content::Chars(t), j)),
                Err(e) => Err(e),
            }
        } else if match_at(s, i, &comment_open) {
            match comment(s, i) {
                Ok((t, j)) => Ok((Content::Comment(Comment(t)), j)),
                Err(e) => Err(e),
            }
        } else {
            match element(s, i) {
                Ok((e, j)) => Ok((Content::Element(e), j)),
                Err(e) => Err(e),
            }
        }
    } else {
        match node_value(s, i) {
            Ok((t, j)) => Ok((Content::Chars(t), j)),
            Err(e) => Err(e),
        }
    }
}

/// Parse a run of content items.
pub fn contents(s: &[u8], i: usize) -> (r: (Vec<Content>, usize))
    requires
        i <= s@.len(),
    ensures
        view_contents(r.0@) == spec_p_contents(s@, i as int).0,
        r.1 as int == spec_p_contents(s@, i as int).1,
        i <= r.1 <= s@.len(),
    decreases s@.len() - i, 2int,
{
    let j0 = skip_ws(s, i);
    match content(s, j0) {
        Ok((c, j)) => {
            if j0 < j {
                let (mut rest, e) = contents(s, j);
                let ghost pre = rest@;
                rest.insert(0, c);
                proof {
                    assert(rest@.first() == c);
                    assert(rest@.drop_first() =~= pre);
                    assert(view_contents(rest@) == seq![view_content(c)] + view_contents(pre));
                }
                (rest, e)
            } else {
                let mut v: Vec<Content> = Vec::new();
                v.push(c);
                proof {
                    assert(v@.first() == c);
                    assert(v@.drop_first() =~= Seq::<Content>::empty());
                    assert(view_contents(Seq::<Content>::empty()) =~= Seq::<
                        SpecContent,
                    >::empty());
                    assert(view_contents(v@) =~= seq![view_content(c)]);
                }
                (v, j)
            }
        },
        Err(_) => {
            let v: Vec<Content> = Vec::new();
            proof {
                assert(view_contents(v@) =~= Seq::<SpecContent>::empty());
            }
            (v, j0)
        },
    }
}

// ---------------------------------------------------------------------------
// Whole documents.
// ---------------------------------------------------------------------------

/// A whole document: prolog, root element, trailing comments, and nothing
/// else — any bytes left over make the document invalid.
pub open spec fn spec_parse_xml_doc(s: Seq<u8>) -> PRes<SpecXMLDoc> {
    match spec_p_prolog(s, 0) {
        PRes::Val(pro, j) => if !(0 <= j <= s.len()) {
            PRes::Invalid(0)
        } else {
            match spec_p_element(s, j) {
                PRes::Val(root, j1) => if !(0 <= j1 <= s.len()) {
                    PRes::Invalid(0)
                } else {
                    let m = spec_p_comment_list(s, j1);
                    if m.1 == s.len() {
                        PRes::Val(
                            SpecXMLDoc { prolog: pro, root, misc: m.0 },
                            s.len() as int,
                        )
                    } else {
                        PRes::Invalid(m.1)
                    }
                },
                PRes::Incomplete => PRes::Incomplete,
                PRes::Invalid(p) => PRes::Invalid(p),
            }
        },
        PRes::Incomplete => PRes::Incomplete,
        PRes::Invalid(p) => PRes::Invalid(p),
    }
}

impl XMLDoc {
    /// Parse a whole document from raw bytes.  The result is exactly what
    /// the grammar `spec_parse_xml_doc` assigns to the input: a document
    /// value when the whole input matches, `Incomplete` when the input ended
    /// where more bytes could have extended a match, and `Invalid` at the
    /// offending byte otherwise.
    pub fn parse(doc: &[u8]) -> (r: Result<XMLDoc, ParseError>)
        ensures
            match r {
                Ok(d) => spec_parse_xml_doc(doc@) == PRes::Val(
                    d.deep_view(),
                    doc@.len() as int,
                ),
                Err(ParseError::Incomplete) => spec_parse_xml_doc(doc@) is Incomplete,
                Err(ParseError::Invalid(p)) => spec_parse_xml_doc(doc@) == PRes::<
                    SpecXMLDoc,
                >::Invalid(p as int),
            },
    {
        match xml_prolog(doc, 0) {
            Ok((pro, j)) => match element(doc, j) {
                Ok((root, j1)) => {
                    let (misc, j2) = comment_list(doc, j1);
                    if j2 == doc.len() {
                        Ok(XMLDoc { prolog: pro, root, misc })
                    } else {
                        Err(ParseError::Invalid(j2))
                    }
                },
                Err(e) => Err(e),
            },
            Err(e) => Err(e),
        }
    }
}

} // verus!
