//! The SVG scene: a tree of groups and flattened paths built from a parsed
//! XML document, with bounding-box aggregation and the export helpers.
//!
//! `<svg>` roots the scene; each `<g>` child becomes a group, each `<path>`
//! child has its `d` attribute parsed and flattened into polygons; anything
//! else is dropped.  A `transform="translate(dx,dy)"` attribute on a
//! recognized element translates every point beneath it once; any other
//! transform value is ignored.

use vstd::prelude::*;
use crate::geom::{
    BoundingBox, Point, Polygon, SpecPolygon, degenerate_box, spec_box_union,
    spec_points_bounding, spec_to_rect, spec_translate, Bounding,
};
use crate::parser::{
    Attribute, Content, Element, SpecAttribute, SpecContent, SpecElement, SpecXMLDoc, XMLDoc,
    view_contents,
};
use crate::path::{Path, SpecMoveTo, spec_draw_path, spec_parse_path};
use crate::prim::{Kw, PRes, kw_bytes, kw_seq, vec_u8_eq};

verus! {

broadcast use crate::prim::lemma_vec_u8_deep_view;

// ---------------------------------------------------------------------------
// The scene tree and its mathematical shadow.
// ---------------------------------------------------------------------------

/// A scene node: a flattened path (its polygons) or a group of nodes.
#[derive(Debug)]
pub enum Node {
    Path(Vec<Polygon>),
    Group(Vec<Node>),
}

/// The top-level scene: the nodes found directly under the `<svg>` root.
#[derive(Debug)]
pub struct Root(pub Vec<Node>);

/// Shadow of `Node`.
pub enum SpecNode {
    Path(Seq<SpecPolygon>),
    Group(Seq<SpecNode>),
}

/// Shadow of a `Node` value, recursively.
pub open spec fn view_node(n: Node) -> SpecNode
    decreases n,
    via view_node_decreases
{
    match n {
        Node::Path(ps) => SpecNode::Path(ps.deep_view()),
        Node::Group(cs) => SpecNode::Group(view_nodes(cs@)),
    }
}

#[via_fn]
proof fn view_node_decreases(n: Node) {
    match n {
        Node::Path(ps) => {
        },
        Node::Group(cs) => {
            assert(decreases_to!(n => cs));
            assert(decreases_to!(cs => cs@));
        },
    }
}

/// Shadow of a sequence of `Node` values, elementwise.
pub open spec fn view_nodes(s: Seq<Node>) -> Seq<SpecNode>
    decreases s,
{
    if s.len() == 0 {
        Seq::empty()
    } else {
        seq![view_node(s.first())] + view_nodes(s.drop_first())
    }
}

impl DeepView for Node {
    type V = SpecNode;

    open spec fn deep_view(&self) -> SpecNode {
        view_node(*self)
    }
}

impl DeepView for Root {
    type V = Seq<SpecNode>;

    open spec fn deep_view(&self) -> Seq<SpecNode> {
        view_nodes(self.0@)
    }
}

/// `view_nodes` maps elementwise.
pub proof fn lemma_view_nodes_props(s: Seq<Node>)
    ensures
        view_nodes(s).len() == s.len(),
        forall|i: int| 0 <= i < s.len() ==> view_nodes(s)[i] == view_node(s[i]),
    decreases s.len(),
{
    if s.len() > 0 {
        lemma_view_nodes_props(s.drop_first());
    }
}

pub proof fn lemma_view_nodes_push(s: Seq<Node>, x: Node)
    ensures
        view_nodes(s.push(x)) == view_nodes(s).push(view_node(x)),
    decreases s.len(),
{
    if s.len() == 0 {
        assert(s.push(x).first() == x);
        assert(s.push(x).drop_first() =~= Seq::<Node>::empty());
        assert(view_nodes(Seq::<Node>::empty()) =~= Seq::<SpecNode>::empty());
        assert(view_nodes(s.push(x)) =~= view_nodes(s).push(view_node(x)));
    } else {
        assert(s.push(x).first() == s.first());
        assert(s.push(x).drop_first() =~= s.drop_first().push(x));
        lemma_view_nodes_push(s.drop_first(), x);
        assert(view_nodes(s.push(x)) =~= view_nodes(s).push(view_node(x)));
    }
}

// ---------------------------------------------------------------------------
// Attribute lookup and the transform attribute.
// ---------------------------------------------------------------------------

/// Index of the first attribute with the given name.
pub open spec fn spec_find_attr(attrs: Seq<SpecAttribute>, name: Seq<u8>) -> Option<int>
    decreases attrs.len(),
{
    if attrs.len() == 0 {
        None
    } else if attrs.first().name == name {
        Some(0)
    } else {
        match spec_find_attr(attrs.drop_first(), name) {
            Some(i) => Some(i + 1),
            None => None,
        }
    }
}

/// Find the first attribute with the given name.
fn find_attr(attrs: &Vec<Attribute>, name: &Vec<u8>) -> (r: Option<usize>)
    ensures
        match r {
            Some(i) => spec_find_attr(attrs.deep_view(), name@) == Some(i as int) && i
                < attrs@.len() && attrs@[i as int].name@ == name@,
            None => spec_find_attr(attrs.deep_view(), name@) is None,
        },
{
    let mut k: usize = 0;
    proof {
        assert(attrs.deep_view().subrange(0, attrs.deep_view().len() as int)
            =~= attrs.deep_view());
    }
    while k < attrs.len()
        invariant
            k <= attrs@.len(),
            attrs.deep_view().len() == attrs@.len(),
            forall|m: int| 0 <= m < attrs@.len() ==> attrs.deep_view()[m]
                == attrs@[m].deep_view(),
            spec_find_attr(attrs.deep_view(), name@) == match spec_find_attr(
                attrs.deep_view().subrange(k as int, attrs@.len() as int),
                name@,
            ) {
                Some(i) => Some(i + k),
                None => None,
            },
        decreases attrs@.len() - k,
    {
        let hit = vec_u8_eq(&attrs[k].name, name);
        proof {
            let rest = attrs.deep_view().subrange(k as int, attrs@.len() as int);
            assert(rest.first() == attrs.deep_view()[k as int]);
            assert(rest.drop_first() =~= attrs.deep_view().subrange(
                k + 1 as int,
                attrs@.len() as int,
            ));
        }
        if hit {
            return Some(k);
        }
        k = k + 1;
    }
    proof {
        assert(attrs.deep_view().subrange(attrs@.len() as int, attrs@.len() as int) =~= Seq::<
            SpecAttribute,
        >::empty());
    }
    None
}

/// The value of a `transform` attribute, when it is exactly
/// `translate(<dx> <,/whitespace> <dy>)`: the two offsets.  Anything else is
/// treated as no transform.
pub open spec fn spec_p_translate(v: Seq<u8>) -> Option<(i64, i64)> {
    match crate::prim::spec_expect(v, 0, kw_seq(Kw::TranslateOpen)) {
        PRes::Val(_, j0) => match crate::num::spec_p_number(v, j0) {
            PRes::Val(dx, j1) => {
                let j2 = match crate::path::spec_p_comma_wsp(v, j1) {
                    PRes::Val(_, k) => k,
                    _ => j1,
                };
                match crate::num::spec_p_number(v, j2) {
                    PRes::Val(dy, j3) => match crate::prim::spec_expect_byte(v, j3, 41) {
                        PRes::Val(_, j4) => if j4 == v.len() {
                            Some((dx, dy))
                        } else {
                            None
                        },
                        _ => None,
                    },
                    _ => None,
                }
            },
            _ => None,
        },
        _ => None,
    }
}

/// Parse a `translate(dx,dy)` transform value.
fn parse_translate(v: &Vec<u8>) -> (r: Option<(i64, i64)>)
    ensures
        r == spec_p_translate(v@),
{
    let s = v.as_slice();
    let open = kw_bytes(Kw::TranslateOpen);
    match crate::prim::expect_lit(s, 0, &open) {
        Ok(j0) => match crate::num::number(s, j0) {
            Ok((dx, j1)) => {
                let j2 = match crate::path::comma_wsp(s, j1) {
                    Ok(k) => k,
                    Err(_) => j1,
                };
                match crate::num::number(s, j2) {
                    Ok((dy, j3)) => match crate::prim::expect_byte(s, j3, 41) {
                        Ok(j4) => if j4 == v.len() {
                            Some((dx, dy))
                        } else {
                            None
                        },
                        Err(_) => None,
                    },
                    Err(_) => None,
                }
            },
            Err(_) => None,
        },
        Err(_) => None,
    }
}

/// The translation an element asks for: its `transform` attribute's offsets,
/// when present and well-formed.
pub open spec fn spec_elem_translate(e: SpecElement) -> Option<(i64, i64)> {
    match spec_find_attr(e.attributes, kw_seq(Kw::Transform)) {
        Some(i) => if 0 <= i < e.attributes.len() {
            spec_p_translate(e.attributes[i].value)
        } else {
            None
        },
        None => None,
    }
}

/// Read an element's translation request.
fn translate(node: &Element) -> (r: Option<(i64, i64)>)
    ensures
        r == spec_elem_translate(node.deep_view()),
{
    let name = kw_bytes(Kw::Transform);
    match find_attr(&node.attributes, &name) {
        Some(i) => {
            proof {
                assert(node.attributes.deep_view()[i as int] == node.attributes@[i as int]
                    .deep_view());
            }
            parse_translate(&node.attributes[i].value)
        },
        None => None,
    }
}

// ---------------------------------------------------------------------------
// Translation of a subtree.
// ---------------------------------------------------------------------------

/// A polygon, translated.
pub open spec fn spec_polygon_translate(p: SpecPolygon, d: Point) -> SpecPolygon {
    SpecPolygon { closed: p.closed, points: p.points.map_values(|q: Point| spec_translate(q, d)) }
}

/// A node with every point beneath it translated by `d`.
pub open spec fn spec_node_translate(n: SpecNode, d: Point) -> SpecNode
    decreases n,
{
    match n {
        SpecNode::Path(ps) => SpecNode::Path(
            Seq::new(ps.len(), |i: int| spec_polygon_translate(ps[i], d)),
        ),
        SpecNode::Group(cs) => SpecNode::Group(spec_nodes_translate(cs, d)),
    }
}

/// A node list with every point beneath it translated by `d`.
pub open spec fn spec_nodes_translate(s: Seq<SpecNode>, d: Point) -> Seq<SpecNode>
    decreases s,
{
    if s.len() == 0 {
        Seq::empty()
    } else {
        seq![spec_node_translate(s.first(), d)] + spec_nodes_translate(s.drop_first(), d)
    }
}

pub proof fn lemma_nodes_translate_push(s: Seq<SpecNode>, d: Point, x: SpecNode)
    ensures
        spec_nodes_translate(s.push(x), d) == spec_nodes_translate(s, d).push(
            spec_node_translate(x, d),
        ),
    decreases s.len(),
{
    if s.len() == 0 {
        assert(s.push(x).first() == x);
        assert(s.push(x).drop_first() =~= Seq::<SpecNode>::empty());
        assert(spec_nodes_translate(Seq::<SpecNode>::empty(), d) =~= Seq::<SpecNode>::empty());
        assert(spec_nodes_translate(s.push(x), d) =~= spec_nodes_translate(s, d).push(
            spec_node_translate(x, d),
        ));
    } else {
        assert(s.push(x).first() == s.first());
        assert(s.push(x).drop_first() =~= s.drop_first().push(x));
        lemma_nodes_translate_push(s.drop_first(), d, x);
        assert(spec_nodes_translate(s.push(x), d) =~= spec_nodes_translate(s, d).push(
            spec_node_translate(x, d),
        ));
    }
}

/// Rebuild a node with every point beneath it translated.
#[verifier::loop_isolation(false)]
fn translate_node(n: &Node, dx: i64, dy: i64) -> (r: Node)
    ensures
        r.deep_view() == spec_node_translate(n.deep_view(), Point(dx, dy)),
    decreases *n,
{
    match n {
        Node::Path(ps) => {
            let mut out: Vec<Polygon> = Vec::new();
            let mut k: usize = 0;
            while k < ps.len()
                invariant
                    k <= ps@.len(),
                    out@.len() == k,
                    forall|i: int| 0 <= i < k ==> out@[i].deep_view() == spec_polygon_translate(
                        ps.deep_view()[i],
                        Point(dx, dy),
                    ),
                decreases ps@.len() - k,
            {
                let p = &ps[k];
                let mut q: Vec<Point> = Vec::new();
                let mut m: usize = 0;
                while m < p.points.len()
                    invariant
                        m <= p.points@.len(),
                        q@.len() == m,
                        forall|i: int| 0 <= i < m ==> q@[i] == spec_translate(
                            p.points@[i],
                            Point(dx, dy),
                        ),
                    decreases p.points@.len() - m,
                {
                    q.push(p.points[m].translate(Point(dx, dy)));
                    m = m + 1;
                }
                proof {
                    assert(ps.deep_view()[k as int] == ps@[k as int].deep_view());
                    assert(q@ =~= ps.deep_view()[k as int].points.map_values(
                        |pt: Point| spec_translate(pt, Point(dx, dy)),
                    ));
                }
                out.push(Polygon { closed: p.closed, points: q });
                proof {
                    assert(out@[k as int].deep_view() == spec_polygon_translate(
                        ps.deep_view()[k as int],
                        Point(dx, dy),
                    ));
                }
                k = k + 1;
            }
            proof {
                assert(ps.deep_view().len() == ps@.len());
                assert(out.deep_view() =~= Seq::new(
                    ps.deep_view().len(),
                    |i: int| spec_polygon_translate(ps.deep_view()[i], Point(dx, dy)),
                ));
            }
            Node::Path(out)
        },
        Node::Group(cs) => {
            let mut out: Vec<Node> = Vec::new();
            let mut k: usize = 0;
            proof {
                assert(spec_nodes_translate(
                    view_nodes(cs@.subrange(0, 0)),
                    Point(dx, dy),
                ) =~= Seq::<SpecNode>::empty());
                assert(view_nodes(out@) =~= Seq::<SpecNode>::empty());
            }
            while k < cs.len()
                invariant
                    k <= cs@.len(),
                    view_nodes(out@) == spec_nodes_translate(
                        view_nodes(cs@.subrange(0, k as int)),
                        Point(dx, dy),
                    ),
                decreases cs@.len() - k,
            {
                proof {
                    assert(decreases_to!(*n => *cs));
                    assert(decreases_to!(*cs => cs@));
                    assert(decreases_to!(cs@ => cs@[k as int]));
                }
                let t = translate_node(&cs[k], dx, dy);
                let ghost pre = out@;
                out.push(t);
                proof {
                    lemma_view_nodes_push(pre, t);
                    lemma_view_nodes_push(cs@.subrange(0, k as int), cs@[k as int]);
                    assert(cs@.subrange(0, k + 1 as int) =~= cs@.subrange(0, k as int).push(
                        cs@[k as int],
                    ));
                    lemma_nodes_translate_push(
                        view_nodes(cs@.subrange(0, k as int)),
                        Point(dx, dy),
                        view_node(cs@[k as int]),
                    );
                }
                k = k + 1;
            }
            proof {
                assert(cs@.subrange(0, cs@.len() as int) =~= cs@);
            }
            Node::Group(out)
        },
    }
}

// ---------------------------------------------------------------------------
// Building the scene from a document.
// ---------------------------------------------------------------------------

/// The scene node an element denotes: a group for `<g>` (recursing into its
/// children), flattened geometry for `<path>` (parsing its `d` attribute, or
/// the empty string when absent), nothing for any other tag; a `<path>`
/// whose `d` attribute fails to parse is dropped.  A well-formed
/// `translate` transform on the element then translates the whole subtree.
pub open spec fn spec_node_from_element(e: SpecElement) -> Option<SpecNode>
    decreases e,
{
    let base: Option<SpecNode> = if e.name == kw_seq(Kw::GroupTag) {
        Some(SpecNode::Group(spec_nodes_from_children(e.children)))
    } else if e.name == kw_seq(Kw::PathTag) {
        let d = match spec_find_attr(e.attributes, kw_seq(Kw::DName)) {
            Some(i) => if 0 <= i < e.attributes.len() {
                e.attributes[i].value
            } else {
                Seq::empty()
            },
            None => Seq::empty(),
        };
        match spec_parse_path(d) {
            PRes::Val(gs, _) => Some(SpecNode::Path(spec_draw_path(gs, Point(0, 0)).1)),
            _ => None,
        }
    } else {
        None
    };
    match base {
        Some(n) => match spec_elem_translate(e) {
            Some(dd) => Some(spec_node_translate(n, Point(dd.0, dd.1))),
            None => Some(n),
        },
        None => None,
    }
}

/// The scene nodes an element's children denote, in order; children that are
/// not recognized elements are dropped.
pub open spec fn spec_nodes_from_children(cs: Seq<SpecContent>) -> Seq<SpecNode>
    decreases cs,
{
    if cs.len() == 0 {
        Seq::empty()
    } else {
        let rest = spec_nodes_from_children(cs.drop_first());
        match cs.first() {
            SpecContent::Element(e) => match spec_node_from_element(e) {
                Some(n) => seq![n] + rest,
                None => rest,
            },
            _ => rest,
        }
    }
}

pub proof fn lemma_children_push(cs: Seq<SpecContent>, x: SpecContent)
    ensures
        spec_nodes_from_children(cs.push(x)) == spec_nodes_from_children(cs) + (match x {
            SpecContent::Element(e) => match spec_node_from_element(e) {
                Some(n) => seq![n],
                None => Seq::<SpecNode>::empty(),
            },
            _ => Seq::<SpecNode>::empty(),
        }),
    decreases cs.len(),
{
    let tail = (match x {
        SpecContent::Element(e) => match spec_node_from_element(e) {
            Some(n) => seq![n],
            None => Seq::<SpecNode>::empty(),
        },
        _ => Seq::<SpecNode>::empty(),
    });
    if cs.len() == 0 {
        assert(cs.push(x).first() == x);
        assert(cs.push(x).drop_first() =~= Seq::<SpecContent>::empty());
        assert(spec_nodes_from_children(Seq::<SpecContent>::empty()) =~= Seq::<SpecNode>::empty());
        assert(spec_nodes_from_children(cs.push(x)) =~= spec_nodes_from_children(cs) + tail);
    } else {
        assert(cs.push(x).first() == cs.first());
        assert(cs.push(x).drop_first() =~= cs.drop_first().push(x));
        lemma_children_push(cs.drop_first(), x);
        assert(spec_nodes_from_children(cs.push(x)) =~= spec_nodes_from_children(cs) + tail);
    }
}

/// The scene a document denotes: the nodes under its root element, which
/// must be named `svg`.
pub open spec fn spec_scene_from_doc(d: SpecXMLDoc) -> Option<Seq<SpecNode>> {
    if d.root.name == kw_seq(Kw::Svg) {
        Some(spec_nodes_from_children(d.root.children))
    } else {
        None
    }
}

/// Build the scene node an element denotes.
#[verifier::loop_isolation(false)]
fn from_xml_node(e: &Element) -> (r: Option<Node>)
    ensures
        match r {
            Some(n) => spec_node_from_element(e.deep_view()) == Some(n.deep_view()),
            None => spec_node_from_element(e.deep_view()) is None,
        },
    decreases *e, 1int,
{
    let delta = translate(e);
    let gkw = kw_bytes(Kw::GroupTag);
    let pkw = kw_bytes(Kw::PathTag);
    let base: Option<Node> = if vec_u8_eq(&e.name, &gkw) {
        proof {
            assert(decreases_to!(*e => e.children));
        }
        Some(Node::Group(list_from_children(&e.children)))
    } else if vec_u8_eq(&e.name, &pkw) {
        let dkw = kw_bytes(Kw::DName);
        let parsed: Result<Path, crate::prim::ParseError> = match find_attr(&e.attributes, &dkw) {
            Some(i) => {
                proof {
                    assert(e.attributes.deep_view()[i as int] == e.attributes@[i as int]
                        .deep_view());
                }
                Path::parse(e.attributes[i].value.as_slice())
            },
            None => {
                let empty: Vec<u8> = Vec::new();
                Path::parse(empty.as_slice())
            },
        };
        match parsed {
            Ok(p) => Some(Node::Path(p.draw())),
            Err(_) => None,
        }
    } else {
        None
    };
    match base {
        Some(n) => match delta {
            Some((dx, dy)) => Some(translate_node(&n, dx, dy)),
            None => Some(n),
        },
        None => None,
    }
}

/// Build the scene nodes of an element's children.
#[verifier::loop_isolation(false)]
fn list_from_children(cs: &Vec<Content>) -> (r: Vec<Node>)
    ensures
        view_nodes(r@) == spec_nodes_from_children(view_contents(cs@)),
    decreases *cs, 0int,
{
    let mut out: Vec<Node> = Vec::new();
    let mut k: usize = 0;
    proof {
        crate::parser::lemma_view_contents_props(cs@);
        assert(view_contents(cs@.subrange(0, 0)) =~= Seq::<SpecContent>::empty());
        assert(spec_nodes_from_children(Seq::<SpecContent>::empty()) =~= Seq::<SpecNode>::empty());
        assert(view_nodes(out@) =~= Seq::<SpecNode>::empty());
    }
    while k < cs.len()
        invariant
            k <= cs@.len(),
            view_nodes(out@) == spec_nodes_from_children(view_contents(cs@.subrange(0, k as int))),
        decreases cs@.len() - k,
    {
        let ghost prefix = view_contents(cs@.subrange(0, k as int));
        proof {
            assert(cs@.subrange(0, k + 1 as int) =~= cs@.subrange(0, k as int).push(
                cs@[k as int],
            ));
            crate::parser::lemma_view_contents_push(cs@.subrange(0, k as int), cs@[k as int]);
            lemma_children_push(prefix, crate::parser::view_content(cs@[k as int]));
        }
        match &cs[k] {
            Content::Element(elem) => {
                proof {
                    assert(decreases_to!(*cs => cs@));
                    assert(decreases_to!(cs@ => cs@[k as int]));
                    assert(cs@[k as int] == Content::Element(*elem));
                    assert(decreases_to!(cs@[k as int] => *elem));
                }
                match from_xml_node(elem) {
                    Some(n) => {
                        let ghost pre = out@;
                        out.push(n);
                        proof {
                            lemma_view_nodes_push(pre, n);
                            assert(view_nodes(out@) =~= spec_nodes_from_children(
                                view_contents(cs@.subrange(0, k + 1 as int)),
                            ));
                        }
                    },
                    None => {
                        proof {
                            assert(view_nodes(out@) =~= spec_nodes_from_children(
                                view_contents(cs@.subrange(0, k + 1 as int)),
                            ));
                        }
                    },
                }
            },
            _ => {
                proof {
                    assert(view_nodes(out@) =~= spec_nodes_from_children(
                        view_contents(cs@.subrange(0, k + 1 as int)),
                    ));
                }
            },
        }
        k = k + 1;
    }
    proof {
        assert(cs@.subrange(0, cs@.len() as int) =~= cs@);
    }
    out
}

impl Node {
    /// Build the scene of a parsed document.  Yields `None` exactly when the
    /// root element is not named `svg`.
    pub fn from_xml_doc(doc: XMLDoc) -> (r: Option<Root>)
        ensures
            match r {
                Some(root) => spec_scene_from_doc(doc.deep_view()) == Some(root.deep_view()),
                None => spec_scene_from_doc(doc.deep_view()) is None,
            },
    {
        let svg_kw = kw_bytes(Kw::Svg);
        if vec_u8_eq(&doc.root.name, &svg_kw) {
            Some(Root(list_from_children(&doc.root.children)))
        } else {
            None
        }
    }
}

// ---------------------------------------------------------------------------
// Bounding boxes over the scene.
// ---------------------------------------------------------------------------

/// Box aggregation over polygons, folded left from the degenerate box.
pub open spec fn spec_polys_bounding(ps: Seq<SpecPolygon>) -> BoundingBox
    decreases ps.len(),
{
    if ps.len() == 0 {
        degenerate_box()
    } else {
        spec_box_union(spec_polys_bounding(ps.drop_last()), spec_points_bounding(ps.last().points))
    }
}

/// The box a scene node occupies.
pub open spec fn spec_node_bounding(n: SpecNode) -> BoundingBox
    decreases n, 0int,
{
    match n {
        SpecNode::Path(ps) => spec_polys_bounding(ps),
        SpecNode::Group(cs) => spec_nodes_bounding(cs),
    }
}

/// Box aggregation over scene nodes, folded left from the degenerate box.
pub open spec fn spec_nodes_bounding(s: Seq<SpecNode>) -> BoundingBox
    decreases s, 1int,
{
    if s.len() == 0 {
        degenerate_box()
    } else {
        spec_box_union(spec_nodes_bounding(s.drop_last()), spec_node_bounding(s.last()))
    }
}

/// Compute a node's bounding box.
#[verifier::loop_isolation(false)]
fn node_bounding(n: &Node) -> (r: BoundingBox)
    ensures
        r == spec_node_bounding(n.deep_view()),
    decreases *n,
{
    match n {
        Node::Path(ps) => {
            let mut acc = BoundingBox::degenerate();
            let mut k: usize = 0;
            proof {
                assert(ps.deep_view().subrange(0, 0) =~= Seq::<SpecPolygon>::empty());
            }
            while k < ps.len()
                invariant
                    k <= ps@.len(),
                    ps.deep_view().len() == ps@.len(),
                    acc == spec_polys_bounding(ps.deep_view().subrange(0, k as int)),
                decreases ps@.len() - k,
            {
                let b = ps[k].bounding();
                proof {
                    assert(ps.deep_view()[k as int] == ps@[k as int].deep_view());
                    assert(ps.deep_view().subrange(0, k + 1 as int).drop_last()
                        =~= ps.deep_view().subrange(0, k as int));
                    assert(ps.deep_view().subrange(0, k + 1 as int).last() == ps.deep_view()[
                        k as int
                    ]);
                }
                acc = BoundingBox(acc.0.min(b.0), acc.1.max(b.1));
                k = k + 1;
            }
            proof {
                assert(ps.deep_view().subrange(0, ps.deep_view().len() as int)
                    =~= ps.deep_view());
            }
            acc
        },
        Node::Group(cs) => {
            let mut acc = BoundingBox::degenerate();
            let mut k: usize = 0;
            proof {
                lemma_view_nodes_props(cs@);
                assert(view_nodes(cs@).subrange(0, 0) =~= Seq::<SpecNode>::empty());
            }
            while k < cs.len()
                invariant
                    k <= cs@.len(),
                    view_nodes(cs@).len() == cs@.len(),
                    forall|i: int| 0 <= i < cs@.len() ==> view_nodes(cs@)[i] == view_node(
                        cs@[i],
                    ),
                    acc == spec_nodes_bounding(view_nodes(cs@).subrange(0, k as int)),
                decreases cs@.len() - k,
            {
                proof {
                    assert(decreases_to!(*n => *cs));
                    assert(decreases_to!(*cs => cs@));
                    assert(decreases_to!(cs@ => cs@[k as int]));
                }
                let b = node_bounding(&cs[k]);
                proof {
                    assert(view_nodes(cs@).subrange(0, k + 1 as int).drop_last() =~= view_nodes(
                        cs@,
                    ).subrange(0, k as int));
                    assert(view_nodes(cs@).subrange(0, k + 1 as int).last() == view_nodes(cs@)[
                        k as int
                    ]);
                }
                acc = BoundingBox(acc.0.min(b.0), acc.1.max(b.1));
                k = k + 1;
            }
            proof {
                assert(view_nodes(cs@).subrange(0, view_nodes(cs@).len() as int) =~= view_nodes(
                    cs@,
                ));
            }
            acc
        },
    }
}

impl Bounding for Node {
    open spec fn spec_bounding(&self) -> BoundingBox {
        spec_node_bounding(self.deep_view())
    }

    fn bounding(&self) -> (r: BoundingBox) {
        node_bounding(self)
    }
}

// ---------------------------------------------------------------------------
// Simplification and export helpers.
// ---------------------------------------------------------------------------

/// The top-level node list after collapsing a singleton group: a root whose
/// only child is a group stands for that group's children.
pub open spec fn spec_simplified(ns: Seq<SpecNode>) -> Seq<SpecNode> {
    if ns.len() == 1 {
        match ns[0] {
            SpecNode::Group(cs) => cs,
            _ => ns,
        }
    } else {
        ns
    }
}

impl Root {
    /// Collapse a top-level singleton group into its children.
    pub fn simplify(self) -> (r: Vec<Node>)
        ensures
            view_nodes(r@) == spec_simplified(self.deep_view()),
    {
        let ghost orig = self.0@;
        proof {
            lemma_view_nodes_props(orig);
        }
        let mut v = self.0;
        if v.len() == 1 {
            let first = v.pop();
            match first {
                Some(n) => {
                    proof {
                        assert(n == orig[0]);
                        assert(view_nodes(orig)[0] == view_node(n));
                    }
                    match n {
                        Node::Group(cs) => cs,
                        other => {
                            v.push(other);
                            proof {
                                assert(v@ =~= orig);
                            }
                            v
                        },
                    }
                },
                None => {
                    proof {
                        assert(false);
                    }
                    v
                },
            }
        } else {
            v
        }
    }
}

/// All polygons beneath a node, in document order.
pub open spec fn spec_node_polygons(n: SpecNode) -> Seq<SpecPolygon>
    decreases n, 0int,
{
    match n {
        SpecNode::Path(ps) => ps,
        SpecNode::Group(cs) => spec_nodes_polygons(cs),
    }
}

/// All polygons beneath a node list, in document order.
pub open spec fn spec_nodes_polygons(s: Seq<SpecNode>) -> Seq<SpecPolygon>
    decreases s, 1int,
{
    if s.len() == 0 {
        Seq::empty()
    } else {
        spec_node_polygons(s.first()) + spec_nodes_polygons(s.drop_first())
    }
}

pub proof fn lemma_nodes_polygons_push(s: Seq<SpecNode>, x: SpecNode)
    ensures
        spec_nodes_polygons(s.push(x)) == spec_nodes_polygons(s) + spec_node_polygons(x),
    decreases s.len(),
{
    if s.len() == 0 {
        assert(s.push(x).first() == x);
        assert(s.push(x).drop_first() =~= Seq::<SpecNode>::empty());
        assert(spec_nodes_polygons(Seq::<SpecNode>::empty()) =~= Seq::<SpecPolygon>::empty());
        assert(spec_nodes_polygons(s.push(x)) =~= spec_nodes_polygons(s) + spec_node_polygons(x));
    } else {
        assert(s.push(x).first() == s.first());
        assert(s.push(x).drop_first() =~= s.drop_first().push(x));
        lemma_nodes_polygons_push(s.drop_first(), x);
        assert(spec_nodes_polygons(s.push(x)) =~= spec_nodes_polygons(s) + spec_node_polygons(x));
    }
}

/// Duplicate a polygon.
fn copy_polygon(p: &Polygon) -> (r: Polygon)
    ensures
        r@ == p@,
{
    let mut points: Vec<Point> = Vec::new();
    let mut m: usize = 0;
    while m < p.points.len()
        invariant
            m <= p.points@.len(),
            points@ == p.points@.subrange(0, m as int),
        decreases p.points@.len() - m,
    {
        points.push(p.points[m]);
        proof {
            assert(points@ =~= p.points@.subrange(0, m + 1 as int));
        }
        m = m + 1;
    }
    proof {
        assert(p.points@.subrange(0, p.points@.len() as int) =~= p.points@);
    }
    Polygon { closed: p.closed, points }
}

impl Node {
    /// Collect every polygon beneath this node, in document order.
    #[verifier::loop_isolation(false)]
    pub fn polygons(&self) -> (r: Vec<Polygon>)
        ensures
            r.deep_view() == spec_node_polygons(self.deep_view()),
        decreases *self,
    {
        match self {
            Node::Path(ps) => {
                let mut out: Vec<Polygon> = Vec::new();
                let mut k: usize = 0;
                while k < ps.len()
                    invariant
                        k <= ps@.len(),
                        out@.len() == k,
                        forall|i: int| 0 <= i < k ==> out@[i].deep_view() == ps.deep_view()[i],
                    decreases ps@.len() - k,
                {
                    let q = copy_polygon(&ps[k]);
                    out.push(q);
                    proof {
                        assert(ps.deep_view()[k as int] == ps@[k as int].deep_view());
                    }
                    k = k + 1;
                }
                proof {
                    assert(ps.deep_view().len() == ps@.len());
                    assert(out.deep_view() =~= ps.deep_view());
                }
                out
            },
            Node::Group(cs) => {
                let mut out: Vec<Polygon> = Vec::new();
                let mut k: usize = 0;
                proof {
                    lemma_view_nodes_props(cs@);
                    assert(view_nodes(cs@).subrange(0, 0) =~= Seq::<SpecNode>::empty());
                    assert(spec_nodes_polygons(Seq::<SpecNode>::empty()) =~= Seq::<
                        SpecPolygon,
                    >::empty());
                    assert(out.deep_view() =~= Seq::<SpecPolygon>::empty());
                }
                while k < cs.len()
                    invariant
                        k <= cs@.len(),
                        view_nodes(cs@).len() == cs@.len(),
                        forall|i: int| 0 <= i < cs@.len() ==> view_nodes(cs@)[i] == view_node(
                            cs@[i],
                        ),
                        out.deep_view() == spec_nodes_polygons(
                            view_nodes(cs@).subrange(0, k as int),
                        ),
                    decreases cs@.len() - k,
                {
                    proof {
                        assert(decreases_to!(*self => *cs));
                        assert(decreases_to!(*cs => cs@));
                        assert(decreases_to!(cs@ => cs@[k as int]));
                    }
                    let mut sub = cs[k].polygons();
                    let ghost pre = out.deep_view();
                    let ghost subv = sub.deep_view();
                    out.append(&mut sub);
                    proof {
                        assert(out.deep_view() =~= pre + subv);
                        assert(view_nodes(cs@).subrange(0, k + 1 as int) =~= view_nodes(
                            cs@,
                        ).subrange(0, k as int).push(view_nodes(cs@)[k as int]));
                        lemma_nodes_polygons_push(
                            view_nodes(cs@).subrange(0, k as int),
                            view_nodes(cs@)[k as int],
                        );
                    }
                    k = k + 1;
                }
                proof {
                    assert(view_nodes(cs@).subrange(0, view_nodes(cs@).len() as int)
                        =~= view_nodes(cs@));
                }
                out
            },
        }
    }
}

/// The exported rectangles of a node list: each node's bounding box as
/// `[x, y, extent along x, extent along y]`.
pub open spec fn spec_rect_list(ns: Seq<SpecNode>) -> Seq<[i64; 4]> {
    Seq::new(ns.len(), |i: int| spec_to_rect(spec_node_bounding(ns[i])))
}

impl Root {
    /// The bounding rectangles of the top-level nodes, after collapsing a
    /// singleton group.
    pub fn get_rects(&self) -> (r: Vec<[i64; 4]>)
        ensures
            r@ == spec_rect_list(spec_simplified(self.deep_view())),
    {
        proof {
            lemma_view_nodes_props(self.0@);
        }
        let use_inner: bool = if self.0.len() == 1 {
            match &self.0[0] {
                Node::Group(_) => true,
                _ => false,
            }
        } else {
            false
        };
        let list: &Vec<Node> = if use_inner {
            match &self.0[0] {
                Node::Group(children) => children,
                _ => &self.0,
            }
        } else {
            &self.0
        };
        proof {
            lemma_view_nodes_props(list@);
            assert(view_nodes(list@) == spec_simplified(self.deep_view()));
        }
        let mut r: Vec<[i64; 4]> = Vec::new();
        let mut k: usize = 0;
        while k < list.len()
            invariant
                k <= list@.len(),
                view_nodes(list@).len() == list@.len(),
                forall|i: int| 0 <= i < list@.len() ==> view_nodes(list@)[i] == view_node(
                    list@[i],
                ),
                r@.len() == k,
                forall|i: int| 0 <= i < k ==> r@[i] == spec_to_rect(
                    spec_node_bounding(view_nodes(list@)[i]),
                ),
            decreases list@.len() - k,
        {
            let b = node_bounding(&list[k]);
            r.push(b.to_rect());
            k = k + 1;
        }
        proof {
            assert(r@ =~= spec_rect_list(view_nodes(list@)));
        }
        r
    }
}

// ---------------------------------------------------------------------------
// Laws of the export pipeline.
// ---------------------------------------------------------------------------

/// A group with a single child occupies exactly the child's bounding box and
/// carries exactly the child's polygons.
pub proof fn lemma_singleton_group(n: SpecNode)
    ensures
        spec_node_bounding(SpecNode::Group(seq![n])) == spec_node_bounding(n),
        spec_node_polygons(SpecNode::Group(seq![n])) == spec_node_polygons(n),
{
    let s = seq![n];
    assert(s.drop_last() =~= Seq::<SpecNode>::empty());
    assert(s.last() == n);
    assert(spec_nodes_bounding(Seq::<SpecNode>::empty()) == degenerate_box());
    crate::geom::lemma_union_degenerate_identity(spec_node_bounding(n));
    assert(s.first() == n);
    assert(s.drop_first() =~= Seq::<SpecNode>::empty());
    assert(spec_nodes_polygons(Seq::<SpecNode>::empty()) =~= Seq::<SpecPolygon>::empty());
    assert(spec_nodes_polygons(s) =~= spec_node_polygons(n));
}

/// Exporting a document whose root holds one group that holds one more group
/// around a node is the same as exporting the singly grouped node: the
/// singleton collapse removes exactly one spurious nesting level, leaving
/// the rectangles and polygons unchanged.
pub proof fn lemma_group_collapse(n: SpecNode)
    ensures
        spec_rect_list(
            spec_simplified(seq![SpecNode::Group(seq![SpecNode::Group(seq![n])])]),
        ) == spec_rect_list(spec_simplified(seq![SpecNode::Group(seq![n])])),
        spec_export_polys(
            spec_simplified(seq![SpecNode::Group(seq![SpecNode::Group(seq![n])])]),
        ) == spec_export_polys(spec_simplified(seq![SpecNode::Group(seq![n])])),
{
    let inner = SpecNode::Group(seq![n]);
    let lhs = spec_simplified(seq![SpecNode::Group(seq![inner])]);
    let rhs = spec_simplified(seq![inner]);
    assert(lhs =~= seq![inner]);
    assert(rhs =~= seq![n]);
    lemma_singleton_group(n);
    assert(spec_rect_list(lhs) =~= spec_rect_list(rhs));
    assert(spec_export_polys(lhs) =~= spec_export_polys(rhs));
}

/// The exported polygon lists of a node list: each node's polygons.
pub open spec fn spec_export_polys(ns: Seq<SpecNode>) -> Seq<Seq<SpecPolygon>> {
    Seq::new(ns.len(), |i: int| spec_node_polygons(ns[i]))
}

} // verus!
