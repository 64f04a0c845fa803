use elayr::geom::Point;
use elayr::parser::XMLDoc;
use elayr::svg::{Node, Root};

const UNIT: i64 = 1_000_000;

fn scene(doc: &[u8]) -> Root {
    let parsed = XMLDoc::parse(doc).expect("document should parse");
    Node::from_xml_doc(parsed).expect("document should be an svg scene")
}

#[test]
fn minimal_document_round_trips_to_one_closed_polygon() {
    let root = scene(b"<?xml version='1.0'?><svg><path d='M0,0 L10,10 Z'/></svg>");
    assert_eq!(root.0.len(), 1);
    match &root.0[0] {
        Node::Path(polys) => {
            assert_eq!(polys.len(), 1);
            assert!(polys[0].closed);
            assert_eq!(
                polys[0].points,
                vec![Point(0, 0), Point(10 * UNIT, 10 * UNIT)]
            );
        }
        Node::Group(_) => panic!("expected a path node"),
    }
}

#[test]
fn non_svg_root_yields_no_scene() {
    let parsed = XMLDoc::parse(b"<html><path d='M0,0'/></html>").expect("document should parse");
    assert!(Node::from_xml_doc(parsed).is_none());
}

#[test]
fn unrecognized_children_are_dropped() {
    let root = scene(b"<svg><circle r='5'/><!-- note -->text<path d='M0,0'/></svg>");
    assert_eq!(root.0.len(), 1);
    match &root.0[0] {
        Node::Path(polys) => assert_eq!(polys.len(), 1),
        Node::Group(_) => panic!("expected a path node"),
    }
}

#[test]
fn malformed_path_data_drops_only_that_node() {
    let root = scene(b"<svg><path d='M 1.2.3'/><path d='M1,1 L2,2'/></svg>");
    assert_eq!(root.0.len(), 1);
    match &root.0[0] {
        Node::Path(polys) => {
            assert_eq!(
                polys[0].points,
                vec![Point(UNIT, UNIT), Point(2 * UNIT, 2 * UNIT)]
            );
        }
        Node::Group(_) => panic!("expected a path node"),
    }
}

#[test]
fn missing_d_attribute_is_an_empty_path() {
    let root = scene(b"<svg><path/></svg>");
    assert_eq!(root.0.len(), 1);
    match &root.0[0] {
        Node::Path(polys) => assert_eq!(polys.len(), 0),
        Node::Group(_) => panic!("expected a path node"),
    }
}

#[test]
fn transform_translates_every_point_beneath_the_group() {
    let root = scene(b"<svg><g transform=\"translate(3,4)\"><path d='M0,0 L1,1'/></g></svg>");
    assert_eq!(root.0.len(), 1);
    match &root.0[0] {
        Node::Group(children) => {
            assert_eq!(children.len(), 1);
            match &children[0] {
                Node::Path(polys) => {
                    assert_eq!(
                        polys[0].points,
                        vec![Point(3 * UNIT, 4 * UNIT), Point(4 * UNIT, 5 * UNIT)]
                    );
                }
                Node::Group(_) => panic!("expected a path node"),
            }
        }
        Node::Path(_) => panic!("expected a group node"),
    }
}

#[test]
fn unrecognized_transform_is_ignored() {
    let root = scene(b"<svg><g transform='rotate(45)'><path d='M1,1 L2,2'/></g></svg>");
    match &root.0[0] {
        Node::Group(children) => match &children[0] {
            Node::Path(polys) => assert_eq!(
                polys[0].points,
                vec![Point(UNIT, UNIT), Point(2 * UNIT, 2 * UNIT)]
            ),
            Node::Group(_) => panic!("expected a path node"),
        },
        Node::Path(_) => panic!("expected a group node"),
    }
}

#[test]
fn nested_singleton_groups_export_identically() {
    let doubled = scene(b"<svg><g><g><path d='M0,0 L10,10 Z'/></g></g></svg>");
    let single = scene(b"<svg><g><path d='M0,0 L10,10 Z'/></g></svg>");

    assert_eq!(doubled.get_rects(), single.get_rects());

    let doubled_groups = doubled.simplify();
    let single_groups = single.simplify();
    assert_eq!(doubled_groups.len(), single_groups.len());
    for (a, b) in doubled_groups.iter().zip(single_groups.iter()) {
        assert_eq!(a.polygons(), b.polygons());
    }
}

#[test]
fn get_rects_reports_origin_and_extent() {
    let root = scene(b"<svg><path d='M1,2 L5,7'/></svg>");
    assert_eq!(
        root.get_rects(),
        vec![[UNIT, 2 * UNIT, 4 * UNIT, 5 * UNIT]]
    );
}

#[test]
fn simplify_collapses_only_a_singleton_group() {
    let one = scene(b"<svg><g><path d='M0,0'/><path d='M1,1'/></g></svg>");
    assert_eq!(one.simplify().len(), 2);

    let two = scene(b"<svg><path d='M0,0'/><path d='M1,1'/></svg>");
    assert_eq!(two.simplify().len(), 2);
}

#[test]
fn transform_accepts_a_whitespace_separator() {
    let root = scene(b"<svg><g transform='translate(3 4)'><path d='M0,0 L1,1'/></g></svg>");
    match &root.0[0] {
        Node::Group(children) => match &children[0] {
            Node::Path(polys) => assert_eq!(polys[0].points[0], Point(3 * UNIT, 4 * UNIT)),
            Node::Group(_) => panic!("expected a path node"),
        },
        Node::Path(_) => panic!("expected a group node"),
    }
}

#[test]
fn transform_with_trailing_bytes_is_ignored() {
    let root = scene(b"<svg><g transform='translate(3,4) '><path d='M0,0 L1,1'/></g></svg>");
    match &root.0[0] {
        Node::Group(children) => match &children[0] {
            Node::Path(polys) => assert_eq!(polys[0].points[0], Point(0, 0)),
            Node::Group(_) => panic!("expected a path node"),
        },
        Node::Path(_) => panic!("expected a group node"),
    }
}

#[test]
fn nested_transforms_compose() {
    let root = scene(
        b"<svg><g transform='translate(1,1)'><g transform='translate(2,3)'><path d='M0,0 L1,1'/></g></g></svg>",
    );
    match &root.0[0] {
        Node::Group(children) => match &children[0] {
            Node::Group(inner) => match &inner[0] {
                Node::Path(polys) => {
                    assert_eq!(
                        polys[0].points,
                        vec![Point(3 * UNIT, 4 * UNIT), Point(4 * UNIT, 5 * UNIT)]
                    );
                }
                Node::Group(_) => panic!("expected a path node"),
            },
            Node::Path(_) => panic!("expected a group node"),
        },
        Node::Path(_) => panic!("expected a group node"),
    }
}
