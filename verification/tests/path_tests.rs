use elayr::geom::{Bounding, BoundingBox, MAX_COORD, Point, Polygon};
use elayr::path::{
    CommandType, DrawTo, MoveTo, Path, coordinate_pair, curveto, moveto,
    moveto_drawto_command_group,
};
use elayr::prim::ParseError;

// One user unit, in stored millionths.
const UNIT: i64 = 1_000_000;

#[test]
fn test_coordinate_pair() {
    assert_eq!(
        coordinate_pair(b"12.5,3.2", 0).unwrap().0,
        Point(12_500_000, 3_200_000)
    );
    assert_eq!(
        coordinate_pair(b"12.5 3.2", 0).unwrap().0,
        Point(12_500_000, 3_200_000)
    );
}

#[test]
fn test_moveto() {
    assert_eq!(
        moveto(b"M 12.5,3.2", 0).unwrap().0,
        (CommandType::Absolute, Point(12_500_000, 3_200_000))
    );
}

#[test]
fn test_curveto_argument() {
    assert_eq!(
        curveto(b"c 1,1 2,2 3,3", 0).unwrap().0,
        vec![DrawTo::CurveTo(
            CommandType::Relative,
            Point(UNIT, UNIT),
            Point(2 * UNIT, 2 * UNIT),
            Point(3 * UNIT, 3 * UNIT)
        )]
    );
}

#[test]
fn test_moveto_drawto_command_group() {
    let path = b"m 12.5 3.2 l 5. 4. 8. 2. c 1,1 2,2 3,3 z";
    assert_eq!(
        moveto_drawto_command_group(path, 0).unwrap().0,
        MoveTo {
            cmd_type: CommandType::Relative,
            start: Point(12_500_000, 3_200_000),
            commands: vec![
                DrawTo::LineTo(CommandType::Relative, Point(5 * UNIT, 4 * UNIT)),
                DrawTo::LineTo(CommandType::Relative, Point(8 * UNIT, 2 * UNIT)),
                DrawTo::CurveTo(
                    CommandType::Relative,
                    Point(UNIT, UNIT),
                    Point(2 * UNIT, 2 * UNIT),
                    Point(3 * UNIT, 3 * UNIT)
                ),
                DrawTo::ClosePath,
            ],
        }
    );
}

#[test]
fn test_path() {
    let path = b"M 12.5 3.2 4 3 m 1 2 3 4";
    assert_eq!(
        Path::parse(path),
        Ok(Path(vec![
            MoveTo {
                cmd_type: CommandType::Absolute,
                start: Point(12_500_000, 3_200_000),
                commands: vec![DrawTo::LineTo(
                    CommandType::Absolute,
                    Point(4 * UNIT, 3 * UNIT)
                )],
            },
            MoveTo {
                cmd_type: CommandType::Relative,
                start: Point(UNIT, 2 * UNIT),
                commands: vec![DrawTo::LineTo(
                    CommandType::Relative,
                    Point(3 * UNIT, 4 * UNIT)
                )],
            },
        ]))
    );
}

#[test]
fn empty_path_parses_to_empty() {
    assert_eq!(Path::parse(b""), Ok(Path(vec![])));
    assert_eq!(Path::parse(b"   \n "), Ok(Path(vec![])));
}

#[test]
fn malformed_number_is_invalid() {
    match Path::parse(b"M 1.2.3 4") {
        Err(ParseError::Invalid(_)) => {}
        other => panic!("expected an invalid path, got {:?}", other),
    }
}

#[test]
fn unknown_command_letter_is_invalid() {
    match Path::parse(b"M 0 0 Q 1 1") {
        Err(ParseError::Invalid(_)) => {}
        other => panic!("expected an invalid path, got {:?}", other),
    }
}

#[test]
fn exponents_and_fractions_are_exact() {
    let p = Path::parse(b"M 1e2 .5").unwrap();
    assert_eq!(p.0[0].start, Point(100 * UNIT, 500_000));
    let q = Path::parse(b"M 12.5e-1 0").unwrap();
    assert_eq!(q.0[0].start, Point(1_250_000, 0));
}

#[test]
fn huge_literals_clamp_to_the_coordinate_range() {
    let p = Path::parse(b"M 1e400 -1e400").unwrap();
    assert_eq!(p.0[0].start, Point(MAX_COORD, -MAX_COORD));
}

#[test]
fn tiny_fractions_truncate_toward_zero() {
    let p = Path::parse(b"M 0.0000001 -0.0000009").unwrap();
    assert_eq!(p.0[0].start, Point(0, 0));
}

#[test]
fn relative_and_absolute_moveto_thread_the_cursor() {
    let p = Path::parse(b"M 10 10 m 5 5 l 1 1").unwrap();
    let polys = p.draw();
    assert_eq!(polys.len(), 2);
    assert_eq!(polys[1].points[0], Point(15 * UNIT, 15 * UNIT));
    assert_eq!(polys[1].points[1], Point(16 * UNIT, 16 * UNIT));
}

#[test]
fn implicit_linetos_inherit_the_moveto_mode() {
    let p = Path::parse(b"M0,0 1,1 2,2").unwrap();
    assert_eq!(p.0.len(), 1);
    assert_eq!(
        p.0[0].commands,
        vec![
            DrawTo::LineTo(CommandType::Absolute, Point(UNIT, UNIT)),
            DrawTo::LineTo(CommandType::Absolute, Point(2 * UNIT, 2 * UNIT)),
        ]
    );
}

#[test]
fn curve_flattening_ends_at_the_exact_endpoint() {
    let p = Path::parse(b"M0,0 C1,2 3,4 5,6").unwrap();
    let polys = p.draw();
    assert_eq!(polys.len(), 1);
    let poly = &polys[0];
    // start + 9 interior samples + the endpoint
    assert_eq!(poly.points.len(), 11);
    assert_eq!(poly.points[poly.points.len() - 1], Point(5 * UNIT, 6 * UNIT));
}

#[test]
fn closed_ring_drops_the_duplicate_point() {
    let p = Path::parse(b"M0,0 L10,10 Z").unwrap();
    let polys = p.draw();
    assert_eq!(polys.len(), 1);
    assert!(polys[0].closed);
    assert_eq!(
        polys[0].points,
        vec![Point(0, 0), Point(10 * UNIT, 10 * UNIT)]
    );
}

#[test]
fn is_relative_distinguishes_the_modes() {
    assert!(CommandType::Relative.is_relative());
    assert!(!CommandType::Absolute.is_relative());
}

#[test]
fn bounding_of_nothing_is_the_degenerate_box() {
    let polys: Vec<Polygon> = vec![];
    assert_eq!(polys.bounding(), BoundingBox::degenerate());
}

#[test]
fn union_with_the_degenerate_box_is_identity() {
    let b = BoundingBox(Point(UNIT, 2 * UNIT), Point(3 * UNIT, 4 * UNIT));
    assert_eq!((b, BoundingBox::degenerate()).bounding(), b);
    assert_eq!((BoundingBox::degenerate(), b).bounding(), b);
}

#[test]
fn to_rect_is_origin_and_extent() {
    let b = BoundingBox(Point(1, 2), Point(5, 7));
    assert_eq!(b.to_rect(), [1, 2, 4, 5]);
}

#[test]
fn polygon_translate_moves_every_point() {
    let mut poly = Polygon {
        closed: false,
        points: vec![Point(0, 0), Point(UNIT, UNIT)],
    };
    poly.translate(3 * UNIT, 4 * UNIT);
    assert_eq!(
        poly.points,
        vec![Point(3 * UNIT, 4 * UNIT), Point(4 * UNIT, 5 * UNIT)]
    );
}

#[test]
fn curveto_letter_is_sticky_over_repeated_triples() {
    let cmds = curveto(b"c 1,1 2,2 3,3 4,4 5,5 6,6", 0).unwrap().0;
    assert_eq!(cmds.len(), 2);
    assert_eq!(
        cmds[1],
        DrawTo::CurveTo(
            CommandType::Relative,
            Point(4 * UNIT, 4 * UNIT),
            Point(5 * UNIT, 5 * UNIT),
            Point(6 * UNIT, 6 * UNIT)
        )
    );
}

#[test]
fn bare_sign_and_dot_forms_parse() {
    let p = Path::parse(b"M -.5 5.").unwrap();
    assert_eq!(p.0[0].start, Point(-500_000, 5 * UNIT));
}

#[test]
fn double_exponent_is_invalid() {
    match Path::parse(b"M 1e5e2 0") {
        Err(ParseError::Invalid(_)) => {}
        other => panic!("expected an invalid path, got {:?}", other),
    }
}

#[test]
fn lineto_without_coordinates_is_invalid() {
    match Path::parse(b"M 0 0 L") {
        Err(_) => {}
        other => panic!("expected a failed path, got {:?}", other),
    }
}
