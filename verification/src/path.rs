//! The SVG path mini-language: its AST, its parser, and the flattener that
//! turns parsed paths into polygons.
//!
//! The grammar is stated as spec functions over `Seq<u8>` and the executable
//! parser is proved to return exactly what they say.  Uppercase command
//! letters are absolute, lowercase relative, and the letter's mode sticks to
//! every coordinate pair that follows it; bare pairs right after a moveto are
//! implicit linetos in the moveto's mode.

use vstd::prelude::*;
use crate::geom::{
    Point, Polygon, SpecPolygon, clamp_coord, lemma_vec_point_deep_view, spec_polygon_from,
    spec_translate,
};
use crate::num::{number, spec_p_number};
use crate::prim::{
    PRes, ParseError, is_sp, ok_in_bounds, res_view, skip_sp, skip_ws, sp_pred, spec_is_sp,
    spec_skip_while, spec_sws,
};

verus! {

broadcast use crate::geom::lemma_vec_point_deep_view;

// ---------------------------------------------------------------------------
// The AST.
// ---------------------------------------------------------------------------

/// Whether a command's coordinates are offsets from the current point or
/// absolute positions.
#[derive(Debug, PartialEq, Eq, Structural, Clone, Copy)]
pub enum CommandType {
    Relative,
    Absolute,
}

impl CommandType {
    /// Whether this is the relative mode.
    pub fn is_relative(self) -> (r: bool)
        ensures
            r == (self is Relative),
    {
        match self {
            CommandType::Relative => true,
            CommandType::Absolute => false,
        }
    }
}

impl DeepView for CommandType {
    type V = CommandType;

    open spec fn deep_view(&self) -> CommandType {
        *self
    }
}

/// A drawing command after a moveto: close the subpath, a straight line, or
/// a cubic Bezier curve (two control points, then the endpoint).
#[derive(Debug, PartialEq, Eq, Structural, Clone, Copy)]
pub enum DrawTo {
    ClosePath,
    LineTo(CommandType, Point),
    CurveTo(CommandType, Point, Point, Point),
}

impl DeepView for DrawTo {
    type V = DrawTo;

    open spec fn deep_view(&self) -> DrawTo {
        *self
    }
}

/// One subpath: where it starts, in which mode, and its drawing commands.
#[derive(Debug, PartialEq, Eq)]
pub struct MoveTo {
    pub start: Point,
    pub cmd_type: CommandType,
    pub commands: Vec<DrawTo>,
}

/// Shadow of `MoveTo`.
pub struct SpecMoveTo {
    pub start: Point,
    pub cmd_type: CommandType,
    pub commands: Seq<DrawTo>,
}

impl DeepView for MoveTo {
    type V = SpecMoveTo;

    open spec fn deep_view(&self) -> SpecMoveTo {
        SpecMoveTo { start: self.start, cmd_type: self.cmd_type, commands: self.commands@ }
    }
}

/// A parsed path: its subpaths in order.
#[derive(Debug, PartialEq, Eq)]
pub struct Path(pub Vec<MoveTo>);

impl DeepView for Path {
    type V = Seq<SpecMoveTo>;

    open spec fn deep_view(&self) -> Seq<SpecMoveTo> {
        self.0.deep_view()
    }
}

// ---------------------------------------------------------------------------
// The grammar.
// ---------------------------------------------------------------------------

/// A coordinate separator: inline whitespace with an optional comma, or a
/// comma, each side padded with inline whitespace.
pub open spec fn spec_p_comma_wsp(s: Seq<u8>, i: int) -> PRes<()> {
    if i < s.len() && spec_is_sp(s[i]) {
        let a = spec_skip_while(s, i, sp_pred());
        let b = if 0 <= a < s.len() && s[a] == 44 {
            a + 1
        } else {
            a
        };
        if 0 <= b <= s.len() {
            PRes::Val((), spec_skip_while(s, b, sp_pred()))
        } else {
            PRes::Val((), b)
        }
    } else if i < s.len() && s[i] == 44 {
        PRes::Val((), spec_skip_while(s, i + 1, sp_pred()))
    } else if i >= s.len() {
        PRes::Incomplete
    } else {
        PRes::Invalid(i)
    }
}

/// Parse a coordinate separator.
pub fn comma_wsp(s: &[u8], i: usize) -> (r: Result<usize, ParseError>)
    requires
        i <= s@.len(),
    ensures
        match r {
            Ok(j) => spec_p_comma_wsp(s@, i as int) == PRes::<()>::Val((), j as int) && i <= j
                <= s@.len(),
            Err(ParseError::Incomplete) => spec_p_comma_wsp(s@, i as int) is Incomplete,
            Err(ParseError::Invalid(p)) => spec_p_comma_wsp(s@, i as int) == PRes::<()>::Invalid(
                p as int,
            ),
        },
{
    if i < s.len() && is_sp(s[i]) {
        let a = skip_sp(s, i);
        let b = if a < s.len() && s[a] == 44 {
            a + 1
        } else {
            a
        };
        Ok(skip_sp(s, b))
    } else if i < s.len() && s[i] == 44 {
        Ok(skip_sp(s, i + 1))
    } else if i >= s.len() {
        Err(ParseError::Incomplete)
    } else {
        Err(ParseError::Invalid(i))
    }
}

/// Two numbers with an optional separator between them.
pub open spec fn spec_p_coordinate_pair(s: Seq<u8>, i: int) -> PRes<Point> {
    match spec_p_number(s, i) {
        PRes::Val(x, j1) => {
            let j2 = match spec_p_comma_wsp(s, j1) {
                PRes::Val(_, k) => k,
                _ => j1,
            };
            match spec_p_number(s, j2) {
                PRes::Val(y, j3) => PRes::Val(Point(x, y), j3),
                PRes::Incomplete => PRes::Incomplete,
                PRes::Invalid(p) => PRes::Invalid(p),
            }
        },
        PRes::Incomplete => PRes::Incomplete,
        PRes::Invalid(p) => PRes::Invalid(p),
    }
}

/// Parse a coordinate pair.
pub fn coordinate_pair(s: &[u8], i: usize) -> (r: Result<(Point, usize), ParseError>)
    requires
        i <= s@.len(),
    ensures
        res_view(r) == spec_p_coordinate_pair(s@, i as int),
        ok_in_bounds(r, i as int, s@.len() as int),
{
    match number(s, i) {
        Ok((x, j1)) => {
            let j2 = match comma_wsp(s, j1) {
                Ok(k) => k,
                Err(_) => j1,
            };
            match number(s, j2) {
                Ok((y, j3)) => Ok((Point(x, y), j3)),
                Err(e) => Err(e),
            }
        },
        Err(e) => Err(e),
    }
}

/// A moveto: `M` or `m`, optional inline whitespace, one coordinate pair.
pub open spec fn spec_p_moveto(s: Seq<u8>, i: int) -> PRes<(CommandType, Point)> {
    if i >= s.len() {
        PRes::Incomplete
    } else if s[i] == 77 || s[i] == 109 {
        let ct = if s[i] == 109 {
            CommandType::Relative
        } else {
            CommandType::Absolute
        };
        let j = spec_skip_while(s, i + 1, sp_pred());
        match spec_p_coordinate_pair(s, j) {
            PRes::Val(p, j2) => PRes::Val((ct, p), j2),
            PRes::Incomplete => PRes::Incomplete,
            PRes::Invalid(p) => PRes::Invalid(p),
        }
    } else {
        PRes::Invalid(i)
    }
}

/// Parse a moveto.
pub fn moveto(s: &[u8], i: usize) -> (r: Result<((CommandType, Point), usize), ParseError>)
    requires
        i <= s@.len(),
    ensures
        res_view(r) == spec_p_moveto(s@, i as int),
        ok_in_bounds(r, i as int, s@.len() as int),
{
    if i >= s.len() {
        return Err(ParseError::Incomplete);
    }
    let c = s[i];
    if c == 77 || c == 109 {
        let ct = if c == 109 {
            CommandType::Relative
        } else {
            CommandType::Absolute
        };
        let j = skip_sp(s, i + 1);
        match coordinate_pair(s, j) {
            Ok((p, j2)) => Ok(((ct, p), j2)),
            Err(e) => Err(e),
        }
    } else {
        Err(ParseError::Invalid(i))
    }
}

/// A possibly empty run of coordinate pairs, each surrounded by whitespace.
/// Never fails; leaves the position before the run that did not parse.
pub open spec fn spec_p_coordinate_list(s: Seq<u8>, i: int) -> (Seq<Point>, int)
    decreases s.len() - i
        when 0 <= i <= s.len()
{
    let j0 = spec_sws(s, i);
    if !(i <= j0 <= s.len()) {
        (Seq::empty(), i)
    } else {
        match spec_p_coordinate_pair(s, j0) {
            PRes::Val(p, j) => if j0 < j <= s.len() {
                let j2 = spec_sws(s, j);
                if j <= j2 <= s.len() {
                    let r = spec_p_coordinate_list(s, j2);
                    (seq![p] + r.0, r.1)
                } else {
                    (seq![p], j)
                }
            } else {
                (seq![p], j)
            },
            _ => (Seq::empty(), i),
        }
    }
}

/// Parse a coordinate list.
pub fn coordinate_list(s: &[u8], i: usize) -> (r: (Vec<Point>, usize))
    requires
        i <= s@.len(),
    ensures
        r.0@ == spec_p_coordinate_list(s@, i as int).0,
        r.1 as int == spec_p_coordinate_list(s@, i as int).1,
        i <= r.1 <= s@.len(),
    decreases s@.len() - i,
{
    let j0 = skip_ws(s, i);
    match coordinate_pair(s, j0) {
        Ok((p, j)) => {
            if j0 < j {
                let j2 = skip_ws(s, j);
                let (mut rest, e) = coordinate_list(s, j2);
                let ghost pre = rest@;
                rest.insert(0, p);
                proof {
                    assert(rest@ =~= seq![p] + pre);
                }
                (rest, e)
            } else {
                let mut v: Vec<Point> = Vec::new();
                v.push(p);
                proof {
                    assert(v@ =~= seq![p]);
                }
                (v, j)
            }
        },
        Err(_) => {
            let v: Vec<Point> = Vec::new();
            proof {
                assert(v@ =~= Seq::<Point>::empty());
            }
            (v, i)
        },
    }
}

/// A lineto: `L` or `l`, optional inline whitespace, then at least one
/// coordinate pair; every pair becomes a `LineTo` in the letter's mode.
pub open spec fn spec_p_lineto(s: Seq<u8>, i: int) -> PRes<Seq<DrawTo>> {
    if i >= s.len() {
        PRes::Incomplete
    } else if s[i] == 76 || s[i] == 108 {
        let ct = if s[i] == 108 {
            CommandType::Relative
        } else {
            CommandType::Absolute
        };
        let j = spec_skip_while(s, i + 1, sp_pred());
        if 0 <= j <= s.len() {
            let r = spec_p_coordinate_list(s, j);
            if r.0.len() == 0 {
                if j >= s.len() {
                    PRes::Incomplete
                } else {
                    PRes::Invalid(j)
                }
            } else {
                PRes::Val(r.0.map_values(|p: Point| DrawTo::LineTo(ct, p)), r.1)
            }
        } else {
            PRes::Invalid(i)
        }
    } else {
        PRes::Invalid(i)
    }
}

/// Parse a lineto.
pub fn lineto(s: &[u8], i: usize) -> (r: Result<(Vec<DrawTo>, usize), ParseError>)
    requires
        i <= s@.len(),
    ensures
        res_view(r) == spec_p_lineto(s@, i as int),
        ok_in_bounds(r, i as int, s@.len() as int),
{
    if i >= s.len() {
        return Err(ParseError::Incomplete);
    }
    let c = s[i];
    if c == 76 || c == 108 {
        let ct = if c == 108 {
            CommandType::Relative
        } else {
            CommandType::Absolute
        };
        let j = skip_sp(s, i + 1);
        let (pts, e) = coordinate_list(s, j);
        if pts.len() == 0 {
            if j >= s.len() {
                Err(ParseError::Incomplete)
            } else {
                Err(ParseError::Invalid(j))
            }
        } else {
            let mut cmds: Vec<DrawTo> = Vec::new();
            let mut k: usize = 0;
            while k < pts.len()
                invariant
                    k <= pts@.len(),
                    cmds@ == pts@.subrange(0, k as int).map_values(
                        |p: Point| DrawTo::LineTo(ct, p),
                    ),
                decreases pts@.len() - k,
            {
                cmds.push(DrawTo::LineTo(ct, pts[k]));
                proof {
                    assert(pts@.subrange(0, k + 1 as int).map_values(
                        |p: Point| DrawTo::LineTo(ct, p),
                    ) =~= pts@.subrange(0, k as int).map_values(|p: Point| DrawTo::LineTo(ct, p))
                        + seq![DrawTo::LineTo(ct, pts@[k as int])]);
                }
                k = k + 1;
            }
            proof {
                assert(pts@.subrange(0, pts@.len() as int) =~= pts@);
                assert(cmds.deep_view() =~= cmds@);
            }
            Ok((cmds, e))
        }
    } else {
        Err(ParseError::Invalid(i))
    }
}

/// One curveto argument: three coordinate pairs with optional separators.
pub open spec fn spec_p_curve_arg(s: Seq<u8>, i: int) -> PRes<(Point, Point, Point)> {
    match spec_p_coordinate_pair(s, i) {
        PRes::Val(p1, j1) => {
            let k1 = match spec_p_comma_wsp(s, j1) {
                PRes::Val(_, k) => k,
                _ => j1,
            };
            match spec_p_coordinate_pair(s, k1) {
                PRes::Val(p2, j2) => {
                    let k2 = match spec_p_comma_wsp(s, j2) {
                        PRes::Val(_, k) => k,
                        _ => j2,
                    };
                    match spec_p_coordinate_pair(s, k2) {
                        PRes::Val(p3, j3) => PRes::Val((p1, p2, p3), j3),
                        PRes::Incomplete => PRes::Incomplete,
                        PRes::Invalid(p) => PRes::Invalid(p),
                    }
                },
                PRes::Incomplete => PRes::Incomplete,
                PRes::Invalid(p) => PRes::Invalid(p),
            }
        },
        PRes::Incomplete => PRes::Incomplete,
        PRes::Invalid(p) => PRes::Invalid(p),
    }
}

/// Parse one curveto argument.
pub fn curveto_argument(s: &[u8], i: usize) -> (r: Result<
    ((Point, Point, Point), usize),
    ParseError,
>)
    requires
        i <= s@.len(),
    ensures
        res_view(r) == spec_p_curve_arg(s@, i as int),
        ok_in_bounds(r, i as int, s@.len() as int),
{
    match coordinate_pair(s, i) {
        Ok((p1, j1)) => {
            let k1 = match comma_wsp(s, j1) {
                Ok(k) => k,
                Err(_) => j1,
            };
            match coordinate_pair(s, k1) {
                Ok((p2, j2)) => {
                    let k2 = match comma_wsp(s, j2) {
                        Ok(k) => k,
                        Err(_) => j2,
                    };
                    match coordinate_pair(s, k2) {
                        Ok((p3, j3)) => Ok(((p1, p2, p3), j3)),
                        Err(e) => Err(e),
                    }
                },
                Err(e) => Err(e),
            }
        },
        Err(e) => Err(e),
    }
}

/// A possibly empty run of curveto arguments, each surrounded by whitespace.
pub open spec fn spec_p_curve_args(s: Seq<u8>, i: int) -> (Seq<(Point, Point, Point)>, int)
    decreases s.len() - i
        when 0 <= i <= s.len()
{
    let j0 = spec_sws(s, i);
    if !(i <= j0 <= s.len()) {
        (Seq::empty(), i)
    } else {
        match spec_p_curve_arg(s, j0) {
            PRes::Val(a, j) => if j0 < j <= s.len() {
                let j2 = spec_sws(s, j);
                if j <= j2 <= s.len() {
                    let r = spec_p_curve_args(s, j2);
                    (seq![a] + r.0, r.1)
                } else {
                    (seq![a], j)
                }
            } else {
                (seq![a], j)
            },
            _ => (Seq::empty(), i),
        }
    }
}

/// Parse a run of curveto arguments.
fn curve_args(s: &[u8], i: usize) -> (r: (Vec<(Point, Point, Point)>, usize))
    requires
        i <= s@.len(),
    ensures
        r.0@ == spec_p_curve_args(s@, i as int).0,
        r.1 as int == spec_p_curve_args(s@, i as int).1,
        i <= r.1 <= s@.len(),
    decreases s@.len() - i,
{
    let j0 = skip_ws(s, i);
    match curveto_argument(s, j0) {
        Ok((a, j)) => {
            if j0 < j {
                let j2 = skip_ws(s, j);
                let (mut rest, e) = curve_args(s, j2);
                let ghost pre = rest@;
                rest.insert(0, a);
                proof {
                    assert(rest@ =~= seq![a] + pre);
                }
                (rest, e)
            } else {
                let mut v: Vec<(Point, Point, Point)> = Vec::new();
                v.push(a);
                proof {
                    assert(v@ =~= seq![a]);
                }
                (v, j)
            }
        },
        Err(_) => {
            let v: Vec<(Point, Point, Point)> = Vec::new();
            proof {
                assert(v@ =~= Seq::<(Point, Point, Point)>::empty());
            }
            (v, i)
        },
    }
}

/// A curveto: `C` or `c`, then at least one curveto argument.
pub open spec fn spec_p_curveto(s: Seq<u8>, i: int) -> PRes<Seq<DrawTo>> {
    if i >= s.len() {
        PRes::Incomplete
    } else if s[i] == 67 || s[i] == 99 {
        let ct = if s[i] == 99 {
            CommandType::Relative
        } else {
            CommandType::Absolute
        };
        if 0 <= i + 1 <= s.len() {
            let r = spec_p_curve_args(s, i + 1);
            if r.0.len() == 0 {
                if i + 1 >= s.len() {
                    PRes::Incomplete
                } else {
                    PRes::Invalid(i + 1)
                }
            } else {
                PRes::Val(
                    r.0.map_values(|a: (Point, Point, Point)| DrawTo::CurveTo(ct, a.0, a.1, a.2)),
                    r.1,
                )
            }
        } else {
            PRes::Invalid(i)
        }
    } else {
        PRes::Invalid(i)
    }
}

/// Parse a curveto.
pub fn curveto(s: &[u8], i: usize) -> (r: Result<(Vec<DrawTo>, usize), ParseError>)
    requires
        i <= s@.len(),
    ensures
        res_view(r) == spec_p_curveto(s@, i as int),
        ok_in_bounds(r, i as int, s@.len() as int),
{
    if i >= s.len() {
        return Err(ParseError::Incomplete);
    }
    let c = s[i];
    if c == 67 || c == 99 {
        let ct = if c == 99 {
            CommandType::Relative
        } else {
            CommandType::Absolute
        };
        let (args, e) = curve_args(s, i + 1);
        if args.len() == 0 {
            if i + 1 >= s.len() {
                Err(ParseError::Incomplete)
            } else {
                Err(ParseError::Invalid(i + 1))
            }
        } else {
            let mut cmds: Vec<DrawTo> = Vec::new();
            let mut k: usize = 0;
            while k < args.len()
                invariant
                    k <= args@.len(),
                    cmds@ == args@.subrange(0, k as int).map_values(
                        |a: (Point, Point, Point)| DrawTo::CurveTo(ct, a.0, a.1, a.2),
                    ),
                decreases args@.len() - k,
            {
                let a = args[k];
                cmds.push(DrawTo::CurveTo(ct, a.0, a.1, a.2));
                proof {
                    assert(args@.subrange(0, k + 1 as int).map_values(
                        |a: (Point, Point, Point)| DrawTo::CurveTo(ct, a.0, a.1, a.2),
                    ) =~= args@.subrange(0, k as int).map_values(
                        |a: (Point, Point, Point)| DrawTo::CurveTo(ct, a.0, a.1, a.2),
                    ) + seq![
                        DrawTo::CurveTo(
                            ct,
                            args@[k as int].0,
                            args@[k as int].1,
                            args@[k as int].2,
                        ),
                    ]);
                }
                k = k + 1;
            }
            proof {
                assert(args@.subrange(0, args@.len() as int) =~= args@);
                assert(cmds.deep_view() =~= cmds@);
            }
            Ok((cmds, e))
        }
    } else {
        Err(ParseError::Invalid(i))
    }
}

/// A closepath: `z` or `Z`.
pub open spec fn spec_p_closepath(s: Seq<u8>, i: int) -> PRes<Seq<DrawTo>> {
    if i >= s.len() {
        PRes::Incomplete
    } else if s[i] == 122 || s[i] == 90 {
        PRes::Val(seq![DrawTo::ClosePath], i + 1)
    } else {
        PRes::Invalid(i)
    }
}

/// One drawing command: a closepath, a lineto, or a curveto, decided by its
/// letter.
pub open spec fn spec_p_drawto(s: Seq<u8>, i: int) -> PRes<Seq<DrawTo>> {
    if i >= s.len() {
        PRes::Incomplete
    } else if s[i] == 122 || s[i] == 90 {
        spec_p_closepath(s, i)
    } else if s[i] == 76 || s[i] == 108 {
        spec_p_lineto(s, i)
    } else if s[i] == 67 || s[i] == 99 {
        spec_p_curveto(s, i)
    } else {
        PRes::Invalid(i)
    }
}

/// Parse one drawing command.
pub fn drawto_command(s: &[u8], i: usize) -> (r: Result<(Vec<DrawTo>, usize), ParseError>)
    requires
        i <= s@.len(),
    ensures
        res_view(r) == spec_p_drawto(s@, i as int),
        ok_in_bounds(r, i as int, s@.len() as int),
{
    if i >= s.len() {
        return Err(ParseError::Incomplete);
    }
    let c = s[i];
    if c == 122 || c == 90 {
        let mut v: Vec<DrawTo> = Vec::new();
        v.push(DrawTo::ClosePath);
        proof {
            assert(v.deep_view() =~= seq![DrawTo::ClosePath]);
        }
        Ok((v, i + 1))
    } else if c == 76 || c == 108 {
        lineto(s, i)
    } else if c == 67 || c == 99 {
        curveto(s, i)
    } else {
        Err(ParseError::Invalid(i))
    }
}

/// A possibly empty run of drawing commands, each surrounded by whitespace,
/// concatenated in order.
pub open spec fn spec_p_commands(s: Seq<u8>, i: int) -> (Seq<DrawTo>, int)
    decreases s.len() - i
        when 0 <= i <= s.len()
{
    let j0 = spec_sws(s, i);
    if !(i <= j0 <= s.len()) {
        (Seq::empty(), i)
    } else {
        match spec_p_drawto(s, j0) {
            PRes::Val(ds, j) => if j0 < j <= s.len() {
                let j2 = spec_sws(s, j);
                if j <= j2 <= s.len() {
                    let r = spec_p_commands(s, j2);
                    (ds + r.0, r.1)
                } else {
                    (ds, j)
                }
            } else {
                (ds, j)
            },
            _ => (Seq::empty(), i),
        }
    }
}

/// Parse a run of drawing commands.
pub fn commands(s: &[u8], i: usize) -> (r: (Vec<DrawTo>, usize))
    requires
        i <= s@.len(),
    ensures
        r.0@ == spec_p_commands(s@, i as int).0,
        r.1 as int == spec_p_commands(s@, i as int).1,
        i <= r.1 <= s@.len(),
    decreases s@.len() - i,
{
    let j0 = skip_ws(s, i);
    match drawto_command(s, j0) {
        Ok((ds, j)) => {
            proof {
                assert(ds.deep_view() =~= ds@);
            }
            if j0 < j {
                let j2 = skip_ws(s, j);
                let (mut rest, e) = commands(s, j2);
                let ghost dsv = ds@;
                let ghost pre = rest@;
                let mut out = ds;
                out.append(&mut rest);
                proof {
                    assert(out@ =~= dsv + pre);
                }
                (out, e)
            } else {
                (ds, j)
            }
        },
        Err(_) => {
            let v: Vec<DrawTo> = Vec::new();
            proof {
                assert(v@ =~= Seq::<DrawTo>::empty());
            }
            (v, i)
        },
    }
}

/// One subpath: a moveto, optional inline whitespace, bare pairs taken as
/// implicit linetos in the moveto's mode, then drawing commands.
pub open spec fn spec_p_group(s: Seq<u8>, i: int) -> PRes<SpecMoveTo> {
    match spec_p_moveto(s, i) {
        PRes::Val(cmd, j1) => {
            let j2 = spec_skip_while(s, j1, sp_pred());
            if 0 <= j2 <= s.len() {
                let imp = spec_p_coordinate_list(s, j2);
                if 0 <= imp.1 <= s.len() {
                    let cs = spec_p_commands(s, imp.1);
                    PRes::Val(
                        SpecMoveTo {
                            start: cmd.1,
                            cmd_type: cmd.0,
                            commands: imp.0.map_values(|p: Point| DrawTo::LineTo(cmd.0, p))
                                + cs.0,
                        },
                        cs.1,
                    )
                } else {
                    PRes::Invalid(i)
                }
            } else {
                PRes::Invalid(i)
            }
        },
        PRes::Incomplete => PRes::Incomplete,
        PRes::Invalid(p) => PRes::Invalid(p),
    }
}

/// Parse one subpath.
pub fn moveto_drawto_command_group(s: &[u8], i: usize) -> (r: Result<(MoveTo, usize), ParseError>)
    requires
        i <= s@.len(),
    ensures
        res_view(r) == spec_p_group(s@, i as int),
        ok_in_bounds(r, i as int, s@.len() as int),
{
    match moveto(s, i) {
        Ok(((ct, start), j1)) => {
            let j2 = skip_sp(s, j1);
            let (imp, j3) = coordinate_list(s, j2);
            let (cs, j4) = commands(s, j3);
            let mut cmds: Vec<DrawTo> = Vec::new();
            let mut k: usize = 0;
            while k < imp.len()
                invariant
                    k <= imp@.len(),
                    cmds@ == imp@.subrange(0, k as int).map_values(
                        |p: Point| DrawTo::LineTo(ct, p),
                    ),
                decreases imp@.len() - k,
            {
                cmds.push(DrawTo::LineTo(ct, imp[k]));
                proof {
                    assert(imp@.subrange(0, k + 1 as int).map_values(
                        |p: Point| DrawTo::LineTo(ct, p),
                    ) =~= imp@.subrange(0, k as int).map_values(|p: Point| DrawTo::LineTo(ct, p))
                        + seq![DrawTo::LineTo(ct, imp@[k as int])]);
                }
                k = k + 1;
            }
            proof {
                assert(imp@.subrange(0, imp@.len() as int) =~= imp@);
            }
            let mut csm = cs;
            cmds.append(&mut csm);
            Ok((MoveTo { start, cmd_type: ct, commands: cmds }, j4))
        },
        Err(e) => Err(e),
    }
}

/// A possibly empty run of subpaths, each surrounded by whitespace.
pub open spec fn spec_p_groups(s: Seq<u8>, i: int) -> (Seq<SpecMoveTo>, int)
    decreases s.len() - i
        when 0 <= i <= s.len()
{
    let j0 = spec_sws(s, i);
    if !(i <= j0 <= s.len()) {
        (Seq::empty(), i)
    } else {
        match spec_p_group(s, j0) {
            PRes::Val(g, j) => if j0 < j <= s.len() {
                let j2 = spec_sws(s, j);
                if j <= j2 <= s.len() {
                    let r = spec_p_groups(s, j2);
                    (seq![g] + r.0, r.1)
                } else {
                    (seq![g], j)
                }
            } else {
                (seq![g], j)
            },
            _ => (Seq::empty(), i),
        }
    }
}

/// Parse a run of subpaths.
fn groups(s: &[u8], i: usize) -> (r: (Vec<MoveTo>, usize))
    requires
        i <= s@.len(),
    ensures
        r.0.deep_view() == spec_p_groups(s@, i as int).0,
        r.1 as int == spec_p_groups(s@, i as int).1,
        i <= r.1 <= s@.len(),
    decreases s@.len() - i,
{
    let j0 = skip_ws(s, i);
    match moveto_drawto_command_group(s, j0) {
        Ok((g, j)) => {
            if j0 < j {
                let j2 = skip_ws(s, j);
                let (mut rest, e) = groups(s, j2);
                let ghost pre = rest.deep_view();
                let ghost gv = g.deep_view();
                rest.insert(0, g);
                proof {
                    assert(rest.deep_view() =~= seq![gv] + pre);
                }
                (rest, e)
            } else {
                let ghost gv = g.deep_view();
                let mut v: Vec<MoveTo> = Vec::new();
                v.push(g);
                proof {
                    assert(v.deep_view() =~= seq![gv]);
                }
                (v, j)
            }
        },
        Err(_) => {
            let v: Vec<MoveTo> = Vec::new();
            proof {
                assert(v.deep_view() =~= Seq::<SpecMoveTo>::empty());
            }
            (v, i)
        },
    }
}

/// A whole path string: subpaths amid whitespace, and nothing else — any
/// bytes left over make the path invalid at that position.  A string with no
/// subpaths at all is the empty path.
pub open spec fn spec_parse_path(s: Seq<u8>) -> PRes<Seq<SpecMoveTo>> {
    let r = spec_p_groups(s, 0);
    if 0 <= r.1 <= s.len() {
        let e = spec_sws(s, r.1);
        if e == s.len() {
            PRes::Val(r.0, e)
        } else {
            PRes::Invalid(e)
        }
    } else {
        PRes::Invalid(0)
    }
}

/// A string of nothing but whitespace (the empty string included) is the
/// empty path.
pub proof fn lemma_whitespace_is_empty_path(s: Seq<u8>)
    requires
        forall|k: int| 0 <= k < s.len() ==> crate::prim::spec_is_ws(s[k]),
    ensures
        spec_parse_path(s) == PRes::Val(Seq::<SpecMoveTo>::empty(), s.len() as int),
{
    assert forall|k: int| 0 <= k < s.len() implies crate::prim::ws_pred()(s[k]) by {
        assert(crate::prim::spec_is_ws(s[k]));
    }
    crate::prim::lemma_skip_while_all(s, 0, crate::prim::ws_pred());
    assert(spec_sws(s, 0) == s.len());
    assert(spec_p_moveto(s, s.len() as int) is Incomplete);
    assert(spec_p_group(s, s.len() as int) is Incomplete);
    assert(spec_p_groups(s, 0) == (Seq::<SpecMoveTo>::empty(), 0int));
}

impl Path {
    /// Parse a whole path string.  The result is exactly what the grammar
    /// `spec_parse_path` assigns to the input.
    pub fn parse(s: &[u8]) -> (r: Result<Path, ParseError>)
        ensures
            match r {
                Ok(p) => spec_parse_path(s@) == PRes::Val(p.deep_view(), s@.len() as int),
                Err(ParseError::Incomplete) => spec_parse_path(s@) is Incomplete,
                Err(ParseError::Invalid(p)) => spec_parse_path(s@) == PRes::<
                    Seq<SpecMoveTo>,
                >::Invalid(p as int),
            },
    {
        let (gs, j) = groups(s, 0);
        let e = skip_ws(s, j);
        if e == s.len() {
            Ok(Path(gs))
        } else {
            Err(ParseError::Invalid(e))
        }
    }
}

// ---------------------------------------------------------------------------
// Flattening.
// ---------------------------------------------------------------------------

/// Resolve a coordinate against the current point: a relative coordinate is
/// an offset from it, an absolute coordinate is used unchanged.
pub open spec fn spec_adjust(p: Point, ct: CommandType, cur: Point) -> Point {
    if ct is Relative {
        spec_translate(p, cur)
    } else {
        p
    }
}

impl Point {
    /// Resolve this coordinate against the current point.
    pub fn adjust(self, cmd_type: CommandType, start: Point) -> (r: Point)
        ensures
            r == spec_adjust(self, cmd_type, start),
    {
        if cmd_type.is_relative() {
            self.translate(start)
        } else {
            self
        }
    }
}

/// Division by 1000, truncated toward zero.
pub open spec fn trunc_div_1000(n: int) -> int {
    if n >= 0 {
        n / 1000
    } else {
        -((-n) / 1000)
    }
}

/// One coordinate of an interior sample of a cubic Bezier at parameter
/// `k/10`: the cubic weighted sum of the four control coordinates, divided
/// by 1000 (the weights sum to 1000), clamped into the coordinate range.
pub open spec fn spec_bezier_coord(a: int, b: int, c: int, d: int, k: int) -> int {
    let u = 10 - k;
    clamp_coord(trunc_div_1000(u * u * u * a + 3 * u * u * k * b + 3 * u * k * k * c + k * k * k * d))
}

/// The interior sample at parameter `k/10`.
pub open spec fn spec_bezier_point(p1: Point, c1: Point, c2: Point, p2: Point, k: int) -> Point {
    Point(
        spec_bezier_coord(p1.0 as int, c1.0 as int, c2.0 as int, p2.0 as int, k) as i64,
        spec_bezier_coord(p1.1 as int, c1.1 as int, c2.1 as int, p2.1 as int, k) as i64,
    )
}

/// The nine interior samples of a cubic Bezier, at parameters 1/10 .. 9/10.
pub open spec fn spec_bezier(p1: Point, c1: Point, c2: Point, p2: Point) -> Seq<Point> {
    Seq::new(9, |k: int| spec_bezier_point(p1, c1, c2, p2, k + 1))
}

/// One coordinate of a Bezier sample, executably.
fn bez_coord(a: i64, b: i64, c: i64, d: i64, k: usize) -> (r: i64)
    requires
        1 <= k <= 9,
    ensures
        r as int == spec_bezier_coord(a as int, b as int, c as int, d as int, k as int),
{
    let u: i128 = 10 - k as i128;
    let t: i128 = k as i128;
    let big: i128 = 0x8000_0000_0000_0000i128;
    proof {
        assert(1 <= u <= 9 && 1 <= t <= 9);
        assert(-big <= a as i128 <= big && -big <= b as i128 <= big && -big <= c as i128 <= big
            && -big <= d as i128 <= big);
        assert(1 <= u * u <= 81 && 1 <= u * u * u <= 729) by (nonlinear_arith)
            requires
                1 <= u <= 9,
        ;
        assert(1 <= t * t <= 81 && 1 <= t * t * t <= 729) by (nonlinear_arith)
            requires
                1 <= t <= 9,
        ;
        assert(3 <= 3 * (u * u) * t <= 2187) by (nonlinear_arith)
            requires
                1 <= u * u <= 81 && 1 <= t <= 9,
        ;
        assert(3 <= 3 * u * (t * t) <= 2187) by (nonlinear_arith)
            requires
                1 <= t * t <= 81 && 1 <= u <= 9,
        ;
        assert(-729 * big <= (u * u * u) * (a as i128) <= 729 * big) by (nonlinear_arith)
            requires
                1 <= u * u * u <= 729 && -big <= a as i128 <= big && big > 0,
        ;
        assert(-2187 * big <= (3 * (u * u) * t) * (b as i128) <= 2187 * big) by (nonlinear_arith)
            requires
                3 <= 3 * (u * u) * t <= 2187 && -big <= b as i128 <= big && big > 0,
        ;
        assert(-2187 * big <= (3 * u * (t * t)) * (c as i128) <= 2187 * big) by (nonlinear_arith)
            requires
                3 <= 3 * u * (t * t) <= 2187 && -big <= c as i128 <= big && big > 0,
        ;
        assert(-729 * big <= (t * t * t) * (d as i128) <= 729 * big) by (nonlinear_arith)
            requires
                1 <= t * t * t <= 729 && -big <= d as i128 <= big && big > 0,
        ;
    }
    let uu: i128 = u * u;
    let uuu: i128 = uu * u;
    let tt: i128 = t * t;
    let ttt: i128 = tt * t;
    let cb: i128 = 3 * uu * t;
    let cc: i128 = 3 * u * tt;
    let ta: i128 = uuu * (a as i128);
    let tb: i128 = cb * (b as i128);
    let tc: i128 = cc * (c as i128);
    let td: i128 = ttt * (d as i128);
    proof {
        assert(ta as int == (10 - k) * (10 - k) * (10 - k) * (a as int)) by (nonlinear_arith)
            requires
                ta == ((u * u) * u) * (a as i128) && u as int == 10 - k,
        ;
        assert(tb as int == 3 * (10 - k) * (10 - k) * (k as int) * (b as int))
            by (nonlinear_arith)
            requires
                tb == (3 * (u * u) * t) * (b as i128) && u as int == 10 - k && t == k,
        ;
        assert(tc as int == 3 * (10 - k) * (k as int) * (k as int) * (c as int))
            by (nonlinear_arith)
            requires
                tc == (3 * u * (t * t)) * (c as i128) && u as int == 10 - k && t == k,
        ;
        assert(td as int == (k as int) * (k as int) * (k as int) * (d as int))
            by (nonlinear_arith)
            requires
                td == ((t * t) * t) * (d as i128) && t == k,
        ;
    }
    let sum: i128 = ta + tb + tc + td;
    let mag: u128 = if sum >= 0 {
        sum as u128
    } else {
        (-sum) as u128
    };
    let q: u128 = mag / 1000;
    proof {
        assert(q <= mag);
    }
    let signed: i128 = if sum >= 0 {
        q as i128
    } else {
        -(q as i128)
    };
    if signed > crate::geom::MAX_COORD as i128 {
        crate::geom::MAX_COORD
    } else if signed < -crate::geom::MAX_COORD as i128 {
        -crate::geom::MAX_COORD
    } else {
        signed as i64
    }
}

/// The nine interior samples of a cubic Bezier, executably.
fn bezier(p1: Point, c1: Point, c2: Point, p2: Point) -> (v: Vec<Point>)
    ensures
        v@ == spec_bezier(p1, c1, c2, p2),
{
    let mut v: Vec<Point> = Vec::new();
    let mut k: usize = 1;
    while k < 10
        invariant
            1 <= k <= 10,
            v@.len() == k - 1,
            forall|m: int| 0 <= m < k - 1 ==> v@[m] == spec_bezier_point(p1, c1, c2, p2, m + 1),
        decreases 10 - k,
    {
        let x = bez_coord(p1.0, c1.0, c2.0, p2.0, k);
        let y = bez_coord(p1.1, c1.1, c2.1, p2.1, k);
        v.push(Point(x, y));
        k = k + 1;
    }
    proof {
        assert(v@ =~= spec_bezier(p1, c1, c2, p2));
    }
    v
}

/// What one drawing command does: the new current point, and the points it
/// appends to the subpath.
pub open spec fn spec_draw_cmd(cur: Point, start: Point, cmd: DrawTo) -> (Point, Seq<Point>) {
    match cmd {
        DrawTo::LineTo(ct, p) => {
            let q = spec_adjust(p, ct, cur);
            (q, seq![q])
        },
        DrawTo::ClosePath => (start, seq![start]),
        DrawTo::CurveTo(ct, c1, c2, p2) => {
            let c1a = spec_adjust(c1, ct, cur);
            let c2a = spec_adjust(c2, ct, cur);
            let p2a = spec_adjust(p2, ct, cur);
            (p2a, spec_bezier(cur, c1a, c2a, p2a) + seq![p2a])
        },
    }
}

/// Commands folded left to right, threading the current point.
pub open spec fn spec_draw_cmds(cur: Point, start: Point, cmds: Seq<DrawTo>) -> (Point, Seq<Point>)
    decreases cmds.len(),
{
    if cmds.len() == 0 {
        (cur, Seq::empty())
    } else {
        let h = spec_draw_cmd(cur, start, cmds.first());
        let r = spec_draw_cmds(h.0, start, cmds.drop_first());
        (r.0, h.1 + r.1)
    }
}

pub proof fn lemma_draw_cmds_push(cur: Point, start: Point, cmds: Seq<DrawTo>, x: DrawTo)
    ensures
        spec_draw_cmds(cur, start, cmds.push(x)).0 == spec_draw_cmd(
            spec_draw_cmds(cur, start, cmds).0,
            start,
            x,
        ).0,
        spec_draw_cmds(cur, start, cmds.push(x)).1 == spec_draw_cmds(cur, start, cmds).1
            + spec_draw_cmd(spec_draw_cmds(cur, start, cmds).0, start, x).1,
    decreases cmds.len(),
{
    if cmds.len() == 0 {
        assert(cmds.push(x).first() == x);
        assert(cmds.push(x).drop_first() =~= Seq::<DrawTo>::empty());
        let h = spec_draw_cmd(cur, start, x);
        assert(spec_draw_cmds(h.0, start, Seq::<DrawTo>::empty()).1 =~= Seq::<Point>::empty());
        assert(spec_draw_cmds(cur, start, cmds.push(x)).1 =~= spec_draw_cmds(cur, start, cmds).1
            + spec_draw_cmd(spec_draw_cmds(cur, start, cmds).0, start, x).1);
    } else {
        assert(cmds.push(x).first() == cmds.first());
        assert(cmds.push(x).drop_first() =~= cmds.drop_first().push(x));
        let h = spec_draw_cmd(cur, start, cmds.first());
        lemma_draw_cmds_push(h.0, start, cmds.drop_first(), x);
        assert(spec_draw_cmds(cur, start, cmds.push(x)).1 =~= spec_draw_cmds(cur, start, cmds).1
            + spec_draw_cmd(spec_draw_cmds(cur, start, cmds).0, start, x).1);
    }
}

/// What one subpath draws, given the document cursor: the new cursor and the
/// subpath's polygon.  The start point is resolved against the cursor, every
/// command against the running current point; if the collected points close a
/// ring, the polygon is marked closed and the duplicate dropped.
pub open spec fn spec_moveto_draw(m: SpecMoveTo, cursor: Point) -> (Point, SpecPolygon) {
    let start = spec_adjust(m.start, m.cmd_type, cursor);
    let r = spec_draw_cmds(start, start, m.commands);
    (r.0, spec_polygon_from(seq![start] + r.1))
}

impl MoveTo {
    /// Flatten this subpath against the document cursor.
    #[verifier::loop_isolation(false)]
    pub fn draw(&self, start: Point) -> (r: (Point, Polygon))
        ensures
            r.0 == spec_moveto_draw(self.deep_view(), start).0,
            r.1@ == spec_moveto_draw(self.deep_view(), start).1,
    {
        let sa = self.start.adjust(self.cmd_type, start);
        let mut points: Vec<Point> = Vec::new();
        points.push(sa);
        let mut cur = sa;
        let mut k: usize = 0;
        proof {
            assert(self.commands@.subrange(0, 0) =~= Seq::<DrawTo>::empty());
            assert(points@ =~= seq![sa] + spec_draw_cmds(sa, sa, self.commands@.subrange(0, 0)).1);
        }
        while k < self.commands.len()
            invariant
                k <= self.commands@.len(),
                cur == spec_draw_cmds(sa, sa, self.commands@.subrange(0, k as int)).0,
                points@ == seq![sa] + spec_draw_cmds(sa, sa, self.commands@.subrange(0, k as int)).1,
            decreases self.commands@.len() - k,
        {
            let ghost pre = self.commands@.subrange(0, k as int);
            proof {
                lemma_draw_cmds_push(sa, sa, pre, self.commands@[k as int]);
                assert(self.commands@.subrange(0, k + 1 as int) =~= pre.push(
                    self.commands@[k as int],
                ));
            }
            let cmd = self.commands[k];
            match cmd {
                DrawTo::LineTo(ct, p) => {
                    let q = p.adjust(ct, cur);
                    points.push(q);
                    cur = q;
                    proof {
                        assert(points@ =~= seq![sa] + spec_draw_cmds(
                            sa,
                            sa,
                            self.commands@.subrange(0, k + 1 as int),
                        ).1);
                    }
                },
                DrawTo::ClosePath => {
                    points.push(sa);
                    cur = sa;
                    proof {
                        assert(points@ =~= seq![sa] + spec_draw_cmds(
                            sa,
                            sa,
                            self.commands@.subrange(0, k + 1 as int),
                        ).1);
                    }
                },
                DrawTo::CurveTo(ct, c1, c2, p2) => {
                    let c1a = c1.adjust(ct, cur);
                    let c2a = c2.adjust(ct, cur);
                    let p2a = p2.adjust(ct, cur);
                    let mut curve = bezier(cur, c1a, c2a, p2a);
                    points.append(&mut curve);
                    points.push(p2a);
                    cur = p2a;
                    proof {
                        assert(points@ =~= seq![sa] + spec_draw_cmds(
                            sa,
                            sa,
                            self.commands@.subrange(0, k + 1 as int),
                        ).1);
                    }
                },
            }
            k = k + 1;
        }
        proof {
            assert(self.commands@.subrange(0, self.commands@.len() as int) =~= self.commands@);
        }
        let polygon = Polygon::from(points);
        (cur, polygon)
    }
}

/// Flattening a curve command appends exactly ten points, and the last of
/// them is the literal resolved endpoint — the subdivision never drifts away
/// from the endpoint the path stated.  The current point moves to that same
/// endpoint.
pub proof fn lemma_curveto_endpoint(
    cur: Point,
    start: Point,
    ct: CommandType,
    c1: Point,
    c2: Point,
    p2: Point,
)
    ensures
        ({
            let r = spec_draw_cmd(cur, start, DrawTo::CurveTo(ct, c1, c2, p2));
            r.1.len() == 10 && r.1.last() == spec_adjust(p2, ct, cur) && r.0 == spec_adjust(
                p2,
                ct,
                cur,
            )
        }),
{
    let p2a = spec_adjust(p2, ct, cur);
    let c1a = spec_adjust(c1, ct, cur);
    let c2a = spec_adjust(c2, ct, cur);
    assert((spec_bezier(cur, c1a, c2a, p2a) + seq![p2a]).last() == p2a);
}

/// Whole-path flattening: one polygon per subpath, threading the cursor from
/// the origin across subpaths in order.
pub open spec fn spec_draw_path(gs: Seq<SpecMoveTo>, cursor: Point) -> (Point, Seq<SpecPolygon>)
    decreases gs.len(),
{
    if gs.len() == 0 {
        (cursor, Seq::empty())
    } else {
        let h = spec_moveto_draw(gs.first(), cursor);
        let r = spec_draw_path(gs.drop_first(), h.0);
        (r.0, seq![h.1] + r.1)
    }
}

pub proof fn lemma_draw_path_push(gs: Seq<SpecMoveTo>, cursor: Point, x: SpecMoveTo)
    ensures
        spec_draw_path(gs.push(x), cursor).0 == spec_moveto_draw(
            x,
            spec_draw_path(gs, cursor).0,
        ).0,
        spec_draw_path(gs.push(x), cursor).1 == spec_draw_path(gs, cursor).1 + seq![
            spec_moveto_draw(x, spec_draw_path(gs, cursor).0).1,
        ],
    decreases gs.len(),
{
    if gs.len() == 0 {
        assert(gs.push(x).first() == x);
        assert(gs.push(x).drop_first() =~= Seq::<SpecMoveTo>::empty());
        let h = spec_moveto_draw(x, cursor);
        assert(spec_draw_path(Seq::<SpecMoveTo>::empty(), h.0).1 =~= Seq::<SpecPolygon>::empty());
        assert(spec_draw_path(gs.push(x), cursor).1 =~= spec_draw_path(gs, cursor).1 + seq![
            spec_moveto_draw(x, spec_draw_path(gs, cursor).0).1,
        ]);
    } else {
        assert(gs.push(x).first() == gs.first());
        assert(gs.push(x).drop_first() =~= gs.drop_first().push(x));
        let h = spec_moveto_draw(gs.first(), cursor);
        lemma_draw_path_push(gs.drop_first(), h.0, x);
        assert(spec_draw_path(gs.push(x), cursor).1 =~= spec_draw_path(gs, cursor).1 + seq![
            spec_moveto_draw(x, spec_draw_path(gs, cursor).0).1,
        ]);
    }
}

/// Flattening yields exactly one polygon per subpath, whatever the cursor.
pub proof fn lemma_one_polygon_per_subpath(gs: Seq<SpecMoveTo>, cursor: Point)
    ensures
        spec_draw_path(gs, cursor).1.len() == gs.len(),
    decreases gs.len(),
{
    if gs.len() > 0 {
        lemma_one_polygon_per_subpath(gs.drop_first(), spec_moveto_draw(gs.first(), cursor).0);
    }
}

impl Path {
    /// Flatten the whole path into polygons, one per subpath, starting the
    /// cursor at the origin.
    #[verifier::loop_isolation(false)]
    pub fn draw(&self) -> (r: Vec<Polygon>)
        ensures
            r.deep_view() == spec_draw_path(self.deep_view(), Point(0, 0)).1,
    {
        let mut cursor = Point(0, 0);
        let mut polygons: Vec<Polygon> = Vec::new();
        let mut k: usize = 0;
        proof {
            assert(self.0.deep_view().subrange(0, 0) =~= Seq::<SpecMoveTo>::empty());
            assert(polygons.deep_view() =~= spec_draw_path(
                self.0.deep_view().subrange(0, 0),
                Point(0, 0),
            ).1);
        }
        while k < self.0.len()
            invariant
                k <= self.0@.len(),
                self.0.deep_view().len() == self.0@.len(),
                cursor == spec_draw_path(self.0.deep_view().subrange(0, k as int), Point(0, 0)).0,
                polygons.deep_view() == spec_draw_path(
                    self.0.deep_view().subrange(0, k as int),
                    Point(0, 0),
                ).1,
            decreases self.0@.len() - k,
        {
            let ghost pre = self.0.deep_view().subrange(0, k as int);
            proof {
                assert(self.0.deep_view()[k as int] == self.0@[k as int].deep_view());
                lemma_draw_path_push(pre, Point(0, 0), self.0.deep_view()[k as int]);
                assert(self.0.deep_view().subrange(0, k + 1 as int) =~= pre.push(
                    self.0.deep_view()[k as int],
                ));
            }
            let (next, polygon) = self.0[k].draw(cursor);
            cursor = next;
            polygons.push(polygon);
            proof {
                assert(polygons.deep_view() =~= spec_draw_path(
                    self.0.deep_view().subrange(0, k + 1 as int),
                    Point(0, 0),
                ).1);
            }
            k = k + 1;
        }
        proof {
            assert(self.0.deep_view().subrange(0, self.0.deep_view().len() as int)
                =~= self.0.deep_view());
        }
        polygons
    }
}

} // verus!
