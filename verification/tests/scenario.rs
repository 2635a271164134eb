//! Whole queries on floating-point coordinates, with the numeric predicates
//! evaluated here and every decision made by the library.

use geom_2d::distance::{line_line_dist, Search};
use geom_2d::inter::{coincident_segs, merge_coincident, InterPoint, OTHER_A, OTHER_B, SELF_A, SELF_B};
use geom_2d::line::{intersects_linestring, intersects_polygon, linear_intersection, vertices_in_polygon};
use geom_2d::mono::MonoSpan;
use geom_2d::ring::{completely_in_ring, contains_line, EdgeCast};
use geom_2d::segment::{dist_to_point, inter_relation, intersects, seg_seg_distance, Closest, DistancePlan, Param, Solve};
use geom_2d::util::{process_chains, Sign};
use std::cmp::Ordering;
use std::collections::BTreeSet;

const EPSILON: f64 = 1.0e-12;

fn feq(a: f64, b: f64) -> bool {
    a == b || (a - b).abs() < EPSILON
}

#[derive(Copy, Clone, Debug)]
struct Pt {
    x: f64,
    y: f64,
}

fn pt(x: f64, y: f64) -> Pt {
    Pt { x, y }
}

impl PartialEq for Pt {
    fn eq(&self, other: &Pt) -> bool {
        feq(self.x, other.x) && feq(self.y, other.y)
    }
}

impl Eq for Pt {}

impl PartialOrd for Pt {
    fn partial_cmp(&self, other: &Pt) -> Option<Ordering> {
        Some(self.cmp(other))
    }
}

impl Ord for Pt {
    fn cmp(&self, other: &Pt) -> Ordering {
        let mut d = self.x - other.x;
        if feq(d, 0.0) {
            d = self.y - other.y;
        }
        if feq(d, 0.0) {
            Ordering::Equal
        } else if d < 0.0 {
            Ordering::Less
        } else {
            Ordering::Greater
        }
    }
}

#[derive(Copy, Clone, Debug)]
struct Bx {
    minx: f64,
    miny: f64,
    maxx: f64,
    maxy: f64,
}

impl Bx {
    fn of(a: Pt, b: Pt) -> Bx {
        Bx { minx: a.x.min(b.x), miny: a.y.min(b.y), maxx: a.x.max(b.x), maxy: a.y.max(b.y) }
    }

    fn over(coords: &[Pt]) -> Bx {
        let mut b = Bx::of(coords[0], coords[0]);
        for p in coords.iter() {
            b = b.with(&Bx::of(*p, *p));
        }
        b
    }

    fn with(&self, o: &Bx) -> Bx {
        Bx {
            minx: self.minx.min(o.minx),
            miny: self.miny.min(o.miny),
            maxx: self.maxx.max(o.maxx),
            maxy: self.maxy.max(o.maxy),
        }
    }

    fn disjoint(&self, o: &Bx) -> bool {
        o.minx > self.maxx || o.maxx < self.minx || o.miny > self.maxy || o.maxy < self.miny
    }

    fn meets(&self, o: &Bx) -> bool {
        !self.disjoint(o)
    }

    fn holds(&self, p: Pt) -> bool {
        p.x >= self.minx && p.x <= self.maxx && p.y >= self.miny && p.y <= self.maxy
    }

    fn shared(&self, o: &Bx) -> Bx {
        Bx {
            minx: self.minx.max(o.minx),
            miny: self.miny.max(o.miny),
            maxx: self.maxx.min(o.maxx),
            maxy: self.maxy.min(o.maxy),
        }
    }

    fn area(&self) -> f64 {
        (self.maxx - self.minx) * (self.maxy - self.miny)
    }
}

fn sign_of(v: f64) -> Sign {
    if v > 0. {
        Sign::Pos
    } else if v < 0. {
        Sign::Neg
    } else {
        Sign::Zero
    }
}

fn snap_to_zero(x: f64) -> f64 {
    if feq(x, 0.0) {
        0.0
    } else {
        x
    }
}

fn snap_to_zero_or_one(x: f64) -> f64 {
    if feq(x, 0.0) {
        0.0
    } else if feq(x, 1.0) {
        1.0
    } else {
        x
    }
}

fn position(u: f64) -> Param {
    if u < 0. {
        Param::Before
    } else if u > 1. {
        Param::After
    } else if u == 0. {
        Param::Start
    } else if u == 1. {
        Param::End
    } else {
        Param::Within
    }
}

// ------------------------------------------------------------- segments

fn terms(sa: Pt, sb: Pt, oa: Pt, ob: Pt) -> (f64, f64, f64) {
    let a = ((ob.x - oa.x) * (sa.y - oa.y)) - ((ob.y - oa.y) * (sa.x - oa.x));
    let b = ((sb.x - sa.x) * (sa.y - oa.y)) - ((sb.y - sa.y) * (sa.x - oa.x));
    let d = ((ob.y - oa.y) * (sb.x - sa.x)) - ((ob.x - oa.x) * (sb.y - sa.y));
    (a, b, d)
}

fn solve(sa: Pt, sb: Pt, oa: Pt, ob: Pt) -> (Solve, f64) {
    let (a, b, d) = terms(sa, sb, oa, ob);
    let (a, b, d) = (snap_to_zero(a), snap_to_zero(b), snap_to_zero(d));
    if d == 0. {
        return (Solve::Parallel { collinear: a == 0. && b == 0. }, 0.);
    }
    let ua = snap_to_zero_or_one(a / d);
    let ub = snap_to_zero_or_one(b / d);
    (Solve::Crossing { ua: position(ua), ub: position(ub) }, ua)
}

fn seg_intersects(sa: Pt, sb: Pt, oa: Pt, ob: Pt) -> bool {
    intersects(solve(sa, sb, oa, ob).0, Bx::of(sa, sb).meets(&Bx::of(oa, ob)))
}

fn seg_intersection(sa: Pt, sb: Pt, oa: Pt, ob: Pt) -> Vec<InterPoint<Pt>> {
    match solve(sa, sb, oa, ob) {
        (Solve::Parallel { collinear: false }, _) => Vec::new(),
        (Solve::Parallel { collinear: true }, _) => {
            let (s_box, o_box) = (Bx::of(sa, sb), Bx::of(oa, ob));
            let mut coords = coincident_segs(
                s_box.meets(&o_box),
                (sa, o_box.holds(sa)),
                (sb, o_box.holds(sb)),
                (oa, s_box.holds(oa)),
                (ob, s_box.holds(ob)),
            );
            coords.sort_by(|a, b| a.pt.cmp(&b.pt));
            let mut joins = Vec::new();
            for k in 1..coords.len() {
                joins.push(coords[k - 1].pt == coords[k].pt);
            }
            merge_coincident(&coords, &joins)
        }
        (Solve::Crossing { ua, ub }, u) => {
            let mut coords = Vec::new();
            if intersects(Solve::Crossing { ua, ub }, false) {
                coords.push(InterPoint {
                    pt: pt(sa.x + u * (sb.x - sa.x), sa.y + u * (sb.y - sa.y)),
                    inter: inter_relation(ua, ub),
                });
            }
            coords
        }
    }
}

fn point_to_segment(sa: Pt, sb: Pt, p: Pt) -> f64 {
    let (dx, dy) = (sb.x - sa.x, sb.y - sa.y);
    let degenerate = feq(dx, 0.) && feq(dy, 0.);
    let u = (((p.x - sa.x) * dx) + ((p.y - sa.y) * dy)) / (dx * dx + dy * dy);
    let c = match dist_to_point(degenerate, position(u)) {
        Closest::Start => sa,
        Closest::End => sb,
        Closest::Foot => pt(sa.x + u * dx, sa.y + u * dy),
    };
    (p.x - c.x).hypot(p.y - c.y)
}

fn seg_distance(sa: Pt, sb: Pt, oa: Pt, ob: Pt) -> f64 {
    let (numera, numerb, denom) = terms(sa, sb, oa, ob);
    let solve = if denom.abs() < EPSILON {
        Solve::Parallel { collinear: false }
    } else {
        Solve::Crossing {
            ua: position(snap_to_zero_or_one(numera / denom)),
            ub: position(snap_to_zero_or_one(numerb / denom)),
        }
    };
    match seg_seg_distance(solve, sa == sb, oa == ob) {
        DistancePlan::Zero => 0.,
        DistancePlan::Points => (sa.x - ob.x).hypot(sa.y - ob.y),
        DistancePlan::Project { ends } => {
            let mut dist = std::f64::NAN;
            if ends & SELF_A != 0 {
                dist = dist.min(point_to_segment(oa, ob, sa));
            }
            if ends & SELF_B != 0 {
                dist = dist.min(point_to_segment(oa, ob, sb));
            }
            if ends & OTHER_A != 0 {
                dist = dist.min(point_to_segment(sa, sb, oa));
            }
            if ends & OTHER_B != 0 {
                dist = dist.min(point_to_segment(sa, sb, ob));
            }
            dist
        }
    }
}

// ---------------------------------------------------------------- lines

struct Line {
    coords: Vec<Pt>,
    bounds: Bx,
    chains: Vec<(MonoSpan, Bx)>,
}

impl Line {
    fn new(coords: &[Pt]) -> Line {
        assert!(coords.len() >= 2);
        let mut dirs = Vec::new();
        for k in 1..coords.len() {
            dirs.push((sign_of(coords[k].x - coords[k - 1].x), sign_of(coords[k].y - coords[k - 1].y)));
        }
        let (root, spans) = process_chains(&dirs);
        assert_eq!(root, MonoSpan { i: 0, j: coords.len() - 1 });
        let chains = spans.iter().map(|s| (*s, Bx::over(&coords[s.i..=s.j]))).collect();
        Line { coords: coords.to_vec(), bounds: Bx::over(coords), chains }
    }

    fn of(xy: &[[f64; 2]]) -> Line {
        let coords: Vec<Pt> = xy.iter().map(|v| pt(v[0], v[1])).collect();
        Line::new(&coords)
    }

    fn at(p: Pt) -> Line {
        Line::new(&[p, p])
    }

    fn ring(xy: &[[f64; 2]]) -> Line {
        let mut coords: Vec<Pt> = xy.iter().map(|v| pt(v[0], v[1])).collect();
        if coords[0] != coords[coords.len() - 1] {
            coords.push(coords[0]);
        }
        Line::new(&coords)
    }

    // the chains whose box meets the query box
    fn search(&self, query: &Bx) -> Vec<(MonoSpan, Bx)> {
        self.chains.iter().filter(|c| c.1.meets(query)).cloned().collect()
    }

    fn chain_pairs(&self, other: &Line) -> (Vec<(MonoSpan, MonoSpan)>, Vec<Bx>) {
        let mut pairs = Vec::new();
        let mut inters = Vec::new();
        for ibox in self.search(&other.bounds).iter() {
            for qbox in other.search(&ibox.1).iter() {
                pairs.push((ibox.0, qbox.0));
                inters.push(ibox.1.shared(&qbox.1));
            }
        }
        (pairs, inters)
    }

    fn edge_box(&self, m: usize) -> Bx {
        Bx::of(self.coords[m], self.coords[m + 1])
    }

    fn intersects_line(&self, other: &Line) -> bool {
        if self.bounds.disjoint(&other.bounds) {
            return false;
        }
        let (pairs, inters) = self.chain_pairs(other);
        let (a, b) = (&self.coords, &other.coords);
        intersects_linestring(
            a.len() - 1,
            b.len() - 1,
            &pairs,
            &|k: usize, m: usize| inters[k].meets(&self.edge_box(m)),
            &|k: usize, n: usize| inters[k].meets(&other.edge_box(n)),
            &|m: usize, n: usize| seg_intersects(a[m], a[m + 1], b[n], b[n + 1]),
        )
    }

    fn intersection_line(&self, other: &Line) -> Vec<Pt> {
        let mut ptset = BTreeSet::new();
        if self.bounds.disjoint(&other.bounds) {
            return Vec::new();
        }
        let (pairs, inters) = self.chain_pairs(other);
        let (a, b) = (&self.coords, &other.coords);
        let found = linear_intersection(
            a.len() - 1,
            b.len() - 1,
            &pairs,
            &|k: usize, m: usize| inters[k].meets(&self.edge_box(m)),
            &|k: usize, n: usize| inters[k].meets(&other.edge_box(n)),
        );
        for (m, n) in found.iter() {
            for p in seg_intersection(a[*m], a[*m + 1], b[*n], b[*n + 1]).iter() {
                ptset.insert(p.pt);
            }
        }
        ptset.into_iter().collect()
    }

    // ring queries

    fn ring_holds_point(&self, p: Pt) -> bool {
        if !self.bounds.holds(p) {
            return false;
        }
        let mut edges = Vec::new();
        for i in 1..self.coords.len() {
            let head = self.coords[i];
            let tail = self.coords[i - 1];
            let (hx, hy) = (head.x - p.x, head.y - p.y);
            let (tx, ty) = (tail.x - p.x, tail.y - p.y);
            edges.push(EdgeCast {
                head_above: head.y > p.y,
                tail_above: tail.y > p.y,
                area: sign_of(hx * ty - hy * tx),
                rise: sign_of(ty - hy),
            });
        }
        completely_in_ring(&edges)
    }

    fn ring_holds_line(&self, ln: &Line) -> bool {
        contains_line(self.bounds.disjoint(&ln.bounds), ln.coords.len(), &|v: usize| {
            self.ring_holds_point(ln.coords[v])
        })
    }

    fn ring_area(&self) -> f64 {
        let mut twice = 0.0;
        for i in 1..self.coords.len() {
            twice += self.coords[i - 1].x * self.coords[i].y - self.coords[i - 1].y * self.coords[i].x;
        }
        (twice / 2.0).abs()
    }

    // line against polygon

    fn intersects_rings(&self, rings: &[Line]) -> bool {
        if self.bounds.disjoint(&rings[0].bounds) {
            return false;
        }
        intersects_polygon(
            rings.len(),
            &|k: usize| self.intersects_line(&rings[k]),
            &|k: usize| rings[k].ring_holds_line(self),
        )
    }

    fn intersection_rings(&self, rings: &[Line]) -> Vec<Pt> {
        let mut ptset = BTreeSet::new();
        if self.bounds.meets(&rings[0].bounds) {
            for ring in rings.iter() {
                for p in self.intersection_line(ring).iter() {
                    ptset.insert(*p);
                }
            }
            let kept = vertices_in_polygon(self.coords.len(), rings.len(), &|ring: usize, v: usize| {
                rings[ring].ring_holds_point(self.coords[v])
            });
            for v in kept.iter() {
                ptset.insert(self.coords[*v]);
            }
        }
        ptset.into_iter().collect()
    }

    fn distance_line(&self, other: &Line) -> f64 {
        match line_line_dist(self.coords.len(), other.coords.len()) {
            Search::BruteForce => brute_force(&self.coords, &other.coords),
            Search::Indexed { query_is_self: true } => nearest(&self.coords, other),
            Search::Indexed { query_is_self: false } => nearest(&other.coords, self),
        }
    }
}

fn brute_force(a: &[Pt], b: &[Pt]) -> f64 {
    let mut dist = std::f64::MAX;
    for i in 0..a.len() - 1 {
        for j in 0..b.len() - 1 {
            let d = seg_distance(a[i], a[i + 1], b[j], b[j + 1]);
            if d < dist {
                dist = d;
            }
            if dist == 0.0 {
                return dist;
            }
        }
    }
    dist
}

// the least distance from the edges of `query` to the edges of `line`,
// leaving out the chains whose box is further away than the best so far
fn nearest(query: &[Pt], line: &Line) -> f64 {
    let mut best = std::f64::MAX;
    for i in 0..query.len() - 1 {
        let q = Bx::of(query[i], query[i + 1]);
        for chain in line.chains.iter() {
            let dx = (chain.1.minx - q.maxx).max(q.minx - chain.1.maxx).max(0.);
            let dy = (chain.1.miny - q.maxy).max(q.miny - chain.1.maxy).max(0.);
            if dx.hypot(dy) > best {
                continue;
            }
            for m in chain.0.i..chain.0.j {
                let d = seg_distance(query[i], query[i + 1], line.coords[m], line.coords[m + 1]);
                if d < best {
                    best = d;
                }
            }
        }
    }
    best
}

// ------------------------------------------------------------- polygons

struct Poly {
    rings: Vec<Line>,
}

impl Poly {
    fn of(rings: &[&[[f64; 2]]]) -> Poly {
        Poly { rings: rings.iter().map(|r| Line::ring(r)).collect() }
    }

    fn bounds(&self) -> Bx {
        self.rings[0].bounds
    }

    fn area(&self) -> f64 {
        let mut a = self.rings[0].ring_area();
        for hole in self.rings[1..].iter() {
            a -= hole.ring_area();
        }
        a
    }

    fn intersects(&self, other: &Poly) -> bool {
        if !self.bounds().meets(&other.bounds()) {
            return false;
        }
        if self.bounds().area() < other.bounds().area() {
            self.rings[0].intersects_rings(&other.rings)
        } else {
            other.rings[0].intersects_rings(&self.rings)
        }
    }

    fn intersects_line(&self, ln: &Line) -> bool {
        ln.intersects_rings(&self.rings)
    }

    fn intersection(&self, other: &Poly) -> Vec<Pt> {
        let mut ptset = BTreeSet::new();
        for ring in other.rings.iter() {
            for p in ring.intersection_rings(&self.rings) {
                ptset.insert(p);
            }
        }
        for ring in self.rings.iter() {
            for p in ring.intersection_rings(&other.rings) {
                ptset.insert(p);
            }
        }
        ptset.into_iter().collect()
    }

    fn intersection_line(&self, ln: &Line) -> Vec<Pt> {
        ln.intersection_rings(&self.rings)
    }

    fn distance(&self, other: &Poly) -> f64 {
        if self.intersects(other) {
            return 0.0;
        }
        let mut dist = std::f64::NAN;
        for a in self.rings.iter() {
            for b in other.rings.iter() {
                dist = dist.min(a.distance_line(b));
            }
        }
        dist
    }

    fn distance_line(&self, ln: &Line) -> f64 {
        if self.intersects_line(ln) {
            return 0.0;
        }
        let mut dist = std::f64::NAN;
        for a in self.rings.iter() {
            dist = dist.min(a.distance_line(ln));
        }
        dist
    }
}

// ------------------------------------------------------------- fixtures

const SQUARE_A: [[f64; 2]; 5] = [[450., 600.], [450., 725.], [575., 725.], [575., 600.], [450., 600.]];
const SQUARE_B: [[f64; 2]; 5] = [[575., 650.], [575., 775.], [650., 775.], [650., 650.], [575., 650.]];
const SQUARE_C: [[f64; 2]; 5] = [[675., 475.], [675., 550.], [825., 550.], [825., 475.], [675., 475.]];

const CONVEX_A: [[f64; 2]; 7] =
    [[730., 410.], [920., 500.], [930., 540.], [930., 580.], [900., 640.], [810., 650.], [750., 520.]];
const CONVEX_B: [[f64; 2]; 7] =
    [[630., 620.], [730., 410.], [890., 410.], [1040., 510.], [1080., 620.], [1020., 720.], [690., 720.]];

const LINE_1: [[f64; 2]; 8] =
    [[350., 710.], [400., 770.], [450., 770.], [480., 810.], [570., 820.], [670., 730.], [720., 760.], [930., 800.]];
const LINE_2: [[f64; 2]; 19] = [
    [620., 620.],
    [720., 690.],
    [790., 680.],
    [820., 630.],
    [870., 630.],
    [910., 600.],
    [900., 530.],
    [800., 450.],
    [730., 390.],
    [680., 420.],
    [640., 460.],
    [600., 480.],
    [650., 540.],
    [690., 570.],
    [780., 570.],
    [730., 630.],
    [680., 600.],
    [610., 570.],
    [550., 610.],
];

const PLY_SHELL: [[f64; 2]; 20] = [
    [720., 760.],
    [860., 770.],
    [950., 700.],
    [930., 640.],
    [800., 600.],
    [740., 580.],
    [730., 500.],
    [760., 440.],
    [720., 360.],
    [620., 390.],
    [510., 480.],
    [460., 570.],
    [440., 630.],
    [450., 740.],
    [480., 810.],
    [570., 820.],
    [570., 770.],
    [580., 740.],
    [670., 730.],
    [720., 760.],
];
const PLY_HOLE_1: [[f64; 2]; 7] =
    [[630., 670.], [580., 650.], [590., 600.], [650., 580.], [710., 600.], [710., 670.], [630., 670.]];
const PLY_HOLE_2: [[f64; 2]; 5] = [[780., 650.], [800., 640.], [850., 710.], [830., 720.], [780., 650.]];

const PLY2_SHELL: [[f64; 2]; 11] = [
    [860., 920.],
    [950., 880.],
    [860., 800.],
    [930., 720.],
    [880., 690.],
    [830., 700.],
    [810., 730.],
    [790., 790.],
    [820., 840.],
    [810., 870.],
    [860., 920.],
];
const PLY2_HOLE: [[f64; 2]; 5] = [[840., 750.], [860., 750.], [850., 800.], [830., 800.], [840., 750.]];

fn ply() -> Poly {
    Poly::of(&[&PLY_SHELL, &PLY_HOLE_1, &PLY_HOLE_2])
}

fn ply2() -> Poly {
    Poly::of(&[&PLY2_SHELL, &PLY2_HOLE])
}

// ---------------------------------------------------------------- tests

#[test]
fn closed_square_has_its_area() {
    assert_eq!(Poly::of(&[&SQUARE_A]).area(), 15625.);
    // holes are taken off the shell
    assert_eq!(ply().area(), ply().rings[0].ring_area() - 9550. - 1900.);
}

#[test]
fn convex_polygons_meet_in_seven_points() {
    let a = Poly::of(&[&CONVEX_A]);
    let b = Poly::of(&[&CONVEX_B]);
    assert_eq!(a.intersection(&b).len(), 7);
    assert_eq!(b.intersection(&a).len(), 7);
    assert!(a.intersects(&b));
    assert!(b.intersects(&a));
    assert_eq!(a.distance(&b), 0.);
}

#[test]
fn polygon_meets_lines_and_polygon_in_counted_points() {
    let ln = Line::of(&LINE_1);
    let ln2 = Line::of(&LINE_2);
    assert_eq!(ply().intersection_line(&ln).len(), 4);
    assert_eq!(ply().intersection_line(&ln2).len(), 22);
    assert_eq!(ply().intersection(&ply2()).len(), 13);
}

#[test]
fn points_and_segments_against_polygon_and_lines() {
    let ply = ply();
    let ln = Line::of(&LINE_1);
    let ln2 = Line::of(&LINE_2);
    let pt_a = pt(620., 620.);
    let pt_b = pt(710., 600.);
    let pt_c = pt(722.1298042987639, 582.0334837046336);
    let pt_d = pt(720., 360.);
    let seg_aa = Line::new(&[pt_a, pt_a]);
    let seg_ab = Line::new(&[pt_a, pt_b]);

    // a point in a hole, a point on a hole's boundary
    assert_eq!(Line::at(pt_a).intersection_rings(&ply.rings).len(), 0);
    assert_eq!(Line::at(pt_b).intersection_rings(&ply.rings).len(), 1);
    assert_eq!(seg_aa.intersection_rings(&ply.rings).len(), 0);
    assert_eq!(seg_ab.intersection_rings(&ply.rings).len(), 1);

    assert_eq!(Line::at(pt_a).intersection_line(&ln).len(), 0);
    assert_eq!(ln.intersection_line(&Line::at(pt_a)).len(), 0);
    assert_eq!(seg_ab.intersection_line(&Line::at(pt_a)).len(), 1);
    assert_eq!(Line::at(pt_a).intersection_line(&seg_ab).len(), 1);

    // a point inside the polygon, a vertex of the shell
    assert_eq!(Line::at(pt_c).intersection_rings(&ply.rings).len(), 1);
    assert_eq!(Line::at(pt_d).intersection_rings(&ply.rings).len(), 1);

    assert_eq!(Line::at(pt_a).intersection_line(&Line::at(pt_b)).len(), 0);
    assert_eq!(Line::at(pt_a).intersection_line(&Line::at(pt_a)).len(), 1);
    assert_eq!(Line::at(pt_a).intersection_line(&ln2).len(), 1);
    assert_eq!(ln2.intersection_line(&Line::at(pt_a)).len(), 1);
    assert_eq!(ln2.intersection_line(&Line::at(pt_b)).len(), 0);
    for p in [pt(730., 600.), pt(680., 630.), pt(780., 660.), pt(630., 570.)].iter() {
        assert_eq!(ln2.intersection_line(&Line::at(*p)).len(), 0);
    }
}

#[test]
fn lines_and_polygons_that_stay_apart() {
    let lna = Line::of(&[[0.5, 0.5], [0.06, -0.1], [0.26, -0.61], [0., -1.], [-1.5, -1.], [-0.5, -0.5]]);
    let coords2 = [[0.64, 1.72], [1.18, 1.87], [1.68, 1.43], [0.54, 1.38]];
    let lnb = Line::of(&coords2);
    let plya = Poly::of(&[&coords2]);
    let plyb = Poly::of(&[
        &[[0.64, 1.72], [1.18, 1.87], [1.68, 1.43], [0.54, 1.38], [0.64, 1.72]],
        &[[0.9471, 1.5300], [0.9471, 1.7102], [1.0653, 1.7102], [1.0653, 1.5300], [0.9471, 1.5300]],
    ]);
    let plyc = Poly::of(&[&[
        [0.9694190834241365, 1.6351888097521738],
        [0.9963995357624527, 1.6647388289798535],
        [1.013101720543315, 1.6467518607543095],
        [1.032373472213541, 1.6608844786458083],
        [1.0465060901050398, 1.6454670773096276],
        [1.0278767301571547, 1.6313344594181287],
        [1.0400821728816312, 1.6152746663596074],
        [0.9880484433720215, 1.6094931408585396],
        [0.9694190834241365, 1.6351888097521738],
    ]]);
    let plyd = Poly::of(&[
        &[
            [1.06137745847723, 1.0766292071767967],
            [0.9394836291630517, 0.8815990802741116],
            [1.3140301228738902, 0.7752190110544651],
            [1.593277804575462, 1.0034929095882898],
            [1.2453263281695353, 1.185225527838519],
            [1.06137745847723, 1.0766292071767967],
        ],
        &[
            [1.2364613224012313, 1.0832779615030246],
            [1.1212162474132812, 1.0012766581462138],
            [1.2364613224012313, 0.9303566119997828],
            [1.3472738945050298, 0.9613841321888464],
            [1.4093289348831568, 1.0300879268932013],
            [1.3384088887367258, 1.0877104643871764],
            [1.2364613224012313, 1.0832779615030246],
        ],
        &[
            [1.1721900305810282, 0.850571560085048],
            [1.1721900305810282, 0.8838153317161875],
            [1.3517063973891816, 0.8838153317161875],
            [1.3517063973891816, 0.850571560085048],
            [1.1721900305810282, 0.850571560085048],
        ],
    ]);
    let plye = Poly::of(&[&[
        [-0.2405548235983036, -0.1291889913629033],
        [0.3266242131459507, 0.0813804713804726],
        [0.5032308593178143, -0.0442819499341227],
        [0.5747608247298315, -0.5006764018668276],
        [0.3368130581174044, -0.6318386766212843],
        [0.3979461279461264, -0.2718328209632546],
        [0.224735763431414, -0.1461703996486594],
        [-0.2099882886839426, -0.292210510906162],
        [-0.2405548235983036, -0.1291889913629033],
    ]]);
    let plyf = Poly::of(&[&[
        [-0.277913921826967, -0.5367427902210501],
        [-0.4850871029131916, -0.6997643097643087],
        [-0.3424432733128402, -0.8152378861074503],
        [-0.2337622602840011, -0.7303308446786697],
        [-0.1080998389694059, -0.8661821109647186],
        [0.0141663006880382, -0.7371234079929722],
        [-0.1182886839408595, -0.5842907334211672],
        [-0.277913921826967, -0.5367427902210501],
    ]]);
    let plyg = Poly::of(&[&[
        [0.1161332552173457, -0.4654208754208744],
        [0.1161332552173457, -0.2431398008042315],
        [0.2824725516029848, -0.2431398008042315],
        [0.2824725516029848, -0.4654208754208744],
        [0.1161332552173457, -0.4654208754208744],
    ]]);

    assert!(!lna.intersects_line(&lnb));
    assert!(!plya.intersects_line(&lna));

    // a polygon inside the hole of another
    assert!(!plyb.intersects(&plyc));

    assert!(!plyb.intersects_line(&lna));

    assert!(!plyd.intersects(&plyb));
    assert!(!plyb.intersects(&plyd));

    assert!(!plyd.intersects(&plyc));
    assert!(!plyc.intersects(&plyd));

    assert!(!plye.intersects(&plyg));
    assert!(!plyg.intersects(&plye));

    assert!(plye.intersects_line(&lna));
    assert!(!plyf.intersects_line(&lna));
}

#[test]
fn short_line_has_one_chain_over_all_its_vertices() {
    let ln = Line::of(&[[5.78, 8.07], [6.44, 9.09], [7.87, 9.61]]);
    assert_eq!(ln.chains.len(), 1);
    assert_eq!(ln.chains[0].0, MonoSpan { i: 0, j: 2 });
}

#[test]
fn squares_that_share_part_of_a_side() {
    let a = Poly::of(&[&SQUARE_A]);
    let b = Poly::of(&[&SQUARE_B]);
    let c = Poly::of(&[&SQUARE_C]);
    // the sides on x = 575 lie on one line and their boxes overlap
    assert!(a.intersects(&b));
    assert!(b.intersects(&a));
    assert_eq!(a.distance(&b), 0.);
    assert!(!a.intersects(&c));
    assert!(!c.intersects(&a));
    // the shared stretch shows as its two ends
    assert_eq!(a.intersection(&b), vec![pt(575., 650.), pt(575., 725.)]);
    // from the corner (575, 600) to the corner (675, 550)
    assert_eq!(a.distance(&c), (100f64).hypot(50.));
    assert_eq!(c.distance(&a), a.distance(&c));
}

#[test]
fn distance_from_a_point_to_a_line_is_the_least_segment_distance() {
    let ln = Line::of(&[
        [757.9565217391305, 725.7391304347826],
        [757.9565217391305, 696.608695652174],
        [744.0434782608696, 661.8260869565217],
        [709.2608695652174, 656.1739130434783],
        [714.4782608695652, 621.8260869565217],
        [693.1739130434783, 589.6521739130435],
        [597.5217391304348, 591.3913043478261],
        [607.9565217391304, 548.3478260869565],
        [608.8260869565217, 519.2173913043478],
        [569.695652173913, 510.9565217391304],
        [540.9999999999999, 531.8260869565217],
        [494.91304347826076, 551.3913043478261],
        [467.5217391304347, 534.8695652173913],
        [436.65217391304344, 555.7391304347826],
    ]);
    let p = pt(650., 550.);
    let at = Line::at(p);
    let mut least = std::f64::MAX;
    for m in 0..ln.coords.len() - 1 {
        least = least.min(point_to_segment(ln.coords[m], ln.coords[m + 1], p));
    }
    assert_eq!(line_line_dist(at.coords.len(), ln.coords.len()), Search::BruteForce);
    assert_eq!(at.distance_line(&ln), least);
    assert_eq!(ln.distance_line(&at), least);
    assert_eq!(brute_force(&at.coords, &ln.coords), nearest(&at.coords, &ln));
    // the nearest stretch runs along y = 591.39.. a little to the left
    assert!(least > 39.0 && least < 43.0);
}

#[test]
fn long_lines_are_measured_through_their_chains() {
    let mut a = Vec::new();
    let mut b = Vec::new();
    for k in 0..40 {
        let x = k as f64;
        a.push(pt(x, (x * 0.7).sin()));
        b.push(pt(x + 0.5, 5.0 + (x * 0.3).cos()));
    }
    let (la, lb) = (Line::new(&a), Line::new(&b));
    assert_eq!(line_line_dist(a.len(), b.len()), Search::Indexed { query_is_self: true });
    assert_eq!(la.distance_line(&lb), brute_force(&a, &b));
    assert_eq!(lb.distance_line(&la), brute_force(&b, &a));
    assert!(!la.intersects_line(&lb));
}

#[test]
fn segment_is_at_no_distance_from_itself() {
    let (a, b) = (pt(3., 4.), pt(3.2, 4.7));
    assert_eq!(seg_distance(a, b, a, b), 0.);
    assert_eq!(seg_distance(a, a, a, a), 0.);
    assert_eq!(Line::at(a).distance_line(&Line::at(a)), 0.);
    assert!(seg_intersects(a, b, a, b));
    assert!(seg_intersects(a, a, a, a));
}

#[test]
fn segments_meet_exactly_when_they_are_at_no_distance() {
    let pts = [pt(0., 0.), pt(4., 0.), pt(2., 2.), pt(2., -2.), pt(6., 0.), pt(2., 0.), pt(5., 5.), pt(0., 4.)];
    for sa in pts.iter() {
        for sb in pts.iter() {
            for oa in pts.iter() {
                for ob in pts.iter() {
                    let meet = seg_intersects(*sa, *sb, *oa, *ob);
                    assert_eq!(meet, seg_intersects(*oa, *ob, *sa, *sb));
                    assert_eq!(meet, seg_distance(*sa, *sb, *oa, *ob) == 0.);
                }
            }
        }
    }
}

#[test]
fn crossing_and_touching_segments_are_tagged() {
    let x = seg_intersection(pt(0., 0.), pt(4., 4.), pt(0., 4.), pt(4., 0.));
    assert_eq!(x.len(), 1);
    assert_eq!(x[0].pt, pt(2., 2.));
    assert!(x[0].is_intersection());

    let t = seg_intersection(pt(0., 0.), pt(4., 0.), pt(4., 0.), pt(4., 3.));
    assert_eq!(t.len(), 1);
    assert_eq!(t[0].pt, pt(4., 0.));
    assert_eq!(t[0].inter, SELF_B | OTHER_A);

    let overlap = seg_intersection(pt(0., 0.), pt(2., 0.), pt(1., 0.), pt(3., 0.));
    assert_eq!(overlap.len(), 2);
    assert_eq!((overlap[0].pt, overlap[0].inter), (pt(1., 0.), OTHER_A));
    assert_eq!((overlap[1].pt, overlap[1].inter), (pt(2., 0.), SELF_B));

    let same = seg_intersection(pt(0., 0.), pt(2., 0.), pt(0., 0.), pt(2., 0.));
    assert_eq!(same.len(), 2);
    assert_eq!(same[0].inter, SELF_A | OTHER_A);
    assert_eq!(same[1].inter, SELF_B | OTHER_B);

    let end_to_end = seg_intersection(pt(0., 0.), pt(2., 0.), pt(2., 0.), pt(5., 0.));
    assert_eq!(end_to_end.len(), 1);
    assert_eq!((end_to_end[0].pt, end_to_end[0].inter), (pt(2., 0.), SELF_B | OTHER_A));

    assert!(seg_intersection(pt(0., 0.), pt(2., 0.), pt(3., 0.), pt(5., 0.)).is_empty());
    assert!(seg_intersection(pt(0., 0.), pt(2., 0.), pt(0., 1.), pt(2., 1.)).is_empty());
    assert!(seg_intersection(pt(0., 0.), pt(2., 0.), pt(3., -1.), pt(3., 1.)).is_empty());
}
