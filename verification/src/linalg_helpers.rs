//! Exact planar geometry on the lattice: lengths, orientation and crossings.

use crate::fixed::{half, in_window, lemma_part_bound, magnitude, quotient, quotient_of, UNIT};
use vstd::prelude::*;

verus! {

/// A segment from `(l.0, l.1)` to `(l.2, l.3)`.
pub type Segment = (i64, i64, i64, i64);

/// Both end points of `l` lie in the window of the lattice.
pub open spec fn segment_in_window(l: Segment) -> bool {
    in_window(l.0 as int) && in_window(l.1 as int) && in_window(l.2 as int) && in_window(l.3 as int)
}

/// The integer square root: the largest `r` with `r * r <= n`.
pub open spec fn is_floor_sqrt(n: int, r: int) -> bool {
    0 <= r && r * r <= n < (r + 1) * (r + 1)
}

/// The integer square root of `n`.
pub open spec fn floor_sqrt(n: int) -> int {
    choose|r: int| is_floor_sqrt(n, r)
}

/// There is one integer square root.
pub proof fn lemma_floor_sqrt_unique(n: int, r: int)
    requires
        is_floor_sqrt(n, r),
    ensures
        floor_sqrt(n) == r,
{
    let c = floor_sqrt(n);
    assert(is_floor_sqrt(n, c));
    assert(c == r) by (nonlinear_arith)
        requires
            0 <= c,
            c * c <= n < (c + 1) * (c + 1),
            0 <= r,
            r * r <= n < (r + 1) * (r + 1),
    ;
}

/// The squared length of the vector `(x, y)`.
pub open spec fn norm_sq_spec(x: int, y: int) -> int {
    x * x + y * y
}

/// The squared distance between `(x1, y1)` and `(x2, y2)`.
pub open spec fn dist_sq_spec(x1: int, y1: int, x2: int, y2: int) -> int {
    norm_sq_spec(x1 - x2, y1 - y2)
}

/// Largest magnitude of the difference of two coordinates.
pub const OFFSET_MAX: i64 = 1_073_741_824;

/// Largest magnitude of the cross product of two coordinate differences.
pub const CROSS_MAX: i128 = 2_305_843_009_213_693_952;

/// A coordinate difference of two points in the window.
pub open spec fn is_offset(d: int) -> bool {
    -OFFSET_MAX <= d <= OFFSET_MAX
}

/// The cross product of `(x1, y1)` and `(x2, y2)`: positive for a
/// counter-clockwise turn, negative for a clockwise one, zero when the two
/// vectors are parallel.
pub open spec fn cross(x1: int, y1: int, x2: int, y2: int) -> int {
    x1 * y2 - y1 * x2
}

/// The product of two coordinate differences is at most half of `CROSS_MAX`.
pub proof fn lemma_offset_product(a: int, b: int)
    requires
        is_offset(a),
        is_offset(b),
    ensures
        -1_152_921_504_606_846_976 <= a * b <= 1_152_921_504_606_846_976,
{
    assert(-1_152_921_504_606_846_976 <= a * b <= 1_152_921_504_606_846_976) by (nonlinear_arith)
        requires
            -1_073_741_824 <= a <= 1_073_741_824,
            -1_073_741_824 <= b <= 1_073_741_824,
    ;
}

/// Largest `r` with `r * r <= n`.
pub fn isqrt(n: u64) -> (r: u64)
    ensures
        is_floor_sqrt(n as int, r as int),
        r == floor_sqrt(n as int),
        r < 4_294_967_296,
{
    let mut lo: u64 = 0;
    let mut hi: u64 = 4_294_967_296;
    assert(n < 4_294_967_296 * 4_294_967_296) by (nonlinear_arith)
        requires
            n <= u64::MAX,
    ;
    while hi - lo > 1
        invariant
            lo < hi <= 4_294_967_296,
            lo * lo <= n < hi * hi,
        decreases hi - lo,
    {
        let mid: u64 = lo + (hi - lo) / 2;
        assert(mid * mid < 4_294_967_296 * 4_294_967_296) by (nonlinear_arith)
            requires
                mid < 4_294_967_296,
        ;
        if mid * mid <= n {
            lo = mid;
        } else {
            hi = mid;
        }
    }
    proof {
        lemma_floor_sqrt_unique(n as int, lo as int);
    }
    lo
}

/// The squared length of `(x, y)`.
pub fn norm_sq(x: i64, y: i64) -> (r: u64)
    requires
        is_offset(x as int),
        is_offset(y as int),
    ensures
        r == norm_sq_spec(x as int, y as int),
{
    proof {
        lemma_offset_product(x as int, x as int);
        lemma_offset_product(y as int, y as int);
        assert(x * x >= 0 && y * y >= 0) by (nonlinear_arith);
    }
    let xx: i128 = (x as i128) * (x as i128);
    let yy: i128 = (y as i128) * (y as i128);
    (xx + yy) as u64
}

/// The length of `(x, y)`, rounded down to the lattice.
pub fn norm(x: i64, y: i64) -> (r: i64)
    requires
        is_offset(x as int),
        is_offset(y as int),
    ensures
        r == floor_sqrt(norm_sq_spec(x as int, y as int)),
        is_floor_sqrt(norm_sq_spec(x as int, y as int), r as int),
        0 <= r < 4_294_967_296,
{
    let root: u64 = isqrt(norm_sq(x, y));
    root as i64
}

/// The squared distance between two points of the window.
pub fn dist_sq(x1: i64, y1: i64, x2: i64, y2: i64) -> (r: u64)
    requires
        in_window(x1 as int),
        in_window(y1 as int),
        in_window(x2 as int),
        in_window(y2 as int),
    ensures
        r == dist_sq_spec(x1 as int, y1 as int, x2 as int, y2 as int),
{
    norm_sq(x1 - x2, y1 - y2)
}

/// The distance between two points of the window, rounded down to the lattice.
pub fn dist(x1: i64, y1: i64, x2: i64, y2: i64) -> (r: i64)
    requires
        in_window(x1 as int),
        in_window(y1 as int),
        in_window(x2 as int),
        in_window(y2 as int),
    ensures
        r == floor_sqrt(dist_sq_spec(x1 as int, y1 as int, x2 as int, y2 as int)),
        is_floor_sqrt(dist_sq_spec(x1 as int, y1 as int, x2 as int, y2 as int), r as int),
        0 <= r < 4_294_967_296,
{
    norm(x1 - x2, y1 - y2)
}

/// The cross product of two coordinate differences.
pub fn cross_product(x1: i64, y1: i64, x2: i64, y2: i64) -> (r: i128)
    requires
        is_offset(x1 as int),
        is_offset(y1 as int),
        is_offset(x2 as int),
        is_offset(y2 as int),
    ensures
        r == cross(x1 as int, y1 as int, x2 as int, y2 as int),
        -CROSS_MAX <= r <= CROSS_MAX,
{
    proof {
        lemma_offset_product(x1 as int, y2 as int);
        lemma_offset_product(y1 as int, x2 as int);
    }
    (x1 as i128) * (y2 as i128) - (y1 as i128) * (x2 as i128)
}

/// The denominator of both crossing parameters: the cross product of the
/// directions of `a` and `b`.
pub open spec fn crossing_den(a: Segment, b: Segment) -> int {
    cross(a.2 - a.0, a.3 - a.1, b.2 - b.0, b.3 - b.1)
}

/// The numerator of the parameter along `a` at which the line of `b` is met.
pub open spec fn crossing_num_a(a: Segment, b: Segment) -> int {
    cross(b.0 - a.0, b.1 - a.1, b.2 - b.0, b.3 - b.1)
}

/// The numerator of the parameter along `b` at which the line of `a` is met.
pub open spec fn crossing_num_b(a: Segment, b: Segment) -> int {
    cross(b.0 - a.0, b.1 - a.1, a.2 - a.0, a.3 - a.1)
}

/// The fraction `num / den` lies strictly between 0 and 1.
pub open spec fn strictly_inside(num: int, den: int) -> bool {
    (den > 0 && 0 < num < den) || (den < 0 && den < num < 0)
}

/// `a` and `b` cross properly: they are not parallel and meet in a point that
/// is interior to both. Segments that only share an end point, and segments
/// that lie on one line, do not cross.
pub open spec fn segments_cross(a: Segment, b: Segment) -> bool {
    &&& crossing_den(a, b) != 0
    &&& strictly_inside(crossing_num_a(a, b), crossing_den(a, b))
    &&& strictly_inside(crossing_num_b(a, b), crossing_den(a, b))
}

/// The coordinate `start + span * num / den`, rounded towards `start`.
pub open spec fn advance(start: int, span: int, num: int, den: int) -> int {
    if span >= 0 {
        start + (span * num) / den
    } else {
        start - ((-span) * num) / den
    }
}

/// The lattice point at which `a` meets `b`, each coordinate rounded towards
/// the start of `a`.
pub open spec fn crossing_point(a: Segment, b: Segment) -> (int, int) {
    let num = magnitude(crossing_num_a(a, b));
    let den = magnitude(crossing_den(a, b));
    (advance(a.0 as int, a.2 - a.0, num, den), advance(a.1 as int, a.3 - a.1, num, den))
}

/// `p` is the lattice point at which `a` meets `b`, and lies in the window.
pub open spec fn is_crossing_point(p: (i64, i64), a: Segment, b: Segment) -> bool {
    &&& (p.0 as int, p.1 as int) == crossing_point(a, b)
    &&& in_window(p.0 as int)
    &&& in_window(p.1 as int)
}

proof fn lemma_advance_stays(span: int, num: int, den: int)
    requires
        0 <= span <= OFFSET_MAX,
        0 <= num < den <= CROSS_MAX,
    ensures
        0 <= (span * num) / den <= span,
        0 <= span * num <= 2_475_880_078_570_760_549_798_248_448,
{
    assert(0 <= span * num <= 2_475_880_078_570_760_549_798_248_448) by (nonlinear_arith)
        requires
            0 <= span <= 1_073_741_824,
            0 <= num <= 2_305_843_009_213_693_952,
    ;
    assert(0 <= span * num <= span * den) by (nonlinear_arith)
        requires
            0 <= span,
            0 <= num < den,
    ;
    vstd::arithmetic::div_mod::lemma_div_is_ordered(span * num, span * den, den);
    vstd::arithmetic::div_mod::lemma_div_is_ordered(0, span * num, den);
    vstd::arithmetic::div_mod::lemma_div_multiples_vanish(span, den);
    assert(span * den == den * span) by (nonlinear_arith);
}

fn advance_exec(start: i64, span: i64, num: u128, den: u128) -> (r: i64)
    requires
        in_window(start as int),
        in_window(start + span),
        num < den <= CROSS_MAX,
    ensures
        r == advance(start as int, span as int, num as int, den as int),
        in_window(r as int),
{
    if span >= 0 {
        proof {
            lemma_advance_stays(span as int, num as int, den as int);
        }
        let step: u128 = ((span as u128) * num) / den;
        start + (step as i64)
    } else {
        proof {
            lemma_advance_stays(-span as int, num as int, den as int);
        }
        let step: u128 = (((-span) as u128) * num) / den;
        start - (step as i64)
    }
}

/// The point in which two segments cross properly, if they do.
pub fn intersection(
    x1: i64,
    y1: i64,
    x2: i64,
    y2: i64,
    x3: i64,
    y3: i64,
    x4: i64,
    y4: i64,
) -> (r: Option<(i64, i64)>)
    requires
        segment_in_window((x1, y1, x2, y2)),
        segment_in_window((x3, y3, x4, y4)),
    ensures
        r is Some <==> segments_cross((x1, y1, x2, y2), (x3, y3, x4, y4)),
        r is Some ==> is_crossing_point(r.unwrap(), (x1, y1, x2, y2), (x3, y3, x4, y4)),
{
    let rx: i64 = x2 - x1;
    let ry: i64 = y2 - y1;
    let sx: i64 = x4 - x3;
    let sy: i64 = y4 - y3;
    let cross_rs: i128 = cross_product(rx, ry, sx, sy);
    if cross_rs == 0 {
        None
    } else {
        let t: i128 = cross_product(x3 - x1, y3 - y1, sx, sy);
        let u: i128 = cross_product(x3 - x1, y3 - y1, rx, ry);
        let inside: bool = if cross_rs > 0 {
            0 < t && t < cross_rs && 0 < u && u < cross_rs
        } else {
            cross_rs < t && t < 0 && cross_rs < u && u < 0
        };
        if inside {
            let num: u128 = if t >= 0 {
                t as u128
            } else {
                (-t) as u128
            };
            let den: u128 = if cross_rs >= 0 {
                cross_rs as u128
            } else {
                (-cross_rs) as u128
            };
            Some((advance_exec(x1, rx, num, den), advance_exec(y1, ry, num, den)))
        } else {
            None
        }
    }
}

/// Every segment of `lines` lies in the window.
pub open spec fn lines_in_window(lines: Seq<Segment>) -> bool {
    forall|i: int| 0 <= i < lines.len() ==> segment_in_window(#[trigger] lines[i])
}

/// No two segments of `lines` cross properly.
pub open spec fn crossing_free(lines: Seq<Segment>) -> bool {
    forall|i: int, j: int|
        0 <= i < j < lines.len() ==> !segments_cross(#[trigger] lines[i], #[trigger] lines[j])
}

/// No pair of segments that the scan reaches before the pair `(i, j)` crosses.
pub open spec fn crossing_free_before(lines: Seq<Segment>, i: int, j: int) -> bool {
    forall|a: int, b: int|
        0 <= a < b < lines.len() && (a < i || (a == i && b < j)) ==> !segments_cross(
            #[trigger] lines[a],
            #[trigger] lines[b],
        )
}

/// `(i, j)` is the first crossing pair in scan order: by first index, then by
/// second.
pub open spec fn first_crossing(lines: Seq<Segment>, i: int, j: int) -> bool {
    &&& 0 <= i < j < lines.len()
    &&& segments_cross(lines[i], lines[j])
    &&& crossing_free_before(lines, i, j)
}

/// `p` is the crossing point of the first crossing pair of `lines`.
pub open spec fn is_first_crossing_point(lines: Seq<Segment>, p: (i64, i64)) -> bool {
    exists|i: int, j: int| #[trigger]
        first_crossing(lines, i, j) && is_crossing_point(p, lines[i], lines[j])
}

/// Looks for two segments that cross properly, scanning every unordered pair
/// once, and returns the crossing point of the first pair found.
pub fn lines_intersection(lines: &Vec<Segment>) -> (r: Option<(i64, i64)>)
    requires
        lines_in_window(lines@),
    ensures
        r is None <==> crossing_free(lines@),
        r is Some ==> is_first_crossing_point(lines@, r.unwrap()),
{
    let n: usize = lines.len();
    let mut i: usize = 0;
    while i < n
        invariant
            n == lines@.len(),
            i <= n,
            lines_in_window(lines@),
            crossing_free_before(lines@, i as int, 0),
        decreases n - i,
    {
        let (x1, y1, x2, y2) = lines[i];
        let mut j: usize = i + 1;
        while j < n
            invariant
                n == lines@.len(),
                i < j <= n,
                lines_in_window(lines@),
                (x1, y1, x2, y2) == lines@[i as int],
                crossing_free_before(lines@, i as int, j as int),
            decreases n - j,
        {
            let (x3, y3, x4, y4) = lines[j];
            assert(segment_in_window(lines@[i as int]));
            assert(segment_in_window(lines@[j as int]));
            match intersection(x1, y1, x2, y2, x3, y3, x4, y4) {
                Some(point) => {
                    assert(first_crossing(lines@, i as int, j as int));
                    return Some(point);
                },
                None => {},
            }
            j += 1;
        }
        i += 1;
    }
    None
}

/// The segments that join the first point of a layer to each of its points in
/// turn, the last of them to the first point itself. A layer of fewer than two
/// points has none.
pub open spec fn fan_of(layer: Seq<(i64, i64)>) -> Seq<Segment> {
    if layer.len() >= 2 {
        Seq::new(
            layer.len(),
            |i: int|
                (
                    layer[0].0,
                    layer[0].1,
                    layer[(i + 1) % (layer.len() as int)].0,
                    layer[(i + 1) % (layer.len() as int)].1,
                ),
        )
    } else {
        Seq::empty()
    }
}

/// The fans of the first `k` layers, one after the other.
pub open spec fn fans_of(point_layers: Seq<Vec<(i64, i64)>>, k: nat) -> Seq<Segment>
    decreases k,
{
    if k == 0 {
        Seq::empty()
    } else {
        fans_of(point_layers, (k - 1) as nat) + fan_of(point_layers[k - 1]@)
    }
}

/// For each layer of at least two points, the segments from its first point
/// to each of its points in turn.
pub fn points_to_cyclic_lines(point_layers: &Vec<Vec<(i64, i64)>>) -> (ret: Vec<Segment>)
    ensures
        ret@ == fans_of(point_layers@, point_layers@.len()),
{
    let mut ret: Vec<Segment> = Vec::new();
    let mut l: usize = 0;
    while l < point_layers.len()
        invariant
            l <= point_layers@.len(),
            ret@ == fans_of(point_layers@, l as nat),
        decreases point_layers@.len() - l,
    {
        let layer: &Vec<(i64, i64)> = &point_layers[l];
        let ghost before = ret@;
        if layer.len() >= 2 {
            let prev: (i64, i64) = layer[0];
            let mut i: usize = 0;
            while i < layer.len()
                invariant
                    layer@.len() >= 2,
                    prev == layer@[0],
                    i <= layer@.len(),
                    ret@ == before + fan_of(layer@).take(i as int),
                decreases layer@.len() - i,
            {
                let ind: usize = if i + 1 < layer.len() {
                    i + 1
                } else {
                    0
                };
                assert(ind == (i + 1) % (layer@.len() as int)) by {
                    if i + 1 < layer@.len() {
                        vstd::arithmetic::div_mod::lemma_small_mod((i + 1) as nat, layer@.len());
                    } else {
                        vstd::arithmetic::div_mod::lemma_mod_self_0(layer@.len() as int);
                    }
                }
                ret.push((prev.0, prev.1, layer[ind].0, layer[ind].1));
                assert(ret@ =~= before + fan_of(layer@).take(i + 1));
                i += 1;
            }
            assert(fan_of(layer@).take(layer@.len() as int) =~= fan_of(layer@));
        } else {
            assert(ret@ =~= before + fan_of(layer@));
        }
        l += 1;
    }
    ret
}

/// The squared distance from point `k` of layer `l` to `(x, y)`.
pub open spec fn layer_point_dist_sq(
    point_layers: Seq<Vec<(i64, i64)>>,
    l: int,
    k: int,
    x: int,
    y: int,
) -> int {
    dist_sq_spec(point_layers[l]@[k].0 as int, point_layers[l]@[k].1 as int, x, y)
}

/// Point `k` of layer `l` is nearest to `(x, y)` among the points of all
/// layers, and no point before it, in the order of layers and of points in a
/// layer, is as near.
pub open spec fn is_closest_point(
    point_layers: Seq<Vec<(i64, i64)>>,
    l: int,
    k: int,
    x: int,
    y: int,
) -> bool {
    &&& 0 <= l < point_layers.len()
    &&& 0 <= k < point_layers[l]@.len()
    &&& forall|m: int, j: int|
        0 <= m < point_layers.len() && 0 <= j < point_layers[m]@.len() ==> layer_point_dist_sq(
            point_layers,
            l,
            k,
            x,
            y,
        ) <= #[trigger] layer_point_dist_sq(point_layers, m, j, x, y)
    &&& forall|m: int, j: int|
        0 <= m < point_layers.len() && 0 <= j < point_layers[m]@.len() && (m < l || (m == l && j
            < k)) ==> layer_point_dist_sq(point_layers, l, k, x, y) < #[trigger] layer_point_dist_sq(
            point_layers,
            m,
            j,
            x,
            y,
        )
}

/// Every point of every layer lies in the window.
pub open spec fn layers_in_window(point_layers: Seq<Vec<(i64, i64)>>) -> bool {
    forall|m: int, j: int|
        0 <= m < point_layers.len() && 0 <= j < point_layers[m]@.len() ==> in_window(
            (#[trigger] point_layers[m]@[j]).0 as int,
        ) && in_window(point_layers[m]@[j].1 as int)
}

/// The point nearest to `(point_x, point_y)` among the points of all layers,
/// the first among equals; nothing where there is no point at all.
pub fn closest_point(point_layers: &Vec<Vec<(i64, i64)>>, point_x: i64, point_y: i64) -> (r: Option<
    (i64, i64),
>)
    requires
        layers_in_window(point_layers@),
        in_window(point_x as int),
        in_window(point_y as int),
    ensures
        r is None <==> forall|m: int|
            0 <= m < point_layers@.len() ==> (#[trigger] point_layers@[m])@.len() == 0,
        r is Some ==> exists|l: int, k: int|
            #![trigger point_layers@[l]@[k]]
            is_closest_point(point_layers@, l, k, point_x as int, point_y as int) && r.unwrap()
                == point_layers@[l]@[k],
{
    let mut glob_min: Option<(i64, i64)> = None;
    let mut best: u64 = 0;
    let ghost mut at: (int, int) = (0, 0);
    let mut l: usize = 0;
    while l < point_layers.len()
        invariant
            layers_in_window(point_layers@),
            in_window(point_x as int),
            in_window(point_y as int),
            l <= point_layers@.len(),
            glob_min is None ==> forall|m: int|
                0 <= m < l ==> (#[trigger] point_layers@[m])@.len() == 0,
            glob_min is Some ==> {
                &&& 0 <= at.0 < l
                &&& 0 <= at.1 < point_layers@[at.0]@.len()
                &&& glob_min.unwrap() == point_layers@[at.0]@[at.1]
                &&& best == layer_point_dist_sq(
                    point_layers@,
                    at.0,
                    at.1,
                    point_x as int,
                    point_y as int,
                )
                &&& forall|m: int, j: int|
                    0 <= m < l && 0 <= j < point_layers@[m]@.len() ==> best
                        <= #[trigger] layer_point_dist_sq(
                        point_layers@,
                        m,
                        j,
                        point_x as int,
                        point_y as int,
                    )
                &&& forall|m: int, j: int|
                    0 <= m < l && 0 <= j < point_layers@[m]@.len() && (m < at.0 || (m == at.0 && j
                        < at.1)) ==> best < #[trigger] layer_point_dist_sq(
                        point_layers@,
                        m,
                        j,
                        point_x as int,
                        point_y as int,
                    )
            },
        decreases point_layers@.len() - l,
    {
        let layer: &Vec<(i64, i64)> = &point_layers[l];
        let mut k: usize = 0;
        while k < layer.len()
            invariant
                layers_in_window(point_layers@),
                in_window(point_x as int),
                in_window(point_y as int),
                l < point_layers@.len(),
                layer@ == point_layers@[l as int]@,
                k <= layer@.len(),
                glob_min is None ==> k == 0 && forall|m: int|
                    0 <= m < l ==> (#[trigger] point_layers@[m])@.len() == 0,
                glob_min is Some ==> {
                    &&& 0 <= at.0 <= l
                    &&& 0 <= at.1 < point_layers@[at.0]@.len()
                    &&& at.0 == l ==> at.1 < k
                    &&& glob_min.unwrap() == point_layers@[at.0]@[at.1]
                    &&& best == layer_point_dist_sq(
                        point_layers@,
                        at.0,
                        at.1,
                        point_x as int,
                        point_y as int,
                    )
                    &&& forall|m: int, j: int|
                        0 <= m <= l && 0 <= j < point_layers@[m]@.len() && (m < l || j < k) ==> best
                            <= #[trigger] layer_point_dist_sq(
                            point_layers@,
                            m,
                            j,
                            point_x as int,
                            point_y as int,
                        )
                    &&& forall|m: int, j: int|
                        0 <= m <= l && 0 <= j < point_layers@[m]@.len() && (m < at.0 || (m == at.0
                            && j < at.1)) ==> best < #[trigger] layer_point_dist_sq(
                            point_layers@,
                            m,
                            j,
                            point_x as int,
                            point_y as int,
                        )
                },
            decreases layer@.len() - k,
        {
            let p: (i64, i64) = layer[k];
            assert(p == point_layers@[l as int]@[k as int]);
            let d: u64 = dist_sq(p.0, p.1, point_x, point_y);
            let nearer: bool = match glob_min {
                Some(_) => d < best,
                None => true,
            };
            if nearer {
                glob_min = Some(p);
                best = d;
                proof {
                    at = (l as int, k as int);
                }
            }
            k += 1;
        }
        l += 1;
    }
    proof {
        if glob_min is Some {
            assert(is_closest_point(point_layers@, at.0, at.1, point_x as int, point_y as int));
        }
    }
    glob_min
}

/// The component `a` of a vector of length `len`, scaled to the length of one
/// unit and rounded towards zero.
pub open spec fn unit_component(a: int, len: int) -> int {
    if a >= 0 {
        quotient(a * UNIT, len)
    } else {
        -quotient((-a) * UNIT, len)
    }
}

/// The vector of one unit of length that points the way of `(x, y)`.
pub open spec fn normed_vector_spec(x: int, y: int) -> (int, int) {
    let len = floor_sqrt(norm_sq_spec(x, y));
    (unit_component(x, len), unit_component(y, len))
}

/// The length of a vector is at least the magnitude of each component, and
/// at most the sum of the two.
pub proof fn lemma_length_and_components(x: int, y: int, len: int)
    requires
        is_floor_sqrt(norm_sq_spec(x, y), len),
    ensures
        -len <= x <= len,
        -len <= y <= len,
        len <= magnitude(x) + magnitude(y),
        (x != 0 || y != 0) ==> len > 0,
{
    assert(-len <= x <= len && -len <= y <= len) by (nonlinear_arith)
        requires
            0 <= len,
            x * x + y * y < (len + 1) * (len + 1),
    ;
    let a = magnitude(x);
    let b = magnitude(y);
    assert(a * a == x * x && b * b == y * y) by (nonlinear_arith)
        requires
            a == x || a == -x,
            b == y || b == -y,
    ;
    assert(len <= a + b) by (nonlinear_arith)
        requires
            0 <= len,
            0 <= a,
            0 <= b,
            len * len <= a * a + b * b,
    {
        assert(a * a + b * b <= (a + b) * (a + b));
    }
    if x != 0 || y != 0 {
        assert(len > 0) by (nonlinear_arith)
            requires
                0 <= len,
                x * x + y * y < (len + 1) * (len + 1),
                x != 0 || y != 0,
        ;
    }
}

/// The component `a` of a vector of length `len`, scaled to one unit.
fn unit_component_of(a: i64, len: i64) -> (r: i64)
    requires
        0 < len,
        -len <= a <= len,
        len <= 2 * OFFSET_MAX,
    ensures
        r == unit_component(a as int, len as int),
        -UNIT <= r <= UNIT,
        2 * magnitude(a as int) >= len ==> r != 0,
{
    let part: i64 = if a >= 0 {
        a
    } else {
        -a
    };
    proof {
        lemma_part_bound(UNIT as int, part as int, len as int);
        assert(UNIT * part == part * UNIT) by (nonlinear_arith);
        if 2 * part >= len {
            assert(part * UNIT >= len) by (nonlinear_arith)
                requires
                    2 * part >= len,
                    part >= 0,
                    UNIT == 1_048_576,
            ;
            vstd::arithmetic::div_mod::lemma_div_is_ordered(
                len as int,
                part * UNIT,
                len as int,
            );
            vstd::arithmetic::div_mod::lemma_div_by_self(len as int);
        }
    }
    let q: i128 = quotient_of((part as i128) * (UNIT as i128), len as i128);
    if a >= 0 {
        q as i64
    } else {
        (-q) as i64
    }
}

/// The vector of one unit of length that points the way of `(x, y)`.
pub fn normed_vector(x: i64, y: i64) -> (r: (i64, i64))
    requires
        is_offset(x as int),
        is_offset(y as int),
        x != 0 || y != 0,
    ensures
        (r.0 as int, r.1 as int) == normed_vector_spec(x as int, y as int),
        -UNIT <= r.0 <= UNIT,
        -UNIT <= r.1 <= UNIT,
        r.0 != 0 || r.1 != 0,
{
    let len: i64 = norm(x, y);
    proof {
        lemma_length_and_components(x as int, y as int, len as int);
    }
    (unit_component_of(x, len), unit_component_of(y, len))
}

/// The direction between two directions of one unit each: half their sum,
/// or, where that is nothing, the first turned by a quarter.
pub open spec fn between(a: (int, int), b: (int, int)) -> (int, int) {
    let mid = (half(a.0 + b.0), half(a.1 + b.1));
    if mid.0 == 0 && mid.1 == 0 {
        (-a.1, a.0)
    } else {
        mid
    }
}

/// The unit vector that bisects the angle at `middle` between the ways to
/// `clkwise` and to `ctrclkwise`, on the side to which the normal of the chord
/// from `clkwise` to `ctrclkwise` points. Where the two neighbours are one
/// point there is no chord and no side to take: the vector then points the
/// way of that point.
pub open spec fn bisecting_vector_spec(
    middle: (int, int),
    clkwise: (int, int),
    ctrclkwise: (int, int),
) -> (int, int) {
    let dir = between(
        normed_vector_spec(clkwise.0 - middle.0, clkwise.1 - middle.1),
        normed_vector_spec(ctrclkwise.0 - middle.0, ctrclkwise.1 - middle.1),
    );
    if clkwise == ctrclkwise {
        normed_vector_spec(dir.0, dir.1)
    } else {
        let at_zero = normed_vector_spec(ctrclkwise.1 - clkwise.1, clkwise.0 - ctrclkwise.0);
        if norm_sq_spec(at_zero.0 - dir.0, at_zero.1 - dir.1) > norm_sq_spec(
            at_zero.0 + dir.0,
            at_zero.1 + dir.1,
        ) {
            normed_vector_spec(-dir.0, -dir.1)
        } else {
            normed_vector_spec(dir.0, dir.1)
        }
    }
}

/// The unit vector that bisects the angle at the middle point between the
/// ways to its two neighbours.
pub fn bisecting_vector(
    middle_x: i64,
    middle_y: i64,
    clkwise_x: i64,
    clkwise_y: i64,
    ctrclkwise_x: i64,
    ctrclkwise_y: i64,
) -> (r: (i64, i64))
    requires
        in_window(middle_x as int),
        in_window(middle_y as int),
        in_window(clkwise_x as int),
        in_window(clkwise_y as int),
        in_window(ctrclkwise_x as int),
        in_window(ctrclkwise_y as int),
        (clkwise_x, clkwise_y) != (middle_x, middle_y),
        (ctrclkwise_x, ctrclkwise_y) != (middle_x, middle_y),
    ensures
        (r.0 as int, r.1 as int) == bisecting_vector_spec(
            (middle_x as int, middle_y as int),
            (clkwise_x as int, clkwise_y as int),
            (ctrclkwise_x as int, ctrclkwise_y as int),
        ),
        -UNIT <= r.0 <= UNIT,
        -UNIT <= r.1 <= UNIT,
{
    let (normed_offset_clkwise_x, normed_offset_clkwise_y) = normed_vector(
        clkwise_x - middle_x,
        clkwise_y - middle_y,
    );
    let (normed_offset_ctrclkwise_x, normed_offset_ctrclkwise_y) = normed_vector(
        ctrclkwise_x - middle_x,
        ctrclkwise_y - middle_y,
    );
    let sum_x: i64 = normed_offset_clkwise_x + normed_offset_ctrclkwise_x;
    let sum_y: i64 = normed_offset_clkwise_y + normed_offset_ctrclkwise_y;
    let mut dir_x: i64 = if sum_x >= 0 {
        sum_x / 2
    } else {
        -((-sum_x) / 2)
    };
    let mut dir_y: i64 = if sum_y >= 0 {
        sum_y / 2
    } else {
        -((-sum_y) / 2)
    };
    if dir_x == 0 && dir_y == 0 {
        dir_x = -normed_offset_clkwise_y;
        dir_y = normed_offset_clkwise_x;  // a quarter turn
    }
    if clkwise_x == ctrclkwise_x && clkwise_y == ctrclkwise_y {
        return normed_vector(dir_x, dir_y);
    }
    let (at_zero_x, at_zero_y) = normed_vector(ctrclkwise_y - clkwise_y, clkwise_x - ctrclkwise_x);
    // Where the two ways form a reflex angle, their mean points the other way
    if norm_sq(at_zero_x - dir_x, at_zero_y - dir_y) > norm_sq(
        at_zero_x + dir_x,
        at_zero_y + dir_y,
    ) {
        normed_vector(-dir_x, -dir_y)
    } else {
        normed_vector(dir_x, dir_y)
    }
}

} // verus!
