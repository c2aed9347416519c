//! Point collection per printable object: deduplicated extrusion
//! coordinates, their bounding-box center, a simplified convex outline,
//! and the sanitized object name.
//!
//! Coordinates stay in their source text form. What must be computed on
//! the parsed doubles — validity, the midpoint of the extremes, the hull —
//! goes through a few trusted calls into `geo`, `itertools` and
//! `serde_json`; everything around them is verified.

use vstd::prelude::*;

verus! {

use itertools::Itertools;
use itertools::MinMaxResult;
use geo::ConvexHull;
use geo::CoordsIter;
use geo::MultiPoint;
use geo::Point;
use geo::Simplify;
use crate::text::{COMMA, UNDERSCORE, is_word_byte, word_byte};

/// Whether the text parses as a coordinate value (a double).
pub uninterp spec fn coord_ok(s: Seq<u8>) -> bool;

/// Relies on `str::parse` for the coordinate scalar of `geo::Point`:
/// accepts exactly the texts that parse as that floating-point type.
#[verifier::external_body]
pub fn coord_check(s: &Vec<u8>) -> (r: bool)
    ensures
        r == coord_ok(s@),
{
    match core::str::from_utf8(s) {
        Err(_) => false,
        Ok(t) => match t.parse() {
            Err(_) => false,
            Ok(v) => {
                let _pinned: geo::Point = geo::Point::new(v, v);
                true
            },
        },
    }
}

/// The three-decimal rendering of one axis of the bounding-box center:
/// the single value itself, or the midpoint of the least and greatest.
pub uninterp spec fn axis_mid_of(vals: Seq<Seq<u8>>) -> Seq<u8>;

/// Relies on `itertools::Itertools::minmax` over the doubles parsed from
/// the texts, and on std's formatting: one distinct element is formatted
/// as it is, more give `(min+max)/2`, to three decimals.
#[verifier::external_body]
fn axis_mid(vals: &Vec<Vec<u8>>) -> (r: Vec<u8>)
    ensures
        r@ == axis_mid_of(vals.deep_view()),
        vals@.len() == 0 ==> r@.len() == 0,
{
    let rd = |v: &[u8]| -> <geo::Point as geo::CoordsIter>::Scalar {
        core::str::from_utf8(v).unwrap_or("0").parse().unwrap_or_default()
    };
    let parsed: Vec<_> = vals.iter().map(|v| rd(v)).collect();
    match parsed.into_iter().minmax() {
        MinMaxResult::NoElements => Vec::new(),
        MinMaxResult::OneElement(v) => format!("{:0.3}", v).into_bytes(),
        MinMaxResult::MinMax(a, b) => format!("{:0.3}", (a + b) / rd("2".as_bytes())).into_bytes(),
    }
}

/// The JSON `[[x,y],...]` rendering of the simplified convex hull of the
/// points, empty when there is no hull to report.
pub uninterp spec fn polygon_text_of(ps: Seq<(Seq<u8>, Seq<u8>)>) -> Seq<u8>;

/// Relies on `geo`'s quickhull `ConvexHull` and Ramer-Douglas-Peucker
/// `Simplify` (tolerance 0.02) over the parsed points, and on
/// `serde_json::to_string` for the rendering of the closed exterior ring.
/// A text that does not parse as a double of magnitude at most 1e100 is
/// read as zero: the hull code orders points with unwrapped `partial_cmp`
/// and with sums of coordinate products, so the values must stay finite,
/// comparable, and small enough that no product overflows.
#[verifier::external_body]
fn hull_polygon(points: &Vec<DecimalPoint>) -> (r: Vec<u8>)
    ensures
        r@ == polygon_text_of(points_model(points@)),
        points@.len() == 0 ==> r@.len() == 0,
{
    let lim: <Point as CoordsIter>::Scalar = "1e100".parse().unwrap_or_default();
    let zero = lim - lim;
    let rd = |v: &[u8]| {
        let t = String::from_utf8_lossy(v).parse().unwrap_or(zero);
        if t.abs() <= lim { t } else { zero }
    };
    let mp = MultiPoint::new(points.iter().map(|p| Point::new(rd(&p.x), rd(&p.y))).collect());
    let ring: Vec<_> =
        mp.convex_hull().simplify(rd("0.02".as_bytes())).exterior().points().map(|p| p.x_y()).collect();
    if ring.is_empty() {
        return Vec::new();
    }
    serde_json::to_string(&ring).unwrap_or_default().into_bytes()
}

/// The ASCII transliteration of a label.
pub uninterp spec fn ascii_of(s: Seq<u8>) -> Seq<u8>;

/// Relies on `any_ascii::any_ascii` (after lossy UTF-8 decoding): a pure
/// ASCII transliteration of the label text.
#[verifier::external_body]
fn transliterate(s: &Vec<u8>) -> (r: Vec<u8>)
    ensures
        r@ == ascii_of(s@),
{
    let text = String::from_utf8_lossy(s);
    any_ascii::any_ascii(&text).into_bytes()
}

/// One collected coordinate pair, kept in its canonical source text form
/// so equality is exact rather than approximate.
pub struct DecimalPoint {
    pub x: Vec<u8>,
    pub y: Vec<u8>,
}

impl DecimalPoint {
    pub fn new(x: Vec<u8>, y: Vec<u8>) -> (r: Self)
        ensures
            r.x@ == x@ && r.y@ == y@,
    {
        Self { x, y }
    }
}

/// The pairs of coordinate texts a point sequence holds.
pub open spec fn points_model(s: Seq<DecimalPoint>) -> Seq<(Seq<u8>, Seq<u8>)> {
    s.map_values(|p: DecimalPoint| (p.x@, p.y@))
}

/// The deduplicated points one object extrudes.
pub struct HullTracker {
    pub points: Vec<DecimalPoint>,
}

impl HullTracker {
    pub open spec fn model(&self) -> Seq<(Seq<u8>, Seq<u8>)> {
        points_model(self.points@)
    }

    /// Each point is held once.
    pub open spec fn wf(&self) -> bool {
        forall|i: int, j: int|
            0 <= i < j < self.model().len() ==> #[trigger] self.model()[i]
                != #[trigger] self.model()[j]
    }

    /// The full center text: the three-decimal midpoints of the X and Y
    /// extents, joined by a comma.
    pub open spec fn center_text(ps: Seq<(Seq<u8>, Seq<u8>)>) -> Seq<u8> {
        axis_mid_of(ps.map_values(|p: (Seq<u8>, Seq<u8>)| p.0)) + seq![COMMA] + axis_mid_of(
            ps.map_values(|p: (Seq<u8>, Seq<u8>)| p.1),
        )
    }

    /// Record one coordinate pair; a pair already held is not added again.
    pub fn add_point(&mut self, x: Vec<u8>, y: Vec<u8>)
        requires
            old(self).wf(),
        ensures
            final(self).wf(),
            final(self).model() == if old(self).model().contains((x@, y@)) {
                old(self).model()
            } else {
                old(self).model().push((x@, y@))
            },
    {
        let ghost m0 = self.model();
        let n = self.points.len();
        let mut i: usize = 0;
        while i < n
            invariant
                i <= n == self.points@.len(),
                self == old(self),
                forall|k: int| 0 <= k < i ==> #[trigger] m0[k] != (x@, y@),
            decreases n - i,
        {
            let p = &self.points[i];
            if crate::text::bytes_eq(&p.x, &x) && crate::text::bytes_eq(&p.y, &y) {
                assert(m0[i as int] == (x@, y@));
                assert(m0.contains((x@, y@)));
                return ;
            }
            assert(m0[i as int] != (x@, y@));
            i = i + 1;
        }
        assert(!m0.contains((x@, y@))) by {
            if m0.contains((x@, y@)) {
                let k = choose|k: int| 0 <= k < m0.len() && m0[k] == (x@, y@);
                assert(m0[k] != (x@, y@));
            }
        }
        self.points.push(DecimalPoint { x, y });
        proof {
            assert(self.model() =~= m0.push((x@, y@)));
            assert forall|a: int, b: int|
                0 <= a < b < self.model().len() implies #[trigger] self.model()[a]
                != #[trigger] self.model()[b] by {
                if b < m0.len() {
                } else {
                    assert(self.model()[b] == (x@, y@));
                    assert(m0[a] != (x@, y@));
                }
            }
        }
    }

    /// The bounding-box center, absent while no point was collected.
    pub fn center(&self) -> (r: Option<Vec<u8>>)
        ensures
            match r {
                Option::Some(c) => self.model().len() > 0 && c@ == Self::center_text(self.model()),
                Option::None => self.model().len() == 0,
            },
    {
        if self.points.len() == 0 {
            return Option::None;
        }
        let mut xs: Vec<Vec<u8>> = Vec::new();
        let mut ys: Vec<Vec<u8>> = Vec::new();
        let mut i: usize = 0;
        while i < self.points.len()
            invariant
                i <= self.points@.len(),
                xs.deep_view() == self.model().subrange(0, i as int).map_values(
                    |p: (Seq<u8>, Seq<u8>)| p.0,
                ),
                ys.deep_view() == self.model().subrange(0, i as int).map_values(
                    |p: (Seq<u8>, Seq<u8>)| p.1,
                ),
            decreases self.points@.len() - i,
        {
            let ghost xs0 = xs.deep_view();
            let ghost ys0 = ys.deep_view();
            xs.push(crate::text::copy_bytes(&self.points[i].x));
            ys.push(crate::text::copy_bytes(&self.points[i].y));
            proof {
                assert(xs.deep_view() =~~= xs0.push(self.model()[i as int].0));
                assert(ys.deep_view() =~~= ys0.push(self.model()[i as int].1));
                assert(xs.deep_view() =~= self.model().subrange(0, i + 1).map_values(
                    |p: (Seq<u8>, Seq<u8>)| p.0,
                ));
                assert(ys.deep_view() =~= self.model().subrange(0, i + 1).map_values(
                    |p: (Seq<u8>, Seq<u8>)| p.1,
                ));
            }
            i = i + 1;
        }
        proof {
            assert(self.model().subrange(0, self.model().len() as int) =~= self.model());
        }
        let mx = axis_mid(&xs);
        let my = axis_mid(&ys);
        let mut c = mx;
        c.push(COMMA);
        crate::text::push_all(&mut c, &my);
        proof {
            assert(c@ =~= Self::center_text(self.model()));
        }
        Option::Some(c)
    }

    /// The JSON outline of the simplified convex hull, empty when there is
    /// nothing to report.
    pub fn exterior(&self) -> (r: Vec<u8>)
        ensures
            r@ == polygon_text_of(self.model()),
            self.model().len() == 0 ==> r@.len() == 0,
    {
        hull_polygon(&self.points)
    }
}

impl HullTracker {
    /// An independent tracker holding the same points.
    pub fn duplicate(&self) -> (r: Self)
        ensures
            r.model() == self.model(),
    {
        let mut points: Vec<DecimalPoint> = Vec::new();
        let mut i: usize = 0;
        proof {
            assert(points_model(points@) =~= self.model().subrange(0, 0));
        }
        while i < self.points.len()
            invariant
                i <= self.points@.len(),
                points_model(points@) == self.model().subrange(0, i as int),
            decreases self.points@.len() - i,
        {
            let ghost prev = points_model(points@);
            let p = &self.points[i];
            points.push(DecimalPoint { x: crate::text::copy_bytes(&p.x), y: crate::text::copy_bytes(&p.y) });
            proof {
                assert(points_model(points@) =~= prev.push(self.model()[i as int]));
                assert(points_model(points@) =~= self.model().subrange(0, i + 1));
            }
            i = i + 1;
        }
        proof {
            assert(self.model().subrange(0, self.model().len() as int) =~= self.model());
        }
        let r = Self { points };
        assert(r.model() == self.model());
        r
    }
}

impl Default for HullTracker {
    /// A tracker that has seen no point.
    fn default() -> (r: Self)
        ensures
            r.model().len() == 0,
            r.wf(),
    {
        let r = Self { points: Vec::new() };
        proof {
            assert(r.model() =~= Seq::<(Seq<u8>, Seq<u8>)>::empty());
        }
        r
    }
}

/// First index at or after `i` holding a word byte, or the length.
pub open spec fn nonword_end(s: Seq<u8>, i: int) -> int
    decreases s.len() - i,
{
    if i < 0 || i >= s.len() || is_word_byte(s[i]) {
        i
    } else {
        nonword_end(s, i + 1)
    }
}

pub proof fn lemma_nonword_end(s: Seq<u8>, i: int)
    requires
        0 <= i <= s.len(),
    ensures
        i <= nonword_end(s, i) <= s.len(),
        forall|k: int| i <= k < nonword_end(s, i) ==> !is_word_byte(s[k]),
        nonword_end(s, i) < s.len() ==> is_word_byte(s[nonword_end(s, i)]),
    decreases s.len() - i,
{
    if i < s.len() && !is_word_byte(s[i]) {
        lemma_nonword_end(s, i + 1);
    }
}

/// Establishes `nonword_end` from its characterisation.
pub proof fn lemma_nonword_end_is(s: Seq<u8>, i: int, j: int)
    requires
        0 <= i <= j <= s.len(),
        forall|k: int| i <= k < j ==> !is_word_byte(s[k]),
        j == s.len() || is_word_byte(s[j]),
    ensures
        nonword_end(s, i) == j,
{
    lemma_nonword_end(s, i);
    let e = nonword_end(s, i);
    if e < j {
        assert(!is_word_byte(s[e]));
    }
    if e > j {
        assert(!is_word_byte(s[j]));
    }
}

/// The text with each run of non-word bytes replaced by one underscore,
/// from index `i` on.
pub open spec fn collapse_from(s: Seq<u8>, i: int) -> Seq<u8>
    decreases s.len() - i,
        via collapse_from_decreases
{
    if i < 0 || i >= s.len() {
        Seq::empty()
    } else if is_word_byte(s[i]) {
        seq![s[i]] + collapse_from(s, i + 1)
    } else {
        seq![UNDERSCORE] + collapse_from(s, nonword_end(s, i))
    }
}

#[via_fn]
proof fn collapse_from_decreases(s: Seq<u8>, i: int) {
    if 0 <= i < s.len() && !is_word_byte(s[i]) {
        assert(nonword_end(s, i) == nonword_end(s, i + 1));
        lemma_nonword_end(s, i + 1);
    }
}

/// Leading underscores of the collapsed text.
pub open spec fn us_front(s: Seq<u8>) -> int
    decreases s.len(),
{
    if s.len() == 0 || s[0] != UNDERSCORE {
        0
    } else {
        1 + us_front(s.subrange(1, s.len() as int))
    }
}

/// Trailing underscores of the collapsed text.
pub open spec fn us_back(s: Seq<u8>) -> int
    decreases s.len(),
{
    if s.len() == 0 || s[s.len() - 1] != UNDERSCORE {
        0
    } else {
        1 + us_back(s.subrange(0, s.len() - 1))
    }
}

/// What `str::trim_matches('_')` leaves.
pub open spec fn trim_underscores(s: Seq<u8>) -> Seq<u8> {
    if us_front(s) == s.len() {
        Seq::empty()
    } else {
        s.subrange(us_front(s), s.len() - us_back(s))
    }
}

pub proof fn lemma_us_front(s: Seq<u8>)
    ensures
        0 <= us_front(s) <= s.len(),
        forall|k: int| 0 <= k < us_front(s) ==> s[k] == UNDERSCORE,
        us_front(s) < s.len() ==> s[us_front(s)] != UNDERSCORE,
    decreases s.len(),
{
    if s.len() == 0 || s[0] != UNDERSCORE {
    } else {
        lemma_us_front(s.subrange(1, s.len() as int));
        assert forall|k: int| 0 <= k < us_front(s) implies s[k] == UNDERSCORE by {
            if k > 0 {
                assert(s.subrange(1, s.len() as int)[k - 1] == UNDERSCORE);
            }
        }
        if us_front(s) < s.len() {
            assert(s[us_front(s)] == s.subrange(1, s.len() as int)[us_front(s) - 1]);
        }
    }
}

pub proof fn lemma_us_back(s: Seq<u8>)
    ensures
        0 <= us_back(s) <= s.len(),
        forall|k: int| s.len() - us_back(s) <= k < s.len() ==> s[k] == UNDERSCORE,
        us_back(s) < s.len() ==> s[s.len() - us_back(s) - 1] != UNDERSCORE,
    decreases s.len(),
{
    if s.len() == 0 || s[s.len() - 1] != UNDERSCORE {
    } else {
        let t = s.subrange(0, s.len() - 1);
        lemma_us_back(t);
        assert forall|k: int| s.len() - us_back(s) <= k < s.len() implies s[k] == UNDERSCORE by {
            if k < s.len() - 1 {
                assert(t[k] == UNDERSCORE);
            }
        }
        if us_back(s) < s.len() {
            assert(s[s.len() - us_back(s) - 1] == t[t.len() - us_back(t) - 1]);
        }
    }
}

/// The sanitized form of a transliterated label: non-word runs collapsed
/// to underscores, then underscores trimmed from both ends.
pub open spec fn clean_of(ascii: Seq<u8>) -> Seq<u8> {
    trim_underscores(collapse_from(ascii, 0))
}

/// Collapse each run of non-word bytes to one underscore.
fn collapse(s: &Vec<u8>) -> (r: Vec<u8>)
    ensures
        r@ == collapse_from(s@, 0),
{
    let mut r: Vec<u8> = Vec::new();
    let mut i: usize = 0;
    proof {
        assert(r@ + collapse_from(s@, 0) =~= collapse_from(s@, 0));
    }
    while i < s.len()
        invariant
            i <= s@.len(),
            r@ + collapse_from(s@, i as int) == collapse_from(s@, 0),
        decreases s@.len() - i,
    {
        let ghost r0 = r@;
        if word_byte(s[i]) {
            r.push(s[i]);
            proof {
                assert(r@ + collapse_from(s@, i + 1) =~= r0 + collapse_from(s@, i as int));
            }
            i = i + 1;
        } else {
            let start = i;
            let mut j: usize = i;
            while j < s.len() && !word_byte(s[j])
                invariant
                    start <= j <= s@.len(),
                    forall|k: int| start <= k < j ==> !is_word_byte(s@[k]),
                decreases s@.len() - j,
            {
                j = j + 1;
            }
            proof {
                lemma_nonword_end_is(s@, start as int, j as int);
            }
            r.push(UNDERSCORE);
            proof {
                assert(r@ + collapse_from(s@, j as int) =~= r0 + collapse_from(s@, start as int));
            }
            i = j;
        }
    }
    proof {
        assert(r@ + collapse_from(s@, i as int) =~= r@);
    }
    r
}

/// Trim underscores from both ends.
fn trim_us(s: &Vec<u8>) -> (r: Vec<u8>)
    ensures
        r@ == trim_underscores(s@),
{
    proof {
        lemma_us_front(s@);
        lemma_us_back(s@);
    }
    let n = s.len();
    let mut lo: usize = 0;
    while lo < n && s[lo] == UNDERSCORE
        invariant
            lo <= n == s@.len(),
            forall|k: int| 0 <= k < lo ==> s@[k] == UNDERSCORE,
        decreases n - lo,
    {
        lo = lo + 1;
    }
    if lo == n {
        proof {
            if us_front(s@) < s@.len() {
                assert(s@[us_front(s@)] == UNDERSCORE);
            }
        }
        return Vec::new();
    }
    assert(lo == us_front(s@)) by {
        if lo < us_front(s@) {
            assert(s@[lo as int] == UNDERSCORE);
        }
        if lo > us_front(s@) {
            assert(s@[us_front(s@)] == UNDERSCORE);
        }
    }
    let mut hi: usize = n;
    while hi > lo && s[hi - 1] == UNDERSCORE
        invariant
            lo <= hi <= n == s@.len(),
            s@[lo as int] != UNDERSCORE,
            forall|k: int| hi <= k < n ==> s@[k] == UNDERSCORE,
        decreases hi,
    {
        hi = hi - 1;
    }
    assert(hi == s@.len() - us_back(s@)) by {
        if hi < s@.len() - us_back(s@) {
            assert(s@[hi as int] == UNDERSCORE);
        }
        if hi > s@.len() - us_back(s@) {
            assert(s@[s@.len() - us_back(s@) - 1] == UNDERSCORE);
            assert(hi - 1 >= s@.len() - us_back(s@));
        }
    }
    crate::text::subv(s, lo, hi)
}

/// One printable object: its sanitized name, the points it extrudes, and
/// its layer counter.
pub struct KnownObject {
    pub name: Vec<u8>,
    pub hull: HullTracker,
    pub layer: isize,
}

impl KnownObject {
    pub open spec fn wf(&self) -> bool {
        self.hull.wf()
    }

    /// Transliterate a raw label to ASCII and sanitize it.
    pub fn clean_id(name: &Vec<u8>) -> (r: Vec<u8>)
        ensures
            r@ == clean_of(ascii_of(name@)),
    {
        let ascii = transliterate(name);
        let collapsed = collapse(&ascii);
        trim_us(&collapsed)
    }

    /// An independent object with the same name, points and layer.
    pub fn duplicate(&self) -> (r: Self)
        ensures
            r.model() == self.model(),
            self.wf() ==> r.wf(),
    {
        let r = Self {
            name: crate::text::copy_bytes(&self.name),
            hull: self.hull.duplicate(),
            layer: self.layer,
        };
        assert(r.model() =~~= self.model());
        proof {
            if self.wf() {
                assert forall|i: int, j: int|
                    0 <= i < j < r.hull.model().len() implies #[trigger] r.hull.model()[i]
                    != #[trigger] r.hull.model()[j] by {
                    assert(self.hull.model()[i] != self.hull.model()[j]);
                }
            }
        }
        r
    }

    /// A fresh object under the sanitized form of `name`, with no points
    /// and the layer counter at its starting value.
    pub fn new(name: &Vec<u8>) -> (r: Self)
        ensures
            r.name@ == clean_of(ascii_of(name@)),
            r.hull.model().len() == 0,
            r.layer == -1,
            r.wf(),
    {
        Self { name: Self::clean_id(name), hull: HullTracker::default(), layer: -1 }
    }
}

/// The mathematical content of a `KnownObject`: what the contracts of the
/// processors speak about.
#[verifier::ext_equal]
pub struct ObjModel {
    pub name: Seq<u8>,
    pub layer: int,
    pub points: Seq<(Seq<u8>, Seq<u8>)>,
}

impl KnownObject {
    pub open spec fn model(&self) -> ObjModel {
        ObjModel { name: self.name@, layer: self.layer as int, points: self.hull.model() }
    }
}

/// The model of an object registry: slicer-reported ids paired with the
/// objects they introduced, in discovery order.
pub open spec fn reg_model(r: Seq<(Vec<u8>, KnownObject)>) -> Seq<(Seq<u8>, ObjModel)> {
    r.map_values(|e: (Vec<u8>, KnownObject)| (e.0@, e.1.model()))
}

impl Default for KnownObject {
    /// An unnamed object with no points.
    fn default() -> (r: Self)
        ensures
            r.name@.len() == 0,
            r.hull.model().len() == 0,
            r.layer == -1,
            r.wf(),
    {
        Self { name: Vec::new(), hull: HullTracker::default(), layer: -1 }
    }
}

} // verus!
