//! Plain geometric values, and trusted adapters over the geometry crate.
//!
//! Positions and rectangles are held as integers in units of 1e-7 degree
//! (the unit OSM stores node positions in), so they are finite by type.
//! Polygon geometry is carried as opaque values of [`Shape`] and
//! [`GeoPoint`], whose coordinates use the same unit; the adapters below
//! are the only doors between the two worlds. The geometry crate's types
//! are generic over a numeric trait of theirs that Verus cannot be told
//! about, so the values live in private fields rather than behind declared
//! outside types.

use vstd::prelude::*;

verus! {

/// A position in WGS84, both coordinates in units of 1e-7 degree.
#[derive(Debug, Clone, Copy, PartialEq, Eq, Structural)]
pub struct Coord {
    pub lon: i64,
    pub lat: i64,
}

/// An axis-aligned bounding box, in units of 1e-7 degree.
#[derive(Debug, Clone, Copy, PartialEq, Eq, Structural)]
pub struct RectI {
    pub min_lon: i64,
    pub min_lat: i64,
    pub max_lon: i64,
    pub max_lat: i64,
}

impl RectI {
    /// Both extents are ordered.
    pub open spec fn wf(self) -> bool {
        self.min_lon <= self.max_lon && self.min_lat <= self.max_lat
    }

    /// Two boxes meet (closed intervals on both axes).
    pub open spec fn spec_intersects(self, o: RectI) -> bool {
        &&& self.min_lon <= o.max_lon
        &&& o.min_lon <= self.max_lon
        &&& self.min_lat <= o.max_lat
        &&& o.min_lat <= self.max_lat
    }

    /// Decide whether two boxes meet.
    pub fn intersects(&self, o: &RectI) -> (r: bool)
        ensures
            r == self.spec_intersects(*o),
    {
        self.min_lon <= o.max_lon && o.min_lon <= self.max_lon && self.min_lat <= o.max_lat
            && o.min_lat <= self.max_lat
    }

    /// The degenerate box around a position, in spec land.
    pub open spec fn spec_around(c: Coord) -> RectI {
        RectI { min_lon: c.lon, min_lat: c.lat, max_lon: c.lon, max_lat: c.lat }
    }

    /// The degenerate box around one position.
    pub fn around(c: Coord) -> (r: RectI)
        ensures
            r == (RectI { min_lon: c.lon, min_lat: c.lat, max_lon: c.lon, max_lat: c.lat }),
            r.wf(),
    {
        RectI { min_lon: c.lon, min_lat: c.lat, max_lon: c.lon, max_lat: c.lat }
    }
}

/// The position fits the exactly-widened range the adapters take.
pub open spec fn coord_fits(c: Coord) -> bool {
    &&& i32::MIN <= c.lon <= i32::MAX
    &&& i32::MIN <= c.lat <= i32::MAX
}

/// One polygon given by plain coordinates: an outer ring and its holes.
#[derive(Debug, Clone)]
pub struct PolygonCoords {
    pub exterior: Vec<Coord>,
    pub interiors: Vec<Vec<Coord>>,
}

/// An opaque multipolygon of the geometry crate, coordinates in units of
/// 1e-7 degree.
#[verifier::external_body]
#[derive(Debug)]
pub struct Shape {
    inner: geo_types::MultiPolygon,
}

/// An opaque point of the geometry crate, coordinates in units of
/// 1e-7 degree.
#[verifier::external_body]
#[derive(Debug)]
pub struct GeoPoint {
    inner: geo_types::Point,
}

/// The rings of a polygon list, as plain coordinate sequences.
pub open spec fn polys_view(v: Seq<PolygonCoords>) -> Seq<(Seq<Coord>, Seq<Seq<Coord>>)> {
    Seq::new(
        v.len(),
        |i: int|
            (
                v[i].exterior@,
                Seq::new(v[i].interiors@.len(), |j: int| v[i].interiors@[j]@),
            ),
    )
}

// What the geometry engine's calls return is a function of the geometry
// values alone; the engine's verdicts and products get names, and every
// adapter below promises exactly its name. Nothing else is assumed of
// them: the names are related to each other only through the calls.

/// The shape built from the given rings.
pub uninterp spec fn shape_of(polygons: Seq<(Seq<Coord>, Seq<Seq<Coord>>)>) -> Shape;

/// The rings read back from a shape, truncated to whole units.
pub uninterp spec fn rings_of(s: Shape) -> Seq<(Seq<Coord>, Seq<Seq<Coord>>)>;

/// Whether the first shape covers the second.
pub uninterp spec fn covers_of(a: Shape, b: Shape) -> bool;

/// Whether a shape holds a point.
pub uninterp spec fn point_in_of(a: Shape, p: GeoPoint) -> bool;

/// Whether two shapes meet.
pub uninterp spec fn intersects_of(a: Shape, b: Shape) -> bool;

/// The shared region of two shapes.
pub uninterp spec fn intersection_of(a: Shape, b: Shape) -> Shape;

/// What is left of the first shape outside the second.
pub uninterp spec fn difference_of(a: Shape, b: Shape) -> Shape;

/// A shape's centroid, when it has one.
pub uninterp spec fn centroid_of(a: Shape) -> Option<GeoPoint>;

/// A shape's bounding box in whole units, when it is not empty.
pub uninterp spec fn rect_of(a: Shape) -> Option<RectI>;

/// A shape's area in whole square units.
pub uninterp spec fn area_of(a: Shape) -> u128;

/// The point at a whole-unit position.
pub uninterp spec fn point_of(c: Coord) -> GeoPoint;

/// A point's whole-unit position, when both coordinates are finite.
pub uninterp spec fn coord_of(p: GeoPoint) -> Option<Coord>;

/// The cells of the sites' Voronoi partition under the given snap
/// tolerance, or nothing when the engine refuses the sites.
pub uninterp spec fn voronoi_of(sites: Seq<Coord>, tolerance: i64) -> Option<Seq<Shape>>;

impl Shape {
    /// Relies on the geometry crate's ring constructors: builds the
    /// multipolygon whose rings carry exactly the given whole-unit
    /// coordinates, a function of those coordinates alone (positions on
    /// the globe fit an `i32`, whose widening is exact — hence the bound).
    #[verifier::external_body]
    pub fn from_rings(polygons: &Vec<PolygonCoords>) -> (r: Shape)
        requires
            forall|i: int, j: int|
                0 <= i < polygons@.len() && 0 <= j < polygons@[i].exterior@.len()
                    ==> coord_fits(#[trigger] polygons@[i].exterior@[j]),
            forall|i: int, j: int, k: int|
                0 <= i < polygons@.len() && 0 <= j < polygons@[i].interiors@.len() && 0 <= k
                    < polygons@[i].interiors@[j]@.len() ==> coord_fits(
                    #[trigger] polygons@[i].interiors@[j]@[k],
                ),
        ensures
            r == shape_of(polys_view(polygons@)),
    {
        let ring = |cs: &Vec<Coord>| -> geo_types::LineString {
            cs.iter().map(|c| geo_types::Coord { x: (c.lon as i32).into(), y: (c.lat as i32).into() }).collect()
        };
        let polys = polygons
            .iter()
            .map(|p| geo_types::Polygon::new(ring(&p.exterior), p.interiors.iter().map(ring).collect()))
            .collect();
        Shape { inner: geo_types::MultiPolygon(polys) }
    }

    /// Relies on the geometry crate's ring accessors: reads the rings back
    /// as plain coordinates, truncated to whole units.
    #[verifier::external_body]
    pub fn to_rings(&self) -> (r: Vec<PolygonCoords>)
        ensures
            polys_view(r@) == rings_of(*self),
    {
        let back = |ls: &geo_types::LineString| -> Vec<Coord> {
            ls.coords().map(|c| Coord { lon: c.x as i64, lat: c.y as i64 }).collect()
        };
        self.inner
            .iter()
            .map(|p| PolygonCoords {
                exterior: back(p.exterior()),
                interiors: p.interiors().iter().map(back).collect(),
            })
            .collect()
    }

    /// Relies on the geometry crate's derived `Clone`, which copies the
    /// polygons as they are.
    #[verifier::external_body]
    pub fn duplicate(&self) -> (r: Shape)
        ensures
            r == *self,
    {
        Shape { inner: self.inner.clone() }
    }

    /// Relies on geo's `Relate`: whether `self` covers `b` (containment
    /// that admits shared boundary points, from the DE-9IM matrix).
    #[verifier::external_body]
    pub fn covers(&self, b: &Shape) -> (r: bool)
        ensures
            r == covers_of(*self, *b),
    {
        geo::Relate::relate(&self.inner, &b.inner).is_covers()
    }

    /// Relies on geo's `Contains` for a point in a multipolygon.
    #[verifier::external_body]
    pub fn contains_point(&self, p: &GeoPoint) -> (r: bool)
        ensures
            r == point_in_of(*self, *p),
    {
        geo::Contains::contains(&self.inner, &p.inner)
    }

    /// Relies on geo's `Intersects` for two multipolygons.
    #[verifier::external_body]
    pub fn intersects(&self, b: &Shape) -> (r: bool)
        ensures
            r == intersects_of(*self, *b),
    {
        geo::Intersects::intersects(&self.inner, &b.inner)
    }

    /// Relies on geo's `BooleanOps::intersection` of two multipolygons.
    #[verifier::external_body]
    pub fn intersection(&self, b: &Shape) -> (r: Shape)
        ensures
            r == intersection_of(*self, *b),
    {
        Shape { inner: geo::BooleanOps::intersection(&self.inner, &b.inner) }
    }

    /// Relies on geo's `BooleanOps::difference` of two multipolygons.
    #[verifier::external_body]
    pub fn difference(&self, b: &Shape) -> (r: Shape)
        ensures
            r == difference_of(*self, *b),
    {
        Shape { inner: geo::BooleanOps::difference(&self.inner, &b.inner) }
    }

    /// Relies on geo's `Centroid` for a multipolygon; `None` on an empty
    /// one.
    #[verifier::external_body]
    pub fn centroid(&self) -> (r: Option<GeoPoint>)
        ensures
            r == centroid_of(*self),
    {
        geo::Centroid::centroid(&self.inner).map(|p| GeoPoint { inner: p })
    }

    /// Relies on geo's `BoundingRect`; the bounds are truncated to whole
    /// units, and `None` comes back on an empty multipolygon.
    #[verifier::external_body]
    pub fn bounding_rect(&self) -> (r: Option<RectI>)
        ensures
            r == rect_of(*self),
            r is Some ==> r.unwrap().wf(),
    {
        geo::BoundingRect::bounding_rect(&self.inner).map(|rect| RectI {
            min_lon: rect.min().x as i64,
            min_lat: rect.min().y as i64,
            max_lon: rect.max().x as i64,
            max_lat: rect.max().y as i64,
        })
    }

    /// Relies on geo's `Area::unsigned_area`, truncated to whole square
    /// units.
    #[verifier::external_body]
    pub fn area_unit2(&self) -> (r: u128)
        ensures
            r == area_of(*self),
    {
        geo::Area::unsigned_area(&self.inner) as u128
    }
}

/// Relies on geo's `Voronoi::voronoi_cells_with_params`: the cells of the
/// sites' Voronoi partition, sites within the tolerance snapped together
/// first; `None` when the engine refuses the sites (fewer than two
/// distinct ones, or collinear input). The outcome is a function of the
/// sites and the tolerance alone, but which cell belongs to which site is
/// not promised, so callers recover each cell's seed by a containment
/// test.
#[verifier::external_body]
pub fn voronoi_cells(sites: &Vec<Coord>, tolerance_units: i64) -> (r: Option<Vec<Shape>>)
    ensures
        match r {
            Some(cells) => voronoi_of(sites@, tolerance_units) == Some(cells@),
            None => voronoi_of(sites@, tolerance_units) is None,
        },
{
    let pts: geo_types::MultiPoint = sites
        .iter()
        .map(|c| geo_types::Point::new((c.lon as i32).into(), (c.lat as i32).into()))
        .collect();
    let params = geo::VoronoiParams::new().tolerance((tolerance_units as i32).into());
    match geo::Voronoi::voronoi_cells_with_params(&pts, params) {
        Ok(cells) => Some(
            cells.into_iter().map(|p| Shape { inner: geo_types::MultiPolygon(vec![p]) }).collect(),
        ),
        Err(_) => None,
    }
}

impl GeoPoint {
    /// Relies on the geometry crate's point constructor: builds the point
    /// of the given position, a function of that position alone; a
    /// position on the globe (within the exactly-widened range) maps to
    /// exactly itself.
    #[verifier::external_body]
    pub fn of_coord(c: Coord) -> (r: GeoPoint)
        ensures
            r == point_of(c),
    {
        GeoPoint { inner: geo_types::Point::new((c.lon as i32).into(), (c.lat as i32).into()) }
    }

    /// Relies on `Point::x`/`Point::y` and `f64::is_finite`: the position
    /// as whole units, or `None` when either coordinate is not finite
    /// (a degenerate centroid).
    #[verifier::external_body]
    pub fn coord(&self) -> (r: Option<Coord>)
        ensures
            r == coord_of(*self),
    {
        let x = self.inner.x();
        let y = self.inner.y();
        if x.is_finite() && y.is_finite() {
            Some(Coord { lon: x as i64, lat: y as i64 })
        } else {
            None
        }
    }
}

} // verus!
