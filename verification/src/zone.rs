//! The zone record and its elementary operations.

use vstd::prelude::*;
use crate::geometry::{covers_of, intersects_of, point_in_of, point_of, rect_of, Coord, GeoPoint, RectI, Shape};
use crate::tags::Tags;

verus! {

/// The kind of an administrative zone, from the finest to the coarsest;
/// `NonAdministrative` stands apart and is ordered after all of them.
#[derive(Debug, Clone, Copy, PartialEq, Eq, Structural)]
pub enum ZoneType {
    Suburb,
    CityDistrict,
    City,
    StateDistrict,
    State,
    CountryRegion,
    Country,
    NonAdministrative,
}

impl ZoneType {
    /// The place of the kind in the order `Suburb < CityDistrict < City <
    /// StateDistrict < State < CountryRegion < Country < NonAdministrative`.
    pub open spec fn spec_rank(self) -> u32 {
        match self {
            ZoneType::Suburb => 0,
            ZoneType::CityDistrict => 1,
            ZoneType::City => 2,
            ZoneType::StateDistrict => 3,
            ZoneType::State => 4,
            ZoneType::CountryRegion => 5,
            ZoneType::Country => 6,
            ZoneType::NonAdministrative => 7,
        }
    }

    /// The rank, as a number.
    pub fn rank(&self) -> (r: u32)
        ensures
            r == self.spec_rank(),
    {
        match self {
            ZoneType::Suburb => 0,
            ZoneType::CityDistrict => 1,
            ZoneType::City => 2,
            ZoneType::StateDistrict => 3,
            ZoneType::State => 4,
            ZoneType::CountryRegion => 5,
            ZoneType::Country => 6,
            ZoneType::NonAdministrative => 7,
        }
    }

    /// The snake-case name of the kind, as spoken by the rule corpus.
    pub open spec fn spec_as_str(self) -> Seq<char> {
        match self {
            ZoneType::Suburb => "suburb"@,
            ZoneType::CityDistrict => "city_district"@,
            ZoneType::City => "city"@,
            ZoneType::StateDistrict => "state_district"@,
            ZoneType::State => "state"@,
            ZoneType::CountryRegion => "country_region"@,
            ZoneType::Country => "country"@,
            ZoneType::NonAdministrative => "non_administrative"@,
        }
    }

    /// The snake-case name of the kind.
    pub fn as_str(&self) -> (r: &'static str)
        ensures
            r@ == self.spec_as_str(),
    {
        match self {
            ZoneType::Suburb => "suburb",
            ZoneType::CityDistrict => "city_district",
            ZoneType::City => "city",
            ZoneType::StateDistrict => "state_district",
            ZoneType::State => "state",
            ZoneType::CountryRegion => "country_region",
            ZoneType::Country => "country",
            ZoneType::NonAdministrative => "non_administrative",
        }
    }
}

/// The order `None < Some(t)`, and kinds by rank; how optional kinds
/// compare throughout the hierarchy rules.
pub open spec fn opt_type_rank(t: Option<ZoneType>) -> int {
    match t {
        None => -1,
        Some(zt) => zt.spec_rank() as int,
    }
}

/// Decide `opt_type_rank(a) < opt_type_rank(b)`.
pub fn opt_type_lt(a: &Option<ZoneType>, b: &Option<ZoneType>) -> (r: bool)
    ensures
        r == (opt_type_rank(*a) < opt_type_rank(*b)),
{
    match (a, b) {
        (Option::None, Option::Some(_)) => true,
        (Option::Some(x), Option::Some(y)) => x.rank() < y.rank(),
        _ => false,
    }
}

/// A dense index of a zone inside one run's zone vector.
#[derive(Debug, Clone, Copy, PartialEq, Eq, Hash, Structural)]
pub struct ZoneIndex {
    pub index: usize,
}

/// A geographic zone: an administrative boundary or a synthesized city.
#[derive(Debug)]
pub struct Zone {
    pub id: ZoneIndex,
    /// `"relation:123"` or `"node:45"`; never empty for a built zone.
    pub osm_id: String,
    /// OSM's coarse-to-fine level, when the tag parsed as an integer.
    pub admin_level: Option<u32>,
    /// Set by the typer; zones still holding `None` at the end are pruned.
    pub zone_type: Option<ZoneType>,
    pub name: String,
    /// The display label, set by the labeler.
    pub label: String,
    /// Per-language labels, keyed by language code.
    pub international_labels: Tags,
    /// Per-language names harvested from the tags; input of the labeler.
    pub international_names: Tags,
    /// Sorted, duplicate-free.
    pub zip_codes: Vec<String>,
    pub center: Option<Coord>,
    pub boundary: Option<Shape>,
    /// The boundary's bounding box; a degenerate box for a place seed.
    pub bbox: Option<RectI>,
    pub tags: Tags,
    /// Tags of the relation's admin-centre (or label) node.
    pub center_tags: Tags,
    pub parent: Option<ZoneIndex>,
    pub wikidata: Option<String>,
    /// True for place seeds and zones synthesized from them.
    pub is_generated: bool,
}

impl Zone {
    /// The zone carries an administrative kind.
    pub open spec fn spec_is_admin(&self) -> bool {
        match self.zone_type {
            Some(t) => t != ZoneType::NonAdministrative,
            None => false,
        }
    }

    /// Whether the zone carries an administrative kind.
    pub fn is_admin(&self) -> (r: bool)
        ensures
            r == self.spec_is_admin(),
    {
        match self.zone_type {
            Some(t) => !matches!(t, ZoneType::NonAdministrative),
            None => false,
        }
    }

    /// The kind, when it is administrative.
    pub fn admin_type(&self) -> (r: Option<ZoneType>)
        ensures
            r == if self.spec_is_admin() {
                self.zone_type
            } else {
                None::<ZoneType>
            },
    {
        match self.zone_type {
            Some(t) => {
                if matches!(t, ZoneType::NonAdministrative) {
                    None
                } else {
                    Some(t)
                }
            },
            None => None,
        }
    }

    /// Replace the parent link.
    pub fn set_parent(&mut self, idx: Option<ZoneIndex>)
        ensures
            *final(self) == (Zone { parent: idx, ..*old(self) }),
    {
        self.parent = idx;
    }

    /// A zone may hang under `z` when `z` is administrative and, if the
    /// zone is itself administrative, strictly finer than `z`.
    pub open spec fn spec_can_be_child_of(&self, z: &Zone) -> bool {
        z.spec_is_admin() && (!self.spec_is_admin() || opt_type_rank(self.zone_type)
            < opt_type_rank(z.zone_type))
    }

    /// Decide whether the zone may hang under `z`.
    pub fn can_be_child_of(&self, z: &Zone) -> (r: bool)
        ensures
            r == self.spec_can_be_child_of(z),
    {
        z.is_admin() && (!self.is_admin() || opt_type_lt(&self.zone_type, &z.zone_type))
    }

    /// This zone's boundary covers the other's: the engine's verdict, and
    /// `false` whenever either boundary is missing.
    pub open spec fn spec_contains(&self, other: &Zone) -> bool {
        match (self.boundary, other.boundary) {
            (Some(a), Some(b)) => covers_of(a, b),
            _ => false,
        }
    }

    /// Decide whether this zone's boundary covers the other's.
    pub fn contains(&self, other: &Zone) -> (r: bool)
        ensures
            r == self.spec_contains(other),
    {
        match (&self.boundary, &other.boundary) {
            (Option::Some(a), Option::Some(b)) => a.covers(b),
            _ => false,
        }
    }

    /// The two zones' boundaries meet: the engine's verdict, and `false`
    /// whenever either boundary is missing.
    pub open spec fn spec_intersects(&self, other: &Zone) -> bool {
        match (self.boundary, other.boundary) {
            (Some(a), Some(b)) => intersects_of(a, b),
            _ => false,
        }
    }

    /// Decide whether the two zones' boundaries meet.
    pub fn intersects(&self, other: &Zone) -> (r: bool)
        ensures
            r == self.spec_intersects(other),
    {
        match (&self.boundary, &other.boundary) {
            (Option::Some(a), Option::Some(b)) => a.intersects(b),
            _ => false,
        }
    }

    /// This zone's boundary holds the other's center: the engine's
    /// verdict, and `false` whenever either is missing.
    pub open spec fn spec_contains_center(&self, other: &Zone) -> bool {
        match (self.boundary, other.center) {
            (Some(b), Some(c)) => point_in_of(b, point_of(c)),
            _ => false,
        }
    }

    /// Decide whether this zone's boundary holds the other's center.
    pub fn contains_center(&self, other: &Zone) -> (r: bool)
        ensures
            r == self.spec_contains_center(other),
    {
        match (&self.boundary, &other.center) {
            (Option::Some(b), Option::Some(c)) => b.contains_point(&GeoPoint::of_coord(*c)),
            _ => false,
        }
    }

    /// The box is the engine's bounding rectangle of the boundary,
    /// whenever the zone has one.
    pub open spec fn bbox_matches_boundary(&self) -> bool {
        match self.boundary {
            Some(b) => self.bbox == rect_of(b),
            None => true,
        }
    }
}

impl Zone {
    /// A copy of the zone: the plain fields keep their values, the
    /// text-bearing fields keep their views.
    pub fn duplicate(&self) -> (r: Zone)
        ensures
            r.id == self.id,
            r.osm_id@ == self.osm_id@,
            r.admin_level == self.admin_level,
            r.zone_type == self.zone_type,
            r.name@ == self.name@,
            r.label@ == self.label@,
            r.international_labels@ == self.international_labels@,
            r.international_names@ == self.international_names@,
            r.zip_codes@ == self.zip_codes@,
            r.center == self.center,
            r.boundary == self.boundary,
            r.bbox == self.bbox,
            r.tags@ == self.tags@,
            r.center_tags@ == self.center_tags@,
            r.parent == self.parent,
            match (&r.wikidata, &self.wikidata) {
                (Some(a), Some(b)) => a@ == b@,
                (None, None) => true,
                _ => false,
            },
            r.is_generated == self.is_generated,
    {
        Zone {
            id: self.id,
            osm_id: self.osm_id.clone(),
            admin_level: self.admin_level,
            zone_type: self.zone_type,
            name: self.name.clone(),
            label: self.label.clone(),
            international_labels: self.international_labels.duplicate(),
            international_names: self.international_names.duplicate(),
            zip_codes: crate::strings::clone_strings(&self.zip_codes),
            center: self.center,
            boundary: match &self.boundary {
                Some(b) => Some(b.duplicate()),
                None => None,
            },
            bbox: self.bbox,
            tags: self.tags.duplicate(),
            center_tags: self.center_tags.duplicate(),
            parent: self.parent,
            wikidata: match &self.wikidata {
                Some(w) => Some(w.clone()),
                None => None,
            },
            is_generated: self.is_generated,
        }
    }
}

impl Default for Zone {
    /// The blank zone every construction starts from.
    fn default() -> (z: Zone)
        ensures
            z.id == (ZoneIndex { index: 0 }),
            z.osm_id@ == Seq::<char>::empty(),
            z.admin_level is None,
            z.zone_type is None,
            z.name@ == Seq::<char>::empty(),
            z.label@ == Seq::<char>::empty(),
            z.international_labels@ == Seq::<(Seq<char>, Seq<char>)>::empty(),
            z.international_names@ == Seq::<(Seq<char>, Seq<char>)>::empty(),
            z.zip_codes@ == Seq::<String>::empty(),
            z.center is None,
            z.boundary is None,
            z.bbox is None,
            z.tags@ == Seq::<(Seq<char>, Seq<char>)>::empty(),
            z.center_tags@ == Seq::<(Seq<char>, Seq<char>)>::empty(),
            z.parent is None,
            z.wikidata is None,
            z.is_generated,
    {
        Zone {
            id: ZoneIndex { index: 0 },
            osm_id: String::new(),
            admin_level: None,
            zone_type: None,
            name: String::new(),
            label: String::new(),
            international_labels: Tags::new(),
            international_names: Tags::new(),
            zip_codes: Vec::new(),
            center: None,
            boundary: None,
            bbox: None,
            tags: Tags::new(),
            center_tags: Tags::new(),
            parent: None,
            wikidata: None,
            is_generated: true,
        }
    }
}

} // verus!
