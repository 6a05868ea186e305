//! The catalog and what it holds: coordinates, points of interest, their
//! types and properties.

use crate::error::{ModelError, ModelErrorView};
use crate::string_map::StringMap;
use crate::text::{ascending, is_first_of, precedes};
use vstd::prelude::*;
use vstd::std_specs::cmp::PartialEqSpecImpl;

verus! {

/// The sign bit of a binary64 bit pattern.
pub const SIGN_BIT: u64 = 0x8000_0000_0000_0000;

/// The bit pattern of positive infinity; every pattern with a greater
/// magnitude is a NaN.
pub const INFINITY: u64 = 0x7ff0_0000_0000_0000;

/// The bit pattern of 90.
pub const NINETY: u64 = 0x4056_8000_0000_0000;

/// The bit pattern of 180.
pub const ONE_EIGHTY: u64 = 0x4066_8000_0000_0000;

/// The bit pattern of the absolute value: `bits` without its sign bit. Among
/// patterns that are not NaN, a greater magnitude is a greater absolute value.
pub open spec fn magnitude(bits: u64) -> u64 {
    if bits >= SIGN_BIT {
        (bits - SIGN_BIT) as u64
    } else {
        bits
    }
}

/// `bits` is positive or negative zero.
pub open spec fn is_zero(bits: u64) -> bool {
    magnitude(bits) == 0
}

/// `bits` is a number, and its absolute value is at most the number whose
/// pattern `bound` is; `bound` is positive and finite. A NaN is within no bound.
pub open spec fn within(bits: u64, bound: u64) -> bool {
    magnitude(bits) <= bound
}

/// `a` and `b` are the same number: neither is a NaN, and they are the same
/// pattern or both zero.
pub open spec fn same_number(a: u64, b: u64) -> bool {
    &&& magnitude(a) <= INFINITY
    &&& magnitude(b) <= INFINITY
    &&& (a == b || (is_zero(a) && is_zero(b)))
}

/// A longitude and a latitude in degrees, each held as the bit pattern of a
/// binary64 number. Longitude 0 with latitude 0 stands for "not set".
#[derive(Debug, Clone, Copy)]
pub struct Coord {
    lon: u64,
    lat: u64,
}

impl Coord {
    /// The bit pattern of the longitude.
    pub closed spec fn spec_lon(&self) -> u64 {
        self.lon
    }

    /// The bit pattern of the latitude.
    pub closed spec fn spec_lat(&self) -> u64 {
        self.lat
    }

    /// Both numbers are zero, of either sign.
    pub open spec fn spec_is_default(&self) -> bool {
        is_zero(self.spec_lat()) && is_zero(self.spec_lon())
    }

    /// The coordinate is set, its latitude lies in [-90, 90] and its longitude
    /// in [-180, 180].
    pub open spec fn spec_is_valid(&self) -> bool {
        &&& !self.spec_is_default()
        &&& within(self.spec_lat(), NINETY)
        &&& within(self.spec_lon(), ONE_EIGHTY)
    }

    /// A coordinate of the two bit patterns, kept as they are: nothing is
    /// checked.
    pub fn new(lon: u64, lat: u64) -> (c: Coord)
        ensures
            c.spec_lon() == lon,
            c.spec_lat() == lat,
    {
        Coord { lon, lat }
    }

    /// The bit pattern of the longitude.
    #[verifier::when_used_as_spec(spec_lon)]
    pub fn lon(&self) -> (bits: u64)
        ensures
            bits == self.spec_lon(),
    {
        self.lon
    }

    /// The bit pattern of the latitude.
    #[verifier::when_used_as_spec(spec_lat)]
    pub fn lat(&self) -> (bits: u64)
        ensures
            bits == self.spec_lat(),
    {
        self.lat
    }

    /// Whether the coordinate is the one that stands for "not set".
    #[verifier::when_used_as_spec(spec_is_default)]
    pub fn is_default(&self) -> (r: bool)
        ensures
            r == self.spec_is_default(),
    {
        absolute(self.lat) == 0 && absolute(self.lon) == 0
    }

    /// Whether the coordinate is set and lies on the globe.
    #[verifier::when_used_as_spec(spec_is_valid)]
    pub fn is_valid(&self) -> (r: bool)
        ensures
            r == self.spec_is_valid(),
    {
        !self.is_default() && absolute(self.lat) <= NINETY && absolute(self.lon) <= ONE_EIGHTY
    }
}

/// The bit pattern of the absolute value.
fn absolute(bits: u64) -> (r: u64)
    ensures
        r == magnitude(bits),
{
    if bits >= SIGN_BIT {
        bits - SIGN_BIT
    } else {
        bits
    }
}

/// Whether the two patterns are the same number.
fn equal_numbers(a: u64, b: u64) -> (r: bool)
    ensures
        r == same_number(a, b),
{
    absolute(a) <= INFINITY && absolute(b) <= INFINITY && (a == b || (absolute(a) == 0 && absolute(b)
        == 0))
}

impl PartialEq for Coord {
    /// Whether the two coordinates are the same pair of numbers. Zero equals
    /// zero of the other sign, and a NaN equals nothing.
    fn eq(&self, other: &Coord) -> (r: bool) {
        equal_numbers(self.lon, other.lon) && equal_numbers(self.lat, other.lat)
    }
}

impl PartialEqSpecImpl for Coord {
    open spec fn obeys_eq_spec() -> bool {
        true
    }

    open spec fn eq_spec(&self, other: &Coord) -> bool {
        same_number(self.spec_lon(), other.spec_lon()) && same_number(
            self.spec_lat(),
            other.spec_lat(),
        )
    }
}

impl Default for Coord {
    /// The coordinate that stands for "not set".
    fn default() -> (c: Coord)
        ensures
            c.spec_lon() == 0,
            c.spec_lat() == 0,
            c.spec_is_default(),
    {
        Coord { lon: 0, lat: 0 }
    }
}

/// A key and a value attached to a point of interest.
#[derive(Debug, Clone, PartialEq, Eq, PartialOrd, Ord)]
pub struct Property {
    pub key: String,
    pub value: String,
}

/// A [`Property`] with its texts as sequences of characters.
pub struct PropertyView {
    pub key: Seq<char>,
    pub value: Seq<char>,
}

impl View for Property {
    type V = PropertyView;

    open spec fn view(&self) -> PropertyView {
        PropertyView { key: self.key@, value: self.value@ }
    }
}

/// A category of points of interest.
#[derive(Debug, Clone, PartialEq, Eq, PartialOrd, Ord)]
pub struct PoiType {
    /// The identifier that points of interest refer to.
    pub id: String,
    /// The name shown for the category.
    pub name: String,
}

/// A [`PoiType`] with its texts as sequences of characters.
pub struct PoiTypeView {
    pub id: Seq<char>,
    pub name: Seq<char>,
}

impl View for PoiType {
    type V = PoiTypeView;

    open spec fn view(&self) -> PoiTypeView {
        PoiTypeView { id: self.id@, name: self.name@ }
    }
}

impl PoiType {
    /// Whether the two types have the same identifier and the same name.
    pub fn same_as(&self, other: &PoiType) -> (r: bool)
        ensures
            r == (self@ == other@),
    {
        self.id == other.id && self.name == other.name
    }
}

/// A point of interest.
#[derive(Debug, Clone)]
pub struct Poi {
    /// The identifier, unique in a catalog.
    pub id: String,
    pub name: String,
    pub coord: Coord,
    /// The identifier of the point's type. Nothing ensures that the catalog
    /// holds a type under it.
    pub poi_type_id: String,
    /// The properties, by key.
    pub properties: StringMap<String>,
    /// Whether the point is shown on a map.
    pub visible: bool,
    /// A hint for ranking.
    pub weight: u32,
}

/// A [`Poi`] with its texts as sequences of characters and its properties as
/// a map.
pub struct PoiView {
    pub id: Seq<char>,
    pub name: Seq<char>,
    pub coord: Coord,
    pub poi_type_id: Seq<char>,
    pub properties: Map<Seq<char>, Seq<char>>,
    pub visible: bool,
    pub weight: u32,
}

impl View for Poi {
    type V = PoiView;

    open spec fn view(&self) -> PoiView {
        PoiView {
            id: self.id@,
            name: self.name@,
            coord: self.coord,
            poi_type_id: self.poi_type_id@,
            properties: self.properties@.map_values(|s: String| s@),
            visible: self.visible,
            weight: self.weight,
        }
    }
}

/// A catalog: points of interest and their types, each by identifier.
#[derive(Debug)]
pub struct Model {
    pub pois: StringMap<Poi>,
    pub poi_types: StringMap<PoiType>,
}

/// A [`Model`] as two maps from identifiers.
pub struct ModelView {
    pub pois: Map<Seq<char>, PoiView>,
    pub poi_types: Map<Seq<char>, PoiTypeView>,
}

impl View for Model {
    type V = ModelView;

    open spec fn view(&self) -> ModelView {
        ModelView {
            pois: self.pois@.map_values(|p: Poi| p@),
            poi_types: self.poi_types@.map_values(|t: PoiType| t@),
        }
    }
}

impl ModelView {
    /// Every point of interest and every type is held under its own
    /// identifier.
    pub open spec fn keyed(self) -> bool {
        &&& forall|k: Seq<char>| self.pois.contains_key(k) ==> (#[trigger] self.pois[k]).id == k
        &&& forall|k: Seq<char>|
            self.poi_types.contains_key(k) ==> (#[trigger] self.poi_types[k]).id == k
    }
}

/// The identifiers under which both catalogs hold a point of interest.
pub open spec fn shared_pois(a: ModelView, b: ModelView) -> Set<Seq<char>> {
    a.pois.dom().intersect(b.pois.dom())
}

/// The identifiers under which the two catalogs hold types that differ.
pub open spec fn clashing_types(a: ModelView, b: ModelView) -> Set<Seq<char>> {
    Set::new(
        |k: Seq<char>|
            a.poi_types.contains_key(k) && b.poi_types.contains_key(k) && a.poi_types[k]
                != b.poi_types[k],
    )
}

/// What merging `b` into `a` comes to.
///
/// The merge succeeds where the catalogs share no point of interest and give
/// no type two different meanings. The result then holds every point of
/// interest and every type of either. Else it fails: on the first shared
/// point of interest if there is one, otherwise on the first clashing type.
pub open spec fn merged(a: ModelView, b: ModelView, r: Result<ModelView, ModelErrorView>) -> bool {
    match r {
        Ok(m) => {
            &&& shared_pois(a, b) == Set::<Seq<char>>::empty()
            &&& clashing_types(a, b) == Set::<Seq<char>>::empty()
            &&& m.pois == a.pois.union_prefer_right(b.pois)
            &&& m.poi_types == a.poi_types.union_prefer_right(b.poi_types)
        },
        Err(ModelErrorView::DuplicatePoi { id }) => is_first_of(id, shared_pois(a, b)),
        Err(ModelErrorView::PoiTypeConflict { id }) => {
            &&& shared_pois(a, b) == Set::<Seq<char>>::empty()
            &&& is_first_of(id, clashing_types(a, b))
        },
        Err(_) => false,
    }
}

/// The views of a result's two sides.
pub open spec fn outcome(r: Result<Model, ModelError>) -> Result<ModelView, ModelErrorView> {
    match r {
        Ok(m) => Ok(m@),
        Err(e) => Err(e@),
    }
}

/// Catalogs that share no point of interest, and whose shared types are the
/// same in both, merge; the result holds as many points of interest as the
/// two together.
pub proof fn lemma_merge_of_disjoint(a: ModelView, b: ModelView, r: Result<ModelView, ModelErrorView>)
    requires
        merged(a, b, r),
        a.pois.dom().finite(),
        b.pois.dom().finite(),
        a.pois.dom().disjoint(b.pois.dom()),
        forall|k: Seq<char>|
            a.poi_types.contains_key(k) && b.poi_types.contains_key(k) ==> a.poi_types[k]
                == b.poi_types[k],
    ensures
        r is Ok,
        r->Ok_0.pois.dom().finite(),
        r->Ok_0.pois.len() == a.pois.len() + b.pois.len(),
{
    vstd::map_lib::lemma_disjoint_union_size(a.pois, b.pois);
    vstd::map_lib::lemma_union_dom(a.pois, b.pois);
}

/// A point of interest held by both catalogs makes the merge fail, whatever
/// the two points are.
pub proof fn lemma_merge_of_shared_poi(
    a: ModelView,
    b: ModelView,
    r: Result<ModelView, ModelErrorView>,
    id: Seq<char>,
)
    requires
        merged(a, b, r),
        a.pois.contains_key(id),
        b.pois.contains_key(id),
    ensures
        r is Err,
        r->Err_0 is DuplicatePoi,
        a.pois.contains_key(r->Err_0->DuplicatePoi_id),
        b.pois.contains_key(r->Err_0->DuplicatePoi_id),
{
    assert(shared_pois(a, b).contains(id));
}

/// Where the catalogs share no point of interest, a type that has one name
/// in one catalog and another in the other makes the merge fail.
pub proof fn lemma_merge_of_clashing_type(
    a: ModelView,
    b: ModelView,
    r: Result<ModelView, ModelErrorView>,
    id: Seq<char>,
)
    requires
        merged(a, b, r),
        a.pois.dom().disjoint(b.pois.dom()),
        a.poi_types.contains_key(id),
        b.poi_types.contains_key(id),
        a.poi_types[id] != b.poi_types[id],
    ensures
        r is Err,
        r->Err_0 is PoiTypeConflict,
        a.poi_types[r->Err_0->PoiTypeConflict_id] != b.poi_types[r->Err_0->PoiTypeConflict_id],
{
    assert(clashing_types(a, b).contains(id));
}

/// A type that both catalogs hold, the same in both, stands in a successful
/// merge once, as it was.
pub proof fn lemma_merge_of_same_type(
    a: ModelView,
    b: ModelView,
    r: Result<ModelView, ModelErrorView>,
    id: Seq<char>,
)
    requires
        merged(a, b, r),
        r is Ok,
        a.poi_types.contains_key(id),
        b.poi_types.contains_key(id),
    ensures
        a.poi_types[id] == b.poi_types[id],
        r->Ok_0.poi_types.contains_key(id),
        r->Ok_0.poi_types[id] == a.poi_types[id],
{
    assert(!clashing_types(a, b).contains(id));
}

/// A merge of catalogs that hold their entities under the entities' own
/// identifiers holds its entities so too.
pub proof fn lemma_merge_keeps_keys(a: ModelView, b: ModelView, r: Result<ModelView, ModelErrorView>)
    requires
        merged(a, b, r),
        r is Ok,
        a.keyed(),
        b.keyed(),
    ensures
        r->Ok_0.keyed(),
{
}

impl Default for Model {
    /// The empty catalog.
    fn default() -> (m: Model)
        ensures
            m@.pois == Map::<Seq<char>, PoiView>::empty(),
            m@.poi_types == Map::<Seq<char>, PoiTypeView>::empty(),
    {
        let m = Model { pois: StringMap::new(), poi_types: StringMap::new() };
        assert(m@.pois =~= Map::<Seq<char>, PoiView>::empty());
        assert(m@.poi_types =~= Map::<Seq<char>, PoiTypeView>::empty());
        m
    }
}

impl Model {
    /// Merges `rhs` into this catalog.
    ///
    /// Any identifier of a point of interest that both catalogs hold makes
    /// the merge fail, whatever the two points are. A type that both hold is
    /// accepted where it is the same type in both.
    pub fn try_merge(self, rhs: Model) -> (r: Result<Model, ModelError>)
        ensures
            merged(self@, rhs@, outcome(r)),
    {
        let ghost a = self@;
        let ghost b = rhs@;
        let Model { pois, poi_types } = self;
        let mut poi_types = poi_types;
        let Model { pois: more_pois, poi_types: more_types } = rhs;

        let pois = match pois.try_union(more_pois) {
            Ok(pois) => pois,
            Err(id) => {
                return Err(ModelError::DuplicatePoi { id });
            },
        };
        proof {
            assert(shared_pois(a, b) =~= Set::<Seq<char>>::empty());
            assert(pois@.map_values(|p: Poi| p@) =~= a.pois.union_prefer_right(b.pois));
        }

        let ghost t_keys = more_types.keys();
        let ghost t_values = more_types.values();
        let incoming_types = more_types.into_entries();
        let ghost all_types = incoming_types@;
        proof {
            crate::text::lemma_ascending_distinct(t_keys);
            assert forall|k: Seq<char>| b.poi_types.contains_key(k) implies t_keys.contains(k) by {}
        }
        for entry in it: incoming_types
            invariant
                a == self@,
                b == rhs@,
                it.seq() == all_types,
                all_types.len() == t_keys.len(),
                t_keys.len() == t_values.len(),
                ascending(t_keys),
                t_keys.no_duplicates(),
                forall|i: int|
                    0 <= i < all_types.len() ==> (#[trigger] all_types[i]).0@ == t_keys[i]
                        && all_types[i].1 == t_values[i],
                b.poi_types == crate::string_map::pairing(t_keys, t_values).map_values(
                    |t: PoiType| t@,
                ),
                shared_pois(a, b) == Set::<Seq<char>>::empty(),
                pois@.map_values(|p: Poi| p@) == a.pois.union_prefer_right(b.pois),
                forall|k: Seq<char>|
                    poi_types@.contains_key(k) <==> a.poi_types.contains_key(k) || exists|j: int|
                        0 <= j < it.index() && t_keys[j] == k,
                forall|k: Seq<char>| a.poi_types.contains_key(k) ==> poi_types@[k]@ == a.poi_types[k],
                forall|j: int|
                    0 <= j < it.index() ==> poi_types@[#[trigger] t_keys[j]]@ == t_values[j]@,
        {
            let ghost i = it.index();
            let (key, poi_type) = entry;
            proof {
                crate::string_map::lemma_pairing_entry(t_keys, t_values, i);
            }
            let same = match poi_types.get(key.as_str()) {
                Some(held) => Some(held.same_as(&poi_type)),
                None => None,
            };
            match same {
                Some(true) => {
                    proof {
                        assert(a.poi_types.contains_key(key@));
                    }
                },
                Some(false) => {
                    proof {
                        assert(a.poi_types.contains_key(key@));
                        assert(b.poi_types.contains_key(key@));
                        assert(b.poi_types[key@] == poi_type@);
                        assert(clashing_types(a, b).contains(key@));
                        assert forall|k: Seq<char>|
                            clashing_types(a, b).contains(k) && k != key@ implies precedes(key@, k) by {
                            let j = choose|j: int| 0 <= j < t_keys.len() && t_keys[j] == k;
                            crate::string_map::lemma_pairing_entry(t_keys, t_values, j);
                            if j < i {
                                assert(poi_types@[t_keys[j]]@ == t_values[j]@);
                            }
                        }
                    }
                    return Err(ModelError::PoiTypeConflict { id: key });
                },
                None => {
                    poi_types.insert(key, poi_type);
                },
            }
        }
        proof {
            assert forall|k: Seq<char>| !clashing_types(a, b).contains(k) by {
                if b.poi_types.contains_key(k) && a.poi_types.contains_key(k) {
                    let j = choose|j: int| 0 <= j < t_keys.len() && t_keys[j] == k;
                    crate::string_map::lemma_pairing_entry(t_keys, t_values, j);
                    assert(poi_types@[t_keys[j]]@ == t_values[j]@);
                }
            }
            assert(clashing_types(a, b) =~= Set::<Seq<char>>::empty());
            let merged_types = poi_types@.map_values(|t: PoiType| t@);
            assert forall|k: Seq<char>| merged_types.contains_key(k) implies #[trigger] merged_types[k]
                == a.poi_types.union_prefer_right(b.poi_types)[k] by {
                if b.poi_types.contains_key(k) {
                    let j = choose|j: int| 0 <= j < t_keys.len() && t_keys[j] == k;
                    crate::string_map::lemma_pairing_entry(t_keys, t_values, j);
                    assert(poi_types@[t_keys[j]]@ == t_values[j]@);
                }
            }
            assert forall|k: Seq<char>| b.poi_types.contains_key(k) implies merged_types.contains_key(
                k,
            ) by {
                let j = choose|j: int| 0 <= j < t_keys.len() && t_keys[j] == k;
                assert(t_keys[j] == k);
            }
            assert(merged_types =~= a.poi_types.union_prefer_right(b.poi_types));
        }
        Ok(Model { pois, poi_types })
    }
}

} // verus!
