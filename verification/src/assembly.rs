//! A catalog from the records of its tables, and the records from a catalog.
//!
//! The numbers of a coordinate stand in the point table as decimal text. No
//! function here reads or writes such text: the caller hands over the
//! coordinate of each record when a catalog is assembled, and the text of
//! each coordinate when a catalog is taken apart.

use crate::error::{ModelError, ModelErrorView};
use crate::io::{archive_of, archive_outcome, write_tables, Entry, EntryView, Tables, TablesView};
use crate::objects::{outcome, Coord, Model, ModelView, Poi, PoiType, PoiTypeView, PoiView};
use crate::records::{
    blank_poi, PoiProperty, PoiPropertyView, PoiRecord, PoiRecordView, PoiTypeRecord,
};
use crate::string_map::StringMap;
use vstd::pervasive::unreached;
use vstd::prelude::*;

verus! {

/// The decimal texts of a coordinate's two numbers.
#[derive(Debug, Clone, PartialEq, Eq)]
pub struct CoordText {
    pub lon: String,
    pub lat: String,
}

/// A [`CoordText`] with its texts as sequences of characters.
pub struct CoordTextView {
    pub lon: Seq<char>,
    pub lat: Seq<char>,
}

impl View for CoordText {
    type V = CoordTextView;

    open spec fn view(&self) -> CoordTextView {
        CoordTextView { lon: self.lon@, lat: self.lat@ }
    }
}

impl DeepView for CoordText {
    type V = CoordTextView;

    open spec fn deep_view(&self) -> CoordTextView {
        self@
    }
}

/// The points of interest of some records, by identifier, record `i` at
/// `coords[i]` and none with a property. Of two records with one identifier
/// the later one counts.
pub open spec fn poi_map(records: Seq<PoiRecordView>, coords: Seq<Coord>) -> Map<Seq<char>, PoiView>
    decreases records.len(),
{
    if records.len() == 0 {
        Map::empty()
    } else {
        poi_map(records.drop_last(), coords).insert(
            records.last().id,
            blank_poi(records.last(), coords[records.len() - 1]),
        )
    }
}

/// The types of some records, by identifier. Of two records with one
/// identifier the later one counts.
pub open spec fn poi_type_map(records: Seq<PoiTypeView>) -> Map<Seq<char>, PoiTypeView>
    decreases records.len(),
{
    if records.len() == 0 {
        Map::empty()
    } else {
        poi_type_map(records.drop_last()).insert(records.last().id, records.last())
    }
}

/// `poi` with one more property. A property that `poi` has under the same
/// key gives way.
pub open spec fn with_property(poi: PoiView, key: Seq<char>, value: Seq<char>) -> PoiView {
    PoiView {
        id: poi.id,
        name: poi.name,
        coord: poi.coord,
        poi_type_id: poi.poi_type_id,
        properties: poi.properties.insert(key, value),
        visible: poi.visible,
        weight: poi.weight,
    }
}

/// `pois` after each property was given to the point that it names, in the
/// order of `properties`. A property that names no point of `pois` is passed
/// over.
pub open spec fn with_properties(
    pois: Map<Seq<char>, PoiView>,
    properties: Seq<PoiPropertyView>,
) -> Map<Seq<char>, PoiView>
    decreases properties.len(),
{
    if properties.len() == 0 {
        pois
    } else {
        let before = with_properties(pois, properties.drop_last());
        let p = properties.last();
        if before.contains_key(p.poi_id) {
            before.insert(p.poi_id, with_property(before[p.poi_id], p.key, p.value))
        } else {
            before
        }
    }
}

/// Property `i` names a point of interest that `pois` does not hold.
pub open spec fn dangling(
    pois: Map<Seq<char>, PoiView>,
    properties: Seq<PoiPropertyView>,
    i: int,
) -> bool {
    0 <= i < properties.len() && !pois.contains_key(properties[i].poi_id)
}

/// The first property that names a point of interest that `pois` does not
/// hold.
pub open spec fn first_dangling(
    pois: Map<Seq<char>, PoiView>,
    properties: Seq<PoiPropertyView>,
) -> int {
    choose|i: int|
        dangling(pois, properties, i) && forall|j: int| 0 <= j < i ==> !dangling(pois, properties, j)
}

/// The catalog of some tables, the point of record `i` at `coords[i]`.
///
/// There must be one coordinate for each record of the point table, and the
/// point that a property names must be in the point table: the first
/// property that names another is the failure.
pub open spec fn model_of(tables: TablesView, coords: Seq<Coord>) -> Result<ModelView, ModelErrorView> {
    if coords.len() != tables.pois.len() {
        Err(
            ModelErrorView::CoordinateCount {
                expected: tables.pois.len(),
                found: coords.len(),
            },
        )
    } else {
        let pois = poi_map(tables.pois, coords);
        if exists|i: int| dangling(pois, tables.properties, i) {
            Err(
                ModelErrorView::UnknownPoi {
                    poi_id: tables.properties[first_dangling(pois, tables.properties)].poi_id,
                },
            )
        } else {
            Ok(
                ModelView {
                    pois: with_properties(pois, tables.properties),
                    poi_types: poi_type_map(tables.poi_types),
                },
            )
        }
    }
}

/// The record of a point of interest, with the texts of its coordinate.
pub open spec fn record_of_poi(poi: PoiView, text: CoordTextView) -> PoiRecordView {
    PoiRecordView {
        id: poi.id,
        type_id: poi.poi_type_id,
        name: poi.name,
        lat: text.lat,
        lon: text.lon,
        weight: poi.weight,
        visible: poi.visible,
    }
}

/// The property records of one point of interest, in the order of their
/// keys.
pub open spec fn properties_of(poi: Poi) -> Seq<PoiPropertyView> {
    Seq::new(
        poi.properties.keys().len(),
        |j: int|
            PoiPropertyView {
                poi_id: poi.id@,
                key: poi.properties.keys()[j],
                value: poi.properties.values()[j]@,
            },
    )
}

/// The property records of some points of interest: those of the first, then
/// those of the second, and so on.
pub open spec fn properties_of_all(pois: Seq<Poi>) -> Seq<PoiPropertyView>
    decreases pois.len(),
{
    if pois.len() == 0 {
        Seq::empty()
    } else {
        properties_of_all(pois.drop_last()) + properties_of(pois.last())
    }
}

/// The tables of a catalog whose points of interest and types are given in
/// the order in which the catalog holds them, `texts[i]` being the texts of
/// the coordinate of point `i`.
pub open spec fn tables_of(pois: Seq<Poi>, poi_types: Seq<PoiType>, texts: Seq<CoordTextView>) -> TablesView {
    TablesView {
        pois: Seq::new(pois.len(), |i: int| record_of_poi(pois[i]@, texts[i])),
        poi_types: Seq::new(poi_types.len(), |i: int| poi_types[i]@),
        properties: properties_of_all(pois),
    }
}

/// The archive of a catalog, `texts[i]` being the texts of the coordinate of
/// point `i`: the archive of the catalog's tables, where there is one text
/// for each point.
pub open spec fn archive_of_model(m: Model, texts: Seq<CoordTextView>) -> Result<
    Seq<EntryView>,
    ModelErrorView,
> {
    if texts.len() != m.pois.keys().len() {
        Err(
            ModelErrorView::CoordinateCount {
                expected: m.pois.keys().len(),
                found: texts.len(),
            },
        )
    } else {
        archive_of(tables_of(m.pois.values(), m.poi_types.values(), texts))
    }
}

/// Giving properties to points of interest brings no point in and takes none
/// out.
pub proof fn lemma_with_properties_domain(
    pois: Map<Seq<char>, PoiView>,
    properties: Seq<PoiPropertyView>,
)
    ensures
        with_properties(pois, properties).dom() == pois.dom(),
    decreases properties.len(),
{
    if properties.len() > 0 {
        lemma_with_properties_domain(pois, properties.drop_last());
        let before = with_properties(pois, properties.drop_last());
        assert(with_properties(pois, properties).dom() =~= before.dom());
    }
}

/// The map of some records holds a point for just the identifiers of the
/// records, and none of its points has a property.
pub proof fn lemma_poi_map_holds(records: Seq<PoiRecordView>, coords: Seq<Coord>)
    ensures
        forall|id: Seq<char>|
            poi_map(records, coords).contains_key(id) <==> exists|j: int|
                0 <= j < records.len() && (#[trigger] records[j]).id == id,
        forall|id: Seq<char>|
            poi_map(records, coords).contains_key(id) ==> (#[trigger] poi_map(records, coords)[id]).properties
                == Map::<Seq<char>, Seq<char>>::empty(),
    decreases records.len(),
{
    if records.len() > 0 {
        let earlier = records.drop_last();
        let last = records.last();
        lemma_poi_map_holds(earlier, coords);
        assert(poi_map(records, coords) == poi_map(earlier, coords).insert(
            last.id,
            blank_poi(last, coords[records.len() - 1]),
        ));
        assert forall|id: Seq<char>|
            poi_map(records, coords).contains_key(id) <==> exists|j: int|
                0 <= j < records.len() && (#[trigger] records[j]).id == id by {
            if poi_map(records, coords).contains_key(id) {
                if id == last.id {
                    assert(records[records.len() - 1].id == id);
                } else {
                    assert(poi_map(earlier, coords).contains_key(id));
                    let j = choose|j: int| 0 <= j < earlier.len() && (#[trigger] earlier[j]).id == id;
                    assert(records[j].id == id);
                }
            }
            if exists|j: int| 0 <= j < records.len() && (#[trigger] records[j]).id == id {
                let j = choose|j: int| 0 <= j < records.len() && (#[trigger] records[j]).id == id;
                if j < records.len() - 1 {
                    assert(earlier[j].id == id);
                    assert(poi_map(earlier, coords).contains_key(id));
                }
            }
        }
        assert forall|id: Seq<char>| poi_map(records, coords).contains_key(id) implies (#[trigger] poi_map(
            records,
            coords,
        )[id]).properties == Map::<Seq<char>, Seq<char>>::empty() by {
            if id != last.id {
                assert(poi_map(earlier, coords).contains_key(id));
                assert(poi_map(records, coords)[id] == poi_map(earlier, coords)[id]);
            }
        }
    }
}

/// Tables without properties make a catalog whose points have no property.
pub proof fn lemma_model_without_properties(tables: TablesView, coords: Seq<Coord>)
    requires
        tables.properties.len() == 0,
        coords.len() == tables.pois.len(),
    ensures
        model_of(tables, coords) is Ok,
        forall|id: Seq<char>|
            model_of(tables, coords)->Ok_0.pois.contains_key(id) ==> (#[trigger] model_of(
                tables,
                coords,
            )->Ok_0.pois[id]).properties == Map::<Seq<char>, Seq<char>>::empty(),
{
    lemma_poi_map_holds(tables.pois, coords);
}

/// A property that names a point of interest that is in no record of the
/// point table makes the assembly fail: a reference cannot be followed.
pub proof fn lemma_model_of_dangling_property(tables: TablesView, coords: Seq<Coord>, i: int)
    requires
        coords.len() == tables.pois.len(),
        0 <= i < tables.properties.len(),
        forall|j: int| 0 <= j < tables.pois.len() ==> (#[trigger] tables.pois[j]).id != tables.properties[i].poi_id,
    ensures
        model_of(tables, coords) is Err,
        model_of(tables, coords)->Err_0 is UnknownPoi,
        model_of(tables, coords)->Err_0.kind() == crate::error::ErrorKind::Reference,
{
    lemma_poi_map_holds(tables.pois, coords);
    assert(dangling(poi_map(tables.pois, coords), tables.properties, i));
}

/// A point of interest that holds nothing yet; it keeps the place of one that
/// is being worked on.
fn placeholder() -> (poi: Poi)
    ensures
        poi@.id == Seq::<char>::empty(),
        poi@.name == Seq::<char>::empty(),
        poi@.poi_type_id == Seq::<char>::empty(),
        poi@.coord.spec_lon() == 0,
        poi@.coord.spec_lat() == 0,
        poi@.coord.spec_is_default(),
        poi@.properties == Map::<Seq<char>, Seq<char>>::empty(),
        poi.properties.keys() == Seq::<Seq<char>>::empty(),
        !poi@.visible,
        poi@.weight == 0,
{
    let poi = Poi {
        id: String::new(),
        name: String::new(),
        coord: Coord::new(0, 0),
        poi_type_id: String::new(),
        properties: StringMap::new(),
        visible: false,
        weight: 0,
    };
    assert(poi@.properties =~= Map::<Seq<char>, Seq<char>>::empty());
    poi
}

impl Model {
    /// Assembles a catalog from the records of its tables. `coords[i]` is the
    /// coordinate of record `i` of the point table.
    pub fn from_tables(tables: Tables, coords: &Vec<Coord>) -> (r: Result<Model, ModelError>)
        ensures
            outcome(r) == model_of(tables@, coords@),
    {
        let ghost t = tables@;
        let Tables { pois: poi_records, poi_types: poi_type_records, properties } = tables;
        if coords.len() != poi_records.len() {
            return Err(
                ModelError::CoordinateCount { expected: poi_records.len(), found: coords.len() },
            );
        }
        let mut pois: StringMap<Poi> = StringMap::new();
        let ghost all = poi_records@;
        let mut i: usize = 0;
        proof {
            assert(t.pois.take(0) =~= Seq::<PoiRecordView>::empty());
            assert(pois@.map_values(|p: Poi| p@) =~= Map::<Seq<char>, PoiView>::empty());
        }
        for record in it: poi_records
            invariant
                i == it.index(),
                it.seq() == all,
                all.len() == coords.len(),
                t.pois.len() == all.len(),
                forall|j: int| 0 <= j < all.len() ==> (#[trigger] all[j])@ == t.pois[j],
                pois@.map_values(|p: Poi| p@) == poi_map(t.pois.take(i as int), coords@),
        {
            proof {
                assert(t.pois.take(i + 1).drop_last() =~= t.pois.take(i as int));
                assert(t.pois.take(i + 1).last() == t.pois[i as int]);
            }
            let ghost before = pois@;
            let poi = Poi::from_record(record, coords[i]);
            let key = poi.id.clone();
            pois.insert(key, poi);
            proof {
                assert(pois@.map_values(|p: Poi| p@) =~= before.map_values(|p: Poi| p@).insert(
                    key@,
                    poi@,
                ));
            }
            i = i + 1;
        }
        proof {
            assert(t.pois.take(i as int) =~= t.pois);
        }

        let mut poi_types: StringMap<PoiType> = StringMap::new();
        let ghost all_types = poi_type_records@;
        let ghost mut n: int = 0;
        proof {
            assert(t.poi_types.take(0) =~= Seq::<PoiTypeView>::empty());
            assert(poi_types@.map_values(|p: PoiType| p@) =~= Map::<Seq<char>, PoiTypeView>::empty());
        }
        for record in it: poi_type_records
            invariant
                n == it.index(),
                it.seq() == all_types,
                t.poi_types.len() == all_types.len(),
                forall|j: int| 0 <= j < all_types.len() ==> (#[trigger] all_types[j])@ == t.poi_types[j],
                poi_types@.map_values(|p: PoiType| p@) == poi_type_map(t.poi_types.take(n)),
        {
            proof {
                assert(t.poi_types.take(n + 1).drop_last() =~= t.poi_types.take(n));
                assert(t.poi_types.take(n + 1).last() == t.poi_types[n]);
            }
            let ghost before = poi_types@;
            let poi_type = PoiType { id: record.id, name: record.name };
            let key = poi_type.id.clone();
            poi_types.insert(key, poi_type);
            proof {
                assert(poi_types@.map_values(|p: PoiType| p@) =~= before.map_values(
                    |p: PoiType| p@,
                ).insert(key@, poi_type@));
                n = n + 1;
            }
        }
        proof {
            assert(t.poi_types.take(n) =~= t.poi_types);
        }

        let ghost base = poi_map(t.pois, coords@);
        let ghost all_properties = properties@;
        let ghost mut m: int = 0;
        proof {
            assert(t.properties.take(0) =~= Seq::<PoiPropertyView>::empty());
        }
        for property in it: properties
            invariant
                m == it.index(),
                it.seq() == all_properties,
                t == tables@,
                coords.len() == t.pois.len(),
                base == poi_map(t.pois, coords@),
                t.properties.len() == all_properties.len(),
                forall|j: int|
                    0 <= j < all_properties.len() ==> (#[trigger] all_properties[j])@
                        == t.properties[j],
                forall|j: int| 0 <= j < m ==> !dangling(base, t.properties, j),
                pois@.map_values(|p: Poi| p@) == with_properties(base, t.properties.take(m)),
        {
            let ghost p = t.properties[m];
            proof {
                assert(t.properties.take(m + 1).drop_last() =~= t.properties.take(m));
                assert(t.properties.take(m + 1).last() == p);
                lemma_with_properties_domain(base, t.properties.take(m));
                assert(pois@.map_values(|p: Poi| p@).dom() == pois@.dom());
            }
            let ghost before = pois@;
            let PoiProperty { poi_id, key, value } = property;
            match pois.replace(poi_id.as_str(), placeholder()) {
                None => {
                    proof {
                        assert(dangling(base, t.properties, m));
                        assert(first_dangling(base, t.properties) == m);
                    }
                    return Err(ModelError::UnknownPoi { poi_id });
                },
                Some(poi) => {
                    let mut poi = poi;
                    let ghost held = poi;
                    poi.properties.insert(key, value);
                    proof {
                        assert(poi@.properties =~= held@.properties.insert(key@, value@));
                        assert(poi@ == with_property(held@, key@, value@));
                    }
                    pois.replace(poi_id.as_str(), poi);
                    proof {
                        assert(pois@ =~= before.insert(poi_id@, poi));
                        assert(pois@.map_values(|p: Poi| p@) =~= before.map_values(
                            |p: Poi| p@,
                        ).insert(poi_id@, poi@));
                    }
                },
            }
            proof {
                m = m + 1;
            }
        }
        proof {
            assert(t.properties.take(m) =~= t.properties);
        }
        Ok(Model { pois, poi_types })
    }

    /// Takes the catalog apart into the records of its tables. `texts[i]`
    /// holds the texts of the coordinate of point `i`, the points counted in
    /// the order of their identifiers.
    ///
    /// The records of the point table and of the type table follow the order
    /// of the identifiers; the properties follow the order of their points,
    /// and those of one point the order of their keys.
    pub fn to_tables(&self, texts: &Vec<CoordText>) -> (r: Result<Tables, ModelError>)
        ensures
            self.pois.well_formed(),
            self.poi_types.well_formed(),
            match r {
                Ok(tables) => {
                    &&& texts.len() == self.pois.keys().len()
                    &&& tables@ == tables_of(
                        self.pois.values(),
                        self.poi_types.values(),
                        texts.deep_view(),
                    )
                },
                Err(e) => {
                    &&& texts.len() != self.pois.keys().len()
                    &&& e@ == ModelErrorView::CoordinateCount {
                        expected: self.pois.keys().len(),
                        found: texts.len() as nat,
                    }
                },
            },
    {
        let count = self.pois.len();
        let type_count = self.poi_types.len();
        if texts.len() != count {
            return Err(ModelError::CoordinateCount { expected: count, found: texts.len() });
        }
        let ghost held = self.pois.values();
        let ghost wanted = tables_of(held, self.poi_types.values(), texts.deep_view());
        let mut pois: Vec<PoiRecord> = Vec::new();
        let mut properties: Vec<PoiProperty> = Vec::new();
        let mut i: usize = 0;
        proof {
            assert(held.take(0) =~= Seq::<Poi>::empty());
        }
        while i < count
            invariant
                i <= count,
                count == self.pois.keys().len(),
                count == held.len(),
                count == texts.len(),
                held == self.pois.values(),
                wanted == tables_of(held, self.poi_types.values(), texts.deep_view()),
                pois.len() == i,
                forall|j: int| 0 <= j < i ==> (#[trigger] pois[j])@ == wanted.pois[j],
                properties.deep_view() == properties_of_all(held.take(i as int)),
            decreases count - i,
        {
            match self.pois.entry(i) {
                None => {
                    unreached::<()>();
                },
                Some((_, poi)) => {
                    proof {
                        assert(texts.deep_view()[i as int] == texts[i as int]@);
                        assert(held.take(i + 1).drop_last() =~= held.take(i as int));
                        assert(held.take(i + 1).last() == *poi);
                    }
                    pois.push(PoiRecord::from_poi(poi, texts[i].lat.clone(), texts[i].lon.clone()));
                    let ghost so_far = properties.deep_view();
                    let own = poi.properties.len();
                    let mut j: usize = 0;
                    while j < own
                        invariant
                            j <= own,
                            own == poi.properties.keys().len(),
                            properties.len() == so_far.len() + j,
                            forall|k: int|
                                0 <= k < so_far.len() ==> (#[trigger] properties[k])@ == so_far[k],
                            forall|k: int|
                                0 <= k < j ==> (#[trigger] properties[so_far.len() + k])@
                                    == properties_of(*poi)[k],
                        decreases own - j,
                    {
                        match poi.properties.entry(j) {
                            None => {
                                unreached::<()>();
                            },
                            Some((key, value)) => {
                                properties.push(
                                    PoiProperty {
                                        poi_id: poi.id.clone(),
                                        key: key.clone(),
                                        value: value.clone(),
                                    },
                                );
                            },
                        }
                        j = j + 1;
                    }
                    proof {
                        assert forall|x: int| 0 <= x < properties.len() implies properties.deep_view()[x]
                            == (so_far + properties_of(*poi))[x] by {
                            if x >= so_far.len() {
                                let k = x - so_far.len();
                                assert(properties[so_far.len() + k]@ == properties_of(*poi)[k]);
                            } else {
                                assert(properties[x]@ == so_far[x]);
                            }
                        }
                        assert(properties.deep_view() =~= so_far + properties_of(*poi));
                    }
                },
            }
            i = i + 1;
        }
        proof {
            assert(held.take(count as int) =~= held);
        }
        let mut poi_types: Vec<PoiTypeRecord> = Vec::new();
        let mut k: usize = 0;
        while k < type_count
            invariant
                k <= type_count,
                type_count == self.poi_types.keys().len(),
                wanted == tables_of(held, self.poi_types.values(), texts.deep_view()),
                poi_types.len() == k,
                forall|j: int| 0 <= j < k ==> (#[trigger] poi_types[j])@ == wanted.poi_types[j],
            decreases type_count - k,
        {
            match self.poi_types.entry(k) {
                None => {
                    unreached::<()>();
                },
                Some((_, poi_type)) => {
                    poi_types.push(
                        PoiTypeRecord { id: poi_type.id.clone(), name: poi_type.name.clone() },
                    );
                },
            }
            k = k + 1;
        }
        let tables = Tables { pois, poi_types, properties };
        proof {
            assert(tables@.pois =~= wanted.pois);
            assert(tables@.poi_types =~= wanted.poi_types);
        }
        Ok(tables)
    }

    /// Writes the catalog into the entries of an archive: its tables, taken
    /// apart as [`Model::to_tables`] does and written as [`write_tables`]
    /// does.
    pub fn to_archive(&self, texts: &Vec<CoordText>) -> (r: Result<Vec<Entry>, ModelError>)
        ensures
            archive_outcome(r) == archive_of_model(*self, texts.deep_view()),
    {
        let tables = self.to_tables(texts)?;
        write_tables(&tables)
    }
}

} // verus!
