//! What is written can be read back.
//!
//! The laws of this module lead from a catalog to its archive and back. A
//! catalog is assembled again from the tables that it was taken apart into;
//! tables are read back from the sheets that they were written as; and an
//! archive that was written holds the tables that it was written from. The
//! last rests on the look that [`crate::delimited::write_table`] takes at its
//! own bytes before it hands them out.

use crate::assembly::{
    archive_of_model, dangling, model_of, poi_map, poi_type_map, properties_of, properties_of_all, record_of_poi,
    tables_of, with_properties, with_property, CoordTextView,
};
use crate::delimited::{lemma_sheet_round_trip, records_of, sheet_of, Row};
use crate::error::ModelErrorView;
use crate::fields::is_decimal;
use crate::io::{
    archive_of, entry_data, poi_entry, poi_type_entry, property_entry, tables_in, TablesView,
};
use crate::objects::{Coord, Model, ModelView, Poi, PoiType, PoiTypeView, PoiView};
use crate::records::{
    blank_poi, lemma_distinct_columns, lemma_poi_row_round_trip, lemma_poi_type_row_round_trip,
    lemma_property_row_round_trip, poi_columns, poi_record, poi_row, poi_type_columns,
    poi_type_record, poi_type_row, property_columns, property_record, property_row,
    PoiPropertyView, PoiRecordView,
};
use crate::string_map::{lemma_pairing_entry, lemma_pairing_insert, lemma_pairing_update, pairing};
use crate::text::lemma_ascending_distinct;
use vstd::prelude::*;

verus! {

/// The rows that the records of the point table are written as.
pub open spec fn poi_rows(records: Seq<PoiRecordView>) -> Seq<Row> {
    records.map_values(|r: PoiRecordView| poi_row(r))
}

/// The rows that the records of the type table are written as.
pub open spec fn poi_type_rows(records: Seq<PoiTypeView>) -> Seq<Row> {
    records.map_values(|r: PoiTypeView| poi_type_row(r))
}

/// The rows that the records of the property table are written as.
pub open spec fn property_rows(records: Seq<PoiPropertyView>) -> Seq<Row> {
    records.map_values(|r: PoiPropertyView| property_row(r))
}

/// The records of some tables are read back from their rows as they were.
pub proof fn lemma_rows_round_trip(tables: TablesView)
    ensures
        poi_rows(tables.pois).map_values(|row: Row| poi_record(row)) == tables.pois,
        poi_type_rows(tables.poi_types).map_values(|row: Row| poi_type_record(row))
            == tables.poi_types,
        property_rows(tables.properties).map_values(|row: Row| property_record(row))
            == tables.properties,
        forall|i: int|
            0 <= i < tables.poi_types.len() ==> crate::delimited::conforms(
                poi_type_columns(),
                #[trigger] poi_type_rows(tables.poi_types)[i],
            ),
        forall|i: int|
            0 <= i < tables.properties.len() ==> crate::delimited::conforms(
                property_columns(),
                #[trigger] property_rows(tables.properties)[i],
            ),
        forall|i: int|
            0 <= i < tables.pois.len() ==> (crate::delimited::conforms(
                poi_columns(),
                #[trigger] poi_rows(tables.pois)[i],
            ) <==> is_decimal(tables.pois[i].lat) && is_decimal(tables.pois[i].lon)),
{
    let pois = poi_rows(tables.pois);
    assert forall|i: int| 0 <= i < pois.len() implies poi_record(#[trigger] pois[i])
        == tables.pois[i] && (crate::delimited::conforms(poi_columns(), pois[i]) <==> is_decimal(
        tables.pois[i].lat,
    ) && is_decimal(tables.pois[i].lon)) by {
        lemma_poi_row_round_trip(tables.pois[i]);
    }
    assert(pois.map_values(|row: Row| poi_record(row)) =~= tables.pois);

    let poi_types = poi_type_rows(tables.poi_types);
    assert forall|i: int| 0 <= i < poi_types.len() implies crate::delimited::conforms(
        poi_type_columns(),
        #[trigger] poi_types[i],
    ) && poi_type_record(poi_types[i]) == tables.poi_types[i] by {
        lemma_poi_type_row_round_trip(tables.poi_types[i]);
    }
    assert(poi_types.map_values(|row: Row| poi_type_record(row)) =~= tables.poi_types);

    let properties = property_rows(tables.properties);
    assert forall|i: int| 0 <= i < properties.len() implies crate::delimited::conforms(
        property_columns(),
        #[trigger] properties[i],
    ) && property_record(properties[i]) == tables.properties[i] by {
        lemma_property_row_round_trip(tables.properties[i]);
    }
    assert(properties.map_values(|row: Row| property_record(row)) =~= tables.properties);
}

/// Tables that were written as sheets are read back from the sheets as they
/// were, where the texts of every coordinate are decimals.
pub proof fn lemma_tables_round_trip(tables: TablesView)
    requires
        forall|i: int|
            0 <= i < tables.pois.len() ==> is_decimal((#[trigger] tables.pois[i]).lat) && is_decimal(
                tables.pois[i].lon,
            ),
    ensures
        records_of(
            poi_entry(),
            Some(sheet_of(poi_columns(), poi_rows(tables.pois))),
            poi_columns(),
        ) == Ok::<Seq<Row>, ModelErrorView>(poi_rows(tables.pois)),
        poi_rows(tables.pois).map_values(|row: Row| poi_record(row)) == tables.pois,
        records_of(
            poi_type_entry(),
            Some(sheet_of(poi_type_columns(), poi_type_rows(tables.poi_types))),
            poi_type_columns(),
        ) == Ok::<Seq<Row>, ModelErrorView>(poi_type_rows(tables.poi_types)),
        poi_type_rows(tables.poi_types).map_values(|row: Row| poi_type_record(row))
            == tables.poi_types,
        records_of(
            property_entry(),
            Some(sheet_of(property_columns(), property_rows(tables.properties))),
            property_columns(),
        ) == Ok::<Seq<Row>, ModelErrorView>(property_rows(tables.properties)),
        property_rows(tables.properties).map_values(|row: Row| property_record(row))
            == tables.properties,
{
    lemma_distinct_columns();
    lemma_rows_round_trip(tables);
    lemma_sheet_round_trip(poi_entry(), poi_columns(), poi_rows(tables.pois));
    lemma_sheet_round_trip(poi_type_entry(), poi_type_columns(), poi_type_rows(tables.poi_types));
    lemma_sheet_round_trip(property_entry(), property_columns(), property_rows(tables.properties));
}

/// The three entries of an archive have names of their own.
pub proof fn lemma_distinct_entries()
    ensures
        poi_entry() != poi_type_entry(),
        poi_entry() != property_entry(),
        poi_type_entry() != property_entry(),
{
    reveal_strlit("poi.txt");
    reveal_strlit("poi_type.txt");
    reveal_strlit("poi_properties.txt");
    assert(poi_entry().len() == 7);
    assert(poi_type_entry().len() == 12);
    assert(property_entry().len() == 18);
}

/// An archive that was written holds the tables that it was written from.
pub proof fn lemma_archive_round_trip(tables: TablesView)
    requires
        archive_of(tables) is Ok,
    ensures
        tables_in(archive_of(tables)->Ok_0) == Ok::<TablesView, ModelErrorView>(tables),
{
    let archive = archive_of(tables)->Ok_0;
    lemma_distinct_entries();
    lemma_distinct_columns();
    lemma_rows_round_trip(tables);
    let pois = poi_rows(tables.pois);
    let poi_types = poi_type_rows(tables.poi_types);
    let properties = property_rows(tables.properties);
    assert forall|i: int| 0 <= i < pois.len() implies crate::delimited::conforms(
        poi_columns(),
        #[trigger] pois[i],
    ) by {
        assert(!crate::delimited::unfit_record(poi_columns(), pois, i));
    }
    lemma_sheet_round_trip(poi_entry(), poi_columns(), pois);
    lemma_sheet_round_trip(poi_type_entry(), poi_type_columns(), poi_types);
    lemma_sheet_round_trip(property_entry(), property_columns(), properties);
    let second = archive.drop_first();
    let third = second.drop_first();
    assert(second[0] == archive[1]);
    assert(third[0] == archive[2]);
    assert(entry_data(archive, poi_entry()) == Some(archive[0].data));
    assert(entry_data(second, poi_type_entry()) == Some(archive[1].data));
    assert(entry_data(archive, poi_type_entry()) == Some(archive[1].data));
    assert(entry_data(third, property_entry()) == Some(archive[2].data));
    assert(entry_data(second, property_entry()) == Some(archive[2].data));
    assert(entry_data(archive, property_entry()) == Some(archive[2].data));
    let read = tables_in(archive)->Ok_0;
    assert(read.pois == tables.pois);
    assert(read.poi_types == tables.poi_types);
    assert(read.properties == tables.properties);
}

/// The coordinates of some points of interest, in their order.
pub open spec fn coords_of(pois: Seq<Poi>) -> Seq<Coord> {
    Seq::new(pois.len(), |i: int| pois[i].coord)
}

/// One more key at the end of a pairing is one more binding.
proof fn lemma_pairing_push<V>(keys: Seq<Seq<char>>, values: Seq<V>, i: int)
    requires
        keys.no_duplicates(),
        keys.len() == values.len(),
        0 <= i < keys.len(),
    ensures
        pairing(keys.take(i + 1), values.take(i + 1)) == pairing(keys.take(i), values.take(i)).insert(
            keys[i],
            values[i],
        ),
{
    let k = keys.take(i);
    let v = values.take(i);
    assert forall|a: int, b: int| 0 <= a < k.len() && 0 <= b < k.len() && a != b implies k[a]
        != k[b] by {
        assert(k[a] == keys[a] && k[b] == keys[b]);
    }
    assert(!k.contains(keys[i])) by {
        if k.contains(keys[i]) {
            let a = choose|a: int| 0 <= a < k.len() && k[a] == keys[i];
            assert(keys[a] == keys[i]);
        }
    }
    lemma_pairing_insert(k, v, i, keys[i], values[i]);
    assert(k.insert(i, keys[i]) =~= keys.take(i + 1));
    assert(v.insert(i, values[i]) =~= values.take(i + 1));
}

/// The values of a pairing may be mapped before or after the pairing.
proof fn lemma_pairing_map<V, W>(keys: Seq<Seq<char>>, values: Seq<V>, f: spec_fn(V) -> W)
    requires
        keys.len() == values.len(),
    ensures
        pairing(keys, values).map_values(f) == pairing(keys, values.map_values(f)),
{
    assert forall|k: Seq<char>| keys.contains(k) implies #[trigger] pairing(keys, values).map_values(
        f,
    )[k] == pairing(keys, values.map_values(f))[k] by {
        let i = keys.index_of(k);
        assert(0 <= i < keys.len());
    }
    assert(pairing(keys, values).map_values(f) =~= pairing(keys, values.map_values(f)));
}

/// The points of some records without properties, in the records' order.
spec fn blanks(records: Seq<PoiRecordView>, coords: Seq<Coord>) -> Seq<PoiView> {
    Seq::new(records.len(), |i: int| blank_poi(records[i], coords[i]))
}

/// Records with identifiers of their own make a map with a point for each.
proof fn lemma_poi_map(records: Seq<PoiRecordView>, coords: Seq<Coord>, keys: Seq<Seq<char>>, i: int)
    requires
        keys.no_duplicates(),
        keys.len() == records.len(),
        forall|j: int| 0 <= j < records.len() ==> (#[trigger] records[j]).id == keys[j],
        0 <= i <= records.len(),
    ensures
        poi_map(records.take(i), coords) == pairing(keys.take(i), blanks(records, coords).take(i)),
    decreases i,
{
    if i == 0 {
        assert(pairing(keys.take(0), blanks(records, coords).take(0)) =~= Map::<
            Seq<char>,
            PoiView,
        >::empty());
    } else {
        lemma_poi_map(records, coords, keys, i - 1);
        assert(records.take(i).drop_last() =~= records.take(i - 1));
        assert(records.take(i).last() == records[i - 1]);
        lemma_pairing_push(keys, blanks(records, coords), i - 1);
    }
}

/// Types with identifiers of their own make a map with an entry for each.
proof fn lemma_poi_type_map(records: Seq<PoiTypeView>, keys: Seq<Seq<char>>, i: int)
    requires
        keys.no_duplicates(),
        keys.len() == records.len(),
        forall|j: int| 0 <= j < records.len() ==> (#[trigger] records[j]).id == keys[j],
        0 <= i <= records.len(),
    ensures
        poi_type_map(records.take(i)) == pairing(keys.take(i), records.take(i)),
    decreases i,
{
    if i == 0 {
        assert(pairing(keys.take(0), records.take(0)) =~= Map::<Seq<char>, PoiTypeView>::empty());
    } else {
        lemma_poi_type_map(records, keys, i - 1);
        assert(records.take(i).drop_last() =~= records.take(i - 1));
        assert(records.take(i).last() == records[i - 1]);
        lemma_pairing_push(keys, records, i - 1);
    }
}

/// Properties may be given in one go or in two.
proof fn lemma_with_properties_concat(
    pois: Map<Seq<char>, PoiView>,
    first: Seq<PoiPropertyView>,
    second: Seq<PoiPropertyView>,
)
    ensures
        with_properties(pois, first + second) == with_properties(
            with_properties(pois, first),
            second,
        ),
    decreases second.len(),
{
    if second.len() == 0 {
        assert(first + second =~= first);
    } else {
        lemma_with_properties_concat(pois, first, second.drop_last());
        assert((first + second).drop_last() =~= first + second.drop_last());
        assert((first + second).last() == second.last());
    }
}

/// `poi` with `properties` in the place of its own.
spec fn having(poi: PoiView, properties: Map<Seq<char>, Seq<char>>) -> PoiView {
    PoiView {
        id: poi.id,
        name: poi.name,
        coord: poi.coord,
        poi_type_id: poi.poi_type_id,
        properties,
        visible: poi.visible,
        weight: poi.weight,
    }
}

/// The values of a point's properties as sequences of characters.
spec fn value_texts(poi: Poi) -> Seq<Seq<char>> {
    poi.properties.values().map_values(|s: String| s@)
}

/// Giving a point that has no property yet the first `j` of its own leaves
/// it with just these.
proof fn lemma_own_properties(pois: Map<Seq<char>, PoiView>, poi: Poi, j: int)
    requires
        pois.contains_key(poi.id@),
        pois[poi.id@].properties == Map::<Seq<char>, Seq<char>>::empty(),
        poi.properties.well_formed(),
        0 <= j <= poi.properties.keys().len(),
    ensures
        with_properties(pois, properties_of(poi).take(j)) == pois.insert(
            poi.id@,
            having(
                pois[poi.id@],
                pairing(poi.properties.keys().take(j), value_texts(poi).take(j)),
            ),
        ),
    decreases j,
{
    let keys = poi.properties.keys();
    let texts = value_texts(poi);
    let held = pois[poi.id@];
    if j == 0 {
        assert(pairing(keys.take(0), texts.take(0)) =~= Map::<Seq<char>, Seq<char>>::empty());
        assert(pois.insert(poi.id@, having(held, pairing(keys.take(0), texts.take(0)))) =~= pois);
    } else {
        lemma_own_properties(pois, poi, j - 1);
        lemma_ascending_distinct(keys);
        lemma_pairing_push(keys, texts, j - 1);
        let all = properties_of(poi);
        assert(all.take(j).drop_last() =~= all.take(j - 1));
        assert(all.take(j).last() == all[j - 1]);
        let before = with_properties(pois, all.take(j - 1));
        let earlier = pairing(keys.take(j - 1), texts.take(j - 1));
        assert(before[poi.id@] == having(held, earlier));
        assert(with_property(having(held, earlier), keys[j - 1], texts[j - 1]) == having(
            held,
            earlier.insert(keys[j - 1], texts[j - 1]),
        ));
        assert(before.insert(
            poi.id@,
            having(held, pairing(keys.take(j), texts.take(j))),
        ) =~= pois.insert(poi.id@, having(held, pairing(keys.take(j), texts.take(j)))));
    }
}

/// The points of interest, the first `i` with their properties and the
/// others without.
spec fn partly(pois: Seq<Poi>, texts: Seq<CoordTextView>, i: int) -> Seq<PoiView> {
    Seq::new(
        pois.len(),
        |k: int|
            if k < i {
                pois[k]@
            } else {
                blank_poi(record_of_poi(pois[k]@, texts[k]), pois[k].coord)
            },
    )
}

/// Giving the points of interest the properties of the first `i` among them
/// leaves these `i` as they are in the catalog.
proof fn lemma_all_properties(
    keys: Seq<Seq<char>>,
    pois: Seq<Poi>,
    texts: Seq<CoordTextView>,
    i: int,
)
    requires
        keys.no_duplicates(),
        keys.len() == pois.len(),
        forall|k: int| 0 <= k < pois.len() ==> (#[trigger] pois[k]).id@ == keys[k],
        forall|k: int| 0 <= k < pois.len() ==> (#[trigger] pois[k]).properties.well_formed(),
        0 <= i <= pois.len(),
    ensures
        with_properties(pairing(keys, partly(pois, texts, 0)), properties_of_all(pois.take(i)))
            == pairing(keys, partly(pois, texts, i)),
    decreases i,
{
    let base = pairing(keys, partly(pois, texts, 0));
    if i == 0 {
        assert(pois.take(0) =~= Seq::<Poi>::empty());
    } else {
        lemma_all_properties(keys, pois, texts, i - 1);
        let poi = pois[i - 1];
        assert(pois.take(i).drop_last() =~= pois.take(i - 1));
        assert(pois.take(i).last() == poi);
        let earlier = properties_of_all(pois.take(i - 1));
        lemma_with_properties_concat(base, earlier, properties_of(poi));
        let before = pairing(keys, partly(pois, texts, i - 1));
        lemma_pairing_entry(keys, partly(pois, texts, i - 1), i - 1);
        let own = poi.properties.keys().len() as int;
        lemma_own_properties(before, poi, own);
        assert(properties_of(poi).take(own) =~= properties_of(poi));
        assert(poi.properties.keys().take(own) =~= poi.properties.keys());
        assert(value_texts(poi).take(own) =~= value_texts(poi));
        lemma_pairing_map(poi.properties.keys(), poi.properties.values(), |s: String| s@);
        assert(having(before[poi.id@], pairing(poi.properties.keys(), value_texts(poi))) == poi@);
        lemma_pairing_update(keys, partly(pois, texts, i - 1), i - 1, poi@);
        assert(partly(pois, texts, i - 1).update(i - 1, poi@) =~= partly(pois, texts, i));
    }
}

/// Each property record of some points of interest names one of them.
proof fn lemma_properties_name_their_points(pois: Seq<Poi>, x: int)
    requires
        0 <= x < properties_of_all(pois).len(),
    ensures
        exists|i: int| 0 <= i < pois.len() && properties_of_all(pois)[x].poi_id == (#[trigger] pois[i]).id@,
    decreases pois.len(),
{
    if pois.len() > 0 {
        let earlier = properties_of_all(pois.drop_last());
        if x < earlier.len() {
            lemma_properties_name_their_points(pois.drop_last(), x);
            let i = choose|i: int|
                0 <= i < pois.drop_last().len() && earlier[x].poi_id == (#[trigger] pois.drop_last()[i]).id@;
            assert(pois[i] == pois.drop_last()[i]);
        } else {
            assert(properties_of_all(pois)[x] == properties_of(pois.last())[x - earlier.len()]);
            assert(pois[pois.len() - 1] == pois.last());
        }
    }
}

/// A catalog that holds every entity under the entity's own identifier is
/// assembled again from the tables that it is taken apart into, whatever the
/// texts of its coordinates are, as long as every point is given its own
/// coordinate back.
pub proof fn lemma_model_round_trip(m: Model, texts: Seq<CoordTextView>)
    requires
        m.pois.well_formed(),
        m.poi_types.well_formed(),
        forall|i: int|
            0 <= i < m.pois.values().len() ==> (#[trigger] m.pois.values()[i]).properties.well_formed(),
        m@.keyed(),
        texts.len() == m.pois.values().len(),
    ensures
        model_of(
            tables_of(m.pois.values(), m.poi_types.values(), texts),
            coords_of(m.pois.values()),
        ) == Ok::<ModelView, ModelErrorView>(m@),
{
    let keys = m.pois.keys();
    let pois = m.pois.values();
    let type_keys = m.poi_types.keys();
    let poi_types = m.poi_types.values();
    let tables = tables_of(pois, poi_types, texts);
    let coords = coords_of(pois);
    lemma_ascending_distinct(keys);
    lemma_ascending_distinct(type_keys);

    assert forall|k: int| 0 <= k < pois.len() implies (#[trigger] pois[k]).id@ == keys[k] by {
        lemma_pairing_entry(keys, pois, k);
        assert(m@.pois.contains_key(keys[k]));
        assert(m@.pois[keys[k]] == pois[k]@);
    }
    assert forall|k: int| 0 <= k < poi_types.len() implies (#[trigger] poi_types[k]).id@
        == type_keys[k] by {
        lemma_pairing_entry(type_keys, poi_types, k);
        assert(m@.poi_types.contains_key(type_keys[k]));
        assert(m@.poi_types[type_keys[k]] == poi_types[k]@);
    }

    lemma_poi_map(tables.pois, coords, keys, pois.len() as int);
    assert(tables.pois.take(pois.len() as int) =~= tables.pois);
    assert(keys.take(pois.len() as int) =~= keys);
    assert(blanks(tables.pois, coords).take(pois.len() as int) =~= partly(pois, texts, 0));
    let base = poi_map(tables.pois, coords);
    assert(base == pairing(keys, partly(pois, texts, 0)));

    assert forall|x: int| !dangling(base, tables.properties, x) by {
        if 0 <= x < tables.properties.len() {
            lemma_properties_name_their_points(pois, x);
            let i = choose|i: int|
                0 <= i < pois.len() && properties_of_all(pois)[x].poi_id == (#[trigger] pois[i]).id@;
            lemma_pairing_entry(keys, partly(pois, texts, 0), i);
        }
    }

    lemma_all_properties(keys, pois, texts, pois.len() as int);
    assert(pois.take(pois.len() as int) =~= pois);
    assert(partly(pois, texts, pois.len() as int) =~= pois.map_values(|p: Poi| p@));
    lemma_pairing_map(keys, pois, |p: Poi| p@);

    lemma_poi_type_map(tables.poi_types, type_keys, poi_types.len() as int);
    assert(tables.poi_types.take(poi_types.len() as int) =~= tables.poi_types);
    assert(type_keys.take(poi_types.len() as int) =~= type_keys);
    assert(tables.poi_types =~= poi_types.map_values(|t: PoiType| t@));
    lemma_pairing_map(type_keys, poi_types, |t: PoiType| t@);
}

/// A catalog that was written to an archive is read back from the archive as
/// it was: the archive holds the catalog's tables, and the catalog is
/// assembled again from them. The catalog must hold every entity under the
/// entity's own identifier, and every point must be given its coordinate
/// back.
pub proof fn lemma_catalog_round_trip(m: Model, texts: Seq<CoordTextView>)
    requires
        m.pois.well_formed(),
        m.poi_types.well_formed(),
        forall|i: int|
            0 <= i < m.pois.values().len() ==> (#[trigger] m.pois.values()[i]).properties.well_formed(),
        m@.keyed(),
        archive_of_model(m, texts) is Ok,
    ensures
        tables_in(archive_of_model(m, texts)->Ok_0) is Ok,
        model_of(tables_in(archive_of_model(m, texts)->Ok_0)->Ok_0, coords_of(m.pois.values()))
            == Ok::<ModelView, ModelErrorView>(m@),
{
    lemma_archive_round_trip(tables_of(m.pois.values(), m.poi_types.values(), texts));
    lemma_model_round_trip(m, texts);
}

} // verus!
