//! Geographic positions, and the geometries of GeoJSON documents.

use crate::double::Double;
use geojson::Value;
use vstd::prelude::*;

verus! {

// -- Positions -------------------------------------------------------------

/// A geographic position in WGS-84 coordinates.
#[derive(Debug, Clone, Copy)]
pub struct LatLon {
    pub lat: Double,
    pub lon: Double,
}

impl LatLon {
    pub fn new(lat: Double, lon: Double) -> (r: Self)
        ensures
            r == (LatLon { lat, lon }),
    {
        LatLon { lat, lon }
    }
}

impl PartialEq for LatLon {
    fn eq(&self, other: &LatLon) -> (r: bool) {
        self.lat.is_same(&other.lat) && self.lon.is_same(&other.lon)
    }
}

impl vstd::std_specs::cmp::PartialEqSpecImpl for LatLon {
    open spec fn obeys_eq_spec() -> bool {
        true
    }

    open spec fn eq_spec(&self, other: &LatLon) -> bool {
        self.lat.same(other.lat) && self.lon.same(other.lon)
    }
}

// -- Documents -------------------------------------------------------------

/// A geometry of a GeoJSON document. A position is a list of numbers, longitude
/// first.
#[derive(Debug)]
pub enum GeoValue {
    Point(Vec<Double>),
    MultiPoint(Vec<Vec<Double>>),
    LineString(Vec<Vec<Double>>),
    MultiLineString(Vec<Vec<Vec<Double>>>),
    Polygon(Vec<Vec<Vec<Double>>>),
    MultiPolygon(Vec<Vec<Vec<Vec<Double>>>>),
    GeometryCollection(Vec<GeoValue>),
}

/// What a [`GeoValue`] says.
pub enum GeoModel {
    Point(Seq<Double>),
    MultiPoint(Seq<Seq<Double>>),
    LineString(Seq<Seq<Double>>),
    MultiLineString(Seq<Seq<Seq<Double>>>),
    Polygon(Seq<Seq<Seq<Double>>>),
    MultiPolygon(Seq<Seq<Seq<Seq<Double>>>>),
    GeometryCollection(Seq<GeoModel>),
}

pub open spec fn positions(v: Seq<Vec<Double>>) -> Seq<Seq<Double>> {
    Seq::new(v.len(), |i: int| v[i]@)
}

pub open spec fn position_lists(v: Seq<Vec<Vec<Double>>>) -> Seq<Seq<Seq<Double>>> {
    Seq::new(v.len(), |i: int| positions(v[i]@))
}

pub open spec fn position_tables(v: Seq<Vec<Vec<Vec<Double>>>>) -> Seq<Seq<Seq<Seq<Double>>>> {
    Seq::new(v.len(), |i: int| position_lists(v[i]@))
}

impl GeoValue {
    pub open spec fn model(self) -> GeoModel
        decreases self,
    {
        match self {
            GeoValue::Point(p) => GeoModel::Point(p@),
            GeoValue::MultiPoint(v) => GeoModel::MultiPoint(positions(v@)),
            GeoValue::LineString(v) => GeoModel::LineString(positions(v@)),
            GeoValue::MultiLineString(v) => GeoModel::MultiLineString(position_lists(v@)),
            GeoValue::Polygon(v) => GeoModel::Polygon(position_lists(v@)),
            GeoValue::MultiPolygon(v) => GeoModel::MultiPolygon(position_tables(v@)),
            GeoValue::GeometryCollection(v) => GeoModel::GeometryCollection(geo_models(v@)),
        }
    }
}

pub open spec fn geo_models(values: Seq<GeoValue>) -> Seq<GeoModel>
    decreases values,
{
    Seq::new(
        values.len(),
        |i: int|
            if 0 <= i < values.len() {
                values[i].model()
            } else {
                arbitrary()
            },
    )
}

/// A GeoJSON document.
#[derive(Debug)]
pub enum GeoDocument {
    FeatureCollection(Vec<Option<GeoValue>>),
    Feature(Option<GeoValue>),
    Geometry(GeoValue),
}

/// What a [`GeoDocument`] says.
pub enum DocumentModel {
    FeatureCollection(Seq<Option<GeoModel>>),
    Feature(Option<GeoModel>),
    Geometry(GeoModel),
}

pub open spec fn optional_model(v: Option<GeoValue>) -> Option<GeoModel> {
    match v {
        Some(g) => Some(g.model()),
        None => None,
    }
}

impl View for GeoDocument {
    type V = DocumentModel;

    open spec fn view(&self) -> DocumentModel {
        match self {
            GeoDocument::FeatureCollection(v) => DocumentModel::FeatureCollection(
                Seq::new(v@.len(), |i: int| optional_model(v@[i])),
            ),
            GeoDocument::Feature(g) => DocumentModel::Feature(optional_model(*g)),
            GeoDocument::Geometry(g) => DocumentModel::Geometry(g.model()),
        }
    }
}

/// The geometry value of the `geojson` crate.
#[verifier::external_type_specification]
#[verifier::external_body]
pub struct ExGeoValue(geojson::Value);

/// What the `geojson` crate makes of a text: a document, or the words in which
/// it refuses it.
pub uninterp spec fn parsed_geojson(text: Seq<char>) -> Result<DocumentModel, Seq<char>>;

/// `str::parse` into `geojson::GeoJson`, whose parts are then moved over one by
/// one, and the words of `geojson::Error`. The result depends on the text
/// alone; what the crate makes of a text is not stated here.
#[verifier::external_body]
pub(crate) fn parse_document(text: &str) -> (r: Result<GeoDocument, String>)
    ensures
        match r {
            Ok(document) => parsed_geojson(text@) == Ok::<DocumentModel, Seq<char>>(document@),
            Err(words) => parsed_geojson(text@) == Err::<DocumentModel, Seq<char>>(words@),
        },
{
    let geometry = |f: geojson::Feature| f.geometry.map(|g| from_geojson(g.value));
    match text.parse::<geojson::GeoJson>() {
        Ok(geojson::GeoJson::FeatureCollection(c)) => Ok(
            GeoDocument::FeatureCollection(c.features.into_iter().map(geometry).collect()),
        ),
        Ok(geojson::GeoJson::Feature(f)) => Ok(GeoDocument::Feature(geometry(f))),
        Ok(geojson::GeoJson::Geometry(g)) => Ok(GeoDocument::Geometry(from_geojson(g.value))),
        Err(e) => Err(e.to_string()),
    }
}

/// Moves a `geojson::Value` over, variant by variant. Nothing is claimed of the
/// result by itself: `parse_document` names what comes out.
#[verifier::external_body]
fn from_geojson(value: geojson::Value) -> GeoValue {
    match value {
        Value::Point(p) => GeoValue::Point(from_point(p)),
        Value::MultiPoint(l) => GeoValue::MultiPoint(from_line(l)),
        Value::LineString(l) => GeoValue::LineString(from_line(l)),
        Value::MultiLineString(p) => GeoValue::MultiLineString(from_rings(p)),
        Value::Polygon(p) => GeoValue::Polygon(from_rings(p)),
        Value::MultiPolygon(v) => {
            GeoValue::MultiPolygon(v.into_iter().map(from_rings).collect())
        },
        Value::GeometryCollection(v) => {
            GeoValue::GeometryCollection(v.into_iter().map(|g| from_geojson(g.value)).collect())
        },
    }
}

/// Moves a `geojson::PointType` over, number by number. Nothing is claimed of
/// the result by itself: `parse_document` names what comes out.
#[verifier::external_body]
fn from_point(point: geojson::PointType) -> Vec<Double> {
    point.into_iter().map(|c| Double { bits: c.to_bits() }).collect()
}

/// Moves a `geojson::LineStringType` over, position by position. Nothing is
/// claimed of the result by itself: `parse_document` names what comes out.
#[verifier::external_body]
fn from_line(line: geojson::LineStringType) -> Vec<Vec<Double>> {
    line.into_iter().map(from_point).collect()
}

/// Moves a `geojson::PolygonType` over, ring by ring. Nothing is claimed of the
/// result by itself: `parse_document` names what comes out.
#[verifier::external_body]
fn from_rings(polygon: geojson::PolygonType) -> Vec<Vec<Vec<Double>>> {
    polygon.into_iter().map(from_line).collect()
}

// -- Geometries ------------------------------------------------------------

/// A parsed GeoJSON geometry ready for rendering.
#[derive(Debug)]
pub enum GeoJsonGeometry {
    Point(LatLon),
    LineString(Vec<LatLon>),
    /// Outer ring + holes.
    Polygon(Vec<Vec<LatLon>>),
    MultiPoint(Vec<LatLon>),
    MultiLineString(Vec<Vec<LatLon>>),
    MultiPolygon(Vec<Vec<Vec<LatLon>>>),
}

/// What a [`GeoJsonGeometry`] says.
pub enum Shape {
    Point(LatLon),
    LineString(Seq<LatLon>),
    Polygon(Seq<Seq<LatLon>>),
    MultiPoint(Seq<LatLon>),
    MultiLineString(Seq<Seq<LatLon>>),
    MultiPolygon(Seq<Seq<Seq<LatLon>>>),
}

pub open spec fn lat_lon_lines(v: Seq<Vec<LatLon>>) -> Seq<Seq<LatLon>> {
    Seq::new(v.len(), |i: int| v[i]@)
}

pub open spec fn lat_lon_polygons(v: Seq<Vec<Vec<LatLon>>>) -> Seq<Seq<Seq<LatLon>>> {
    Seq::new(v.len(), |i: int| lat_lon_lines(v[i]@))
}

impl View for GeoJsonGeometry {
    type V = Shape;

    open spec fn view(&self) -> Shape {
        match self {
            GeoJsonGeometry::Point(p) => Shape::Point(*p),
            GeoJsonGeometry::LineString(v) => Shape::LineString(v@),
            GeoJsonGeometry::Polygon(v) => Shape::Polygon(lat_lon_lines(v@)),
            GeoJsonGeometry::MultiPoint(v) => Shape::MultiPoint(v@),
            GeoJsonGeometry::MultiLineString(v) => Shape::MultiLineString(lat_lon_lines(v@)),
            GeoJsonGeometry::MultiPolygon(v) => Shape::MultiPolygon(lat_lon_polygons(v@)),
        }
    }
}

pub open spec fn shape_models(v: Seq<GeoJsonGeometry>) -> Seq<Shape> {
    Seq::new(v.len(), |i: int| v[i]@)
}

/// The place of a position.
pub open spec fn place_of(position: Seq<Double>) -> LatLon {
    LatLon { lat: position[1], lon: position[0] }
}

/// The places of the positions that have two numbers.
pub open spec fn places(positions: Seq<Seq<Double>>) -> Seq<LatLon>
    decreases positions.len(),
{
    if positions.len() == 0 {
        Seq::empty()
    } else {
        let before = places(positions.drop_last());
        if positions.last().len() >= 2 {
            before.push(place_of(positions.last()))
        } else {
            before
        }
    }
}

/// The lines that have two places.
pub open spec fn lines(lists: Seq<Seq<Seq<Double>>>) -> Seq<Seq<LatLon>>
    decreases lists.len(),
{
    if lists.len() == 0 {
        Seq::empty()
    } else {
        let before = lines(lists.drop_last());
        let line = places(lists.last());
        if line.len() >= 2 {
            before.push(line)
        } else {
            before
        }
    }
}

/// The rings of a polygon.
pub open spec fn rings(lists: Seq<Seq<Seq<Double>>>) -> Seq<Seq<LatLon>> {
    Seq::new(lists.len(), |i: int| places(lists[i]))
}

/// The polygons of several.
pub open spec fn polygons(tables: Seq<Seq<Seq<Seq<Double>>>>) -> Seq<Seq<Seq<LatLon>>> {
    Seq::new(tables.len(), |i: int| rings(tables[i]))
}

/// The geometries that a GeoJSON geometry gives: none where it has too few
/// positions, several for a collection.
pub open spec fn shapes_of(value: GeoModel) -> Seq<Shape>
    decreases value, 0nat,
{
    match value {
        GeoModel::Point(p) => if p.len() >= 2 {
            seq![Shape::Point(place_of(p))]
        } else {
            Seq::empty()
        },
        GeoModel::MultiPoint(v) => if places(v).len() > 0 {
            seq![Shape::MultiPoint(places(v))]
        } else {
            Seq::empty()
        },
        GeoModel::LineString(v) => if places(v).len() >= 2 {
            seq![Shape::LineString(places(v))]
        } else {
            Seq::empty()
        },
        GeoModel::MultiLineString(v) => if lines(v).len() > 0 {
            seq![Shape::MultiLineString(lines(v))]
        } else {
            Seq::empty()
        },
        GeoModel::Polygon(v) => if v.len() > 0 && places(v[0]).len() >= 3 {
            seq![Shape::Polygon(rings(v))]
        } else {
            Seq::empty()
        },
        GeoModel::MultiPolygon(v) => if v.len() > 0 {
            seq![Shape::MultiPolygon(polygons(v))]
        } else {
            Seq::empty()
        },
        GeoModel::GeometryCollection(v) => shapes_of_first(v, v.len()),
    }
}

/// The geometries of the first `n` of several.
pub open spec fn shapes_of_first(values: Seq<GeoModel>, n: nat) -> Seq<Shape>
    decreases values, n,
{
    if n == 0 || n > values.len() {
        Seq::empty()
    } else {
        shapes_of_first(values, (n - 1) as nat) + shapes_of(values[n - 1])
    }
}

/// The geometries of the first `n` features; some have none.
pub open spec fn feature_shapes(features: Seq<Option<GeoModel>>, n: nat) -> Seq<Shape>
    decreases n,
{
    if n == 0 {
        Seq::empty()
    } else {
        feature_shapes(features, (n - 1) as nat) + optional_shapes(features[n - 1])
    }
}

pub open spec fn optional_shapes(value: Option<GeoModel>) -> Seq<Shape> {
    match value {
        Some(g) => shapes_of(g),
        None => Seq::empty(),
    }
}

/// The geometries of a document, in a flat list.
pub open spec fn document_shapes(document: DocumentModel) -> Seq<Shape> {
    match document {
        DocumentModel::FeatureCollection(features) => feature_shapes(features, features.len()),
        DocumentModel::Feature(g) => optional_shapes(g),
        DocumentModel::Geometry(g) => shapes_of(g),
    }
}

fn to_places(list: &Vec<Vec<Double>>) -> (r: Vec<LatLon>)
    ensures
        r@ == places(positions(list@)),
{
    let mut out: Vec<LatLon> = Vec::new();
    let ghost all = positions(list@);
    let mut i: usize = 0;
    assert(all.take(0) =~= Seq::empty());
    while i < list.len()
        invariant
            i <= list@.len(),
            all == positions(list@),
            out@ == places(all.take(i as int)),
        decreases list@.len() - i,
    {
        let p: &Vec<Double> = &list[i];
        assert(all.take(i + 1).drop_last() =~= all.take(i as int));
        if p.len() >= 2 {
            out.push(LatLon::new(p[1], p[0]));
        }
        i = i + 1;
    }
    assert(all.take(i as int) =~= all);
    out
}

fn to_lines(list: &Vec<Vec<Vec<Double>>>) -> (r: Vec<Vec<LatLon>>)
    ensures
        lat_lon_lines(r@) == lines(position_lists(list@)),
{
    let mut out: Vec<Vec<LatLon>> = Vec::new();
    let ghost all = position_lists(list@);
    let mut i: usize = 0;
    assert(all.take(0) =~= Seq::empty());
    assert(lat_lon_lines(out@) =~= Seq::empty());
    while i < list.len()
        invariant
            i <= list@.len(),
            all == position_lists(list@),
            lat_lon_lines(out@) == lines(all.take(i as int)),
        decreases list@.len() - i,
    {
        let line: Vec<LatLon> = to_places(&list[i]);
        let ghost before = lat_lon_lines(out@);
        assert(all.take(i + 1).drop_last() =~= all.take(i as int));
        assert(all.take(i + 1).last() == positions(list@[i as int]@));
        if line.len() >= 2 {
            out.push(line);
            assert(lat_lon_lines(out@) =~= before.push(line@));
        }
        i = i + 1;
    }
    assert(all.take(i as int) =~= all);
    out
}

fn to_rings(list: &Vec<Vec<Vec<Double>>>) -> (r: Vec<Vec<LatLon>>)
    ensures
        r@.len() == list@.len(),
        lat_lon_lines(r@) == rings(position_lists(list@)),
{
    let mut out: Vec<Vec<LatLon>> = Vec::new();
    let mut i: usize = 0;
    while i < list.len()
        invariant
            i <= list@.len(),
            out@.len() == i,
            forall|k: int| 0 <= k < i ==> #[trigger] out@[k]@ == places(positions(list@[k]@)),
        decreases list@.len() - i,
    {
        out.push(to_places(&list[i]));
        i = i + 1;
    }
    assert(lat_lon_lines(out@) =~= rings(position_lists(list@)));
    out
}

fn to_polygons(list: &Vec<Vec<Vec<Vec<Double>>>>) -> (r: Vec<Vec<Vec<LatLon>>>)
    ensures
        r@.len() == list@.len(),
        lat_lon_polygons(r@) == polygons(position_tables(list@)),
{
    let mut out: Vec<Vec<Vec<LatLon>>> = Vec::new();
    let mut i: usize = 0;
    while i < list.len()
        invariant
            i <= list@.len(),
            out@.len() == i,
            forall|k: int|
                0 <= k < i ==> lat_lon_lines(#[trigger] out@[k]@) == rings(
                    position_lists(list@[k]@),
                ),
        decreases list@.len() - i,
    {
        out.push(to_rings(&list[i]));
        i = i + 1;
    }
    assert(lat_lon_polygons(out@) =~= polygons(position_tables(list@)));
    out
}

fn only(g: GeoJsonGeometry) -> (r: Vec<GeoJsonGeometry>)
    ensures
        shape_models(r@) == seq![g@],
{
    let mut v: Vec<GeoJsonGeometry> = Vec::new();
    v.push(g);
    assert(shape_models(v@) =~= seq![g@]);
    v
}

fn none() -> (r: Vec<GeoJsonGeometry>)
    ensures
        shape_models(r@) == Seq::<Shape>::empty(),
{
    let v: Vec<GeoJsonGeometry> = Vec::new();
    assert(shape_models(v@) =~= Seq::<Shape>::empty());
    v
}

fn extend(list: &mut Vec<GeoJsonGeometry>, more: Vec<GeoJsonGeometry>)
    ensures
        shape_models(final(list)@) == shape_models(old(list)@) + shape_models(more@),
{
    let mut rest: Vec<GeoJsonGeometry> = more;
    list.append(&mut rest);
    assert(shape_models(list@) =~= shape_models(old(list)@) + shape_models(more@));
}

/// Convert a GeoJSON geometry value into our internal types.
pub fn convert_geometry(value: &GeoValue) -> (r: Vec<GeoJsonGeometry>)
    ensures
        shape_models(r@) == shapes_of(value.model()),
    decreases value,
{
    match value {
        GeoValue::Point(p) => {
            if p.len() >= 2 {
                only(GeoJsonGeometry::Point(LatLon::new(p[1], p[0])))
            } else {
                none()
            }
        },
        GeoValue::MultiPoint(v) => {
            let points: Vec<LatLon> = to_places(v);
            if points.len() > 0 {
                only(GeoJsonGeometry::MultiPoint(points))
            } else {
                none()
            }
        },
        GeoValue::LineString(v) => {
            let line: Vec<LatLon> = to_places(v);
            if line.len() >= 2 {
                only(GeoJsonGeometry::LineString(line))
            } else {
                none()
            }
        },
        GeoValue::MultiLineString(v) => {
            let converted: Vec<Vec<LatLon>> = to_lines(v);
            assert(lat_lon_lines(converted@).len() == converted@.len());
            if converted.len() > 0 {
                only(GeoJsonGeometry::MultiLineString(converted))
            } else {
                none()
            }
        },
        GeoValue::Polygon(v) => {
            let converted: Vec<Vec<LatLon>> = to_rings(v);
            if converted.len() > 0 {
                assert(lat_lon_lines(converted@)[0] == converted@[0]@);
            }
            if converted.len() > 0 && converted[0].len() >= 3 {
                only(GeoJsonGeometry::Polygon(converted))
            } else {
                none()
            }
        },
        GeoValue::MultiPolygon(v) => {
            let converted: Vec<Vec<Vec<LatLon>>> = to_polygons(v);
            if converted.len() > 0 {
                only(GeoJsonGeometry::MultiPolygon(converted))
            } else {
                none()
            }
        },
        GeoValue::GeometryCollection(v) => {
            let mut result: Vec<GeoJsonGeometry> = none();
            let ghost models = geo_models(v@);
            let mut i: usize = 0;
            while i < v.len()
                invariant
                    i <= v@.len(),
                    models == geo_models(v@),
                    models.len() == v@.len(),
                    value == GeoValue::GeometryCollection(*v),
                    shape_models(result@) == shapes_of_first(models, i as nat),
                decreases v@.len() - i,
            {
                assert(decreases_to!(value => value->GeometryCollection_0));
                assert(decreases_to!(v@ => v@[i as int]));
                assert(models[i as int] == v@[i as int].model());
                let more: Vec<GeoJsonGeometry> = convert_geometry(&v[i]);
                extend(&mut result, more);
                i = i + 1;
            }
            result
        },
    }
}

/// Parse a GeoJSON document into a flat list of geometries.
pub fn parse_geojson(document: &GeoDocument) -> (r: Vec<GeoJsonGeometry>)
    ensures
        shape_models(r@) == document_shapes(document@),
{
    match document {
        GeoDocument::FeatureCollection(features) => {
            let mut result: Vec<GeoJsonGeometry> = none();
            let ghost models = Seq::new(features@.len(), |i: int| optional_model(features@[i]));
            let mut i: usize = 0;
            while i < features.len()
                invariant
                    i <= features@.len(),
                    models == Seq::new(features@.len(), |i: int| optional_model(features@[i])),
                    shape_models(result@) == feature_shapes(models, i as nat),
                decreases features@.len() - i,
            {
                let more: Vec<GeoJsonGeometry> = convert_optional(&features[i]);
                assert(models[i as int] == optional_model(features@[i as int]));
                extend(&mut result, more);
                i = i + 1;
            }
            result
        },
        GeoDocument::Feature(g) => convert_optional(g),
        GeoDocument::Geometry(g) => convert_geometry(g),
    }
}

fn convert_optional(value: &Option<GeoValue>) -> (r: Vec<GeoJsonGeometry>)
    ensures
        shape_models(r@) == optional_shapes(optional_model(*value)),
{
    match value {
        Some(g) => convert_geometry(g),
        None => none(),
    }
}

// -- What geometries keep --------------------------------------------------

/// The position that names a place: its longitude, then its latitude.
pub open spec fn position_of(place: LatLon) -> Seq<Double> {
    seq![place.lon, place.lat]
}

pub open spec fn positions_of(points: Seq<LatLon>) -> Seq<Seq<Double>> {
    Seq::new(points.len(), |i: int| position_of(points[i]))
}

pub open spec fn position_lists_of(lists: Seq<Seq<LatLon>>) -> Seq<Seq<Seq<Double>>> {
    Seq::new(lists.len(), |i: int| positions_of(lists[i]))
}

pub open spec fn position_tables_of(tables: Seq<Seq<Seq<LatLon>>>) -> Seq<Seq<Seq<Seq<Double>>>> {
    Seq::new(tables.len(), |i: int| position_lists_of(tables[i]))
}

/// The GeoJSON geometry that describes one.
pub open spec fn described(shape: Shape) -> GeoModel {
    match shape {
        Shape::Point(p) => GeoModel::Point(position_of(p)),
        Shape::LineString(v) => GeoModel::LineString(positions_of(v)),
        Shape::Polygon(v) => GeoModel::Polygon(position_lists_of(v)),
        Shape::MultiPoint(v) => GeoModel::MultiPoint(positions_of(v)),
        Shape::MultiLineString(v) => GeoModel::MultiLineString(position_lists_of(v)),
        Shape::MultiPolygon(v) => GeoModel::MultiPolygon(position_tables_of(v)),
    }
}

/// Whether a geometry has enough places to be one.
pub open spec fn has_enough_places(shape: Shape) -> bool {
    match shape {
        Shape::Point(_) => true,
        Shape::LineString(v) => v.len() >= 2,
        Shape::Polygon(v) => v.len() > 0 && v[0].len() >= 3,
        Shape::MultiPoint(v) => v.len() > 0,
        Shape::MultiLineString(v) => v.len() > 0 && forall|i: int|
            0 <= i < v.len() ==> (#[trigger] v[i]).len() >= 2,
        Shape::MultiPolygon(v) => v.len() > 0,
    }
}

/// The places of positions come back as they were described, in their order.
proof fn lemma_places_described(points: Seq<LatLon>)
    ensures
        places(positions_of(points)) == points,
    decreases points.len(),
{
    if points.len() > 0 {
        lemma_places_described(points.drop_last());
        assert(positions_of(points).drop_last() =~= positions_of(points.drop_last()));
        assert(positions_of(points).last() == position_of(points.last()));
        assert(place_of(position_of(points.last())) == points.last());
        assert(points.drop_last().push(points.last()) =~= points);
    }
}

proof fn lemma_lines_described(lists: Seq<Seq<LatLon>>)
    requires
        forall|i: int| 0 <= i < lists.len() ==> (#[trigger] lists[i]).len() >= 2,
    ensures
        lines(position_lists_of(lists)) == lists,
    decreases lists.len(),
{
    if lists.len() > 0 {
        let rest = lists.drop_last();
        assert forall|i: int| 0 <= i < rest.len() implies (#[trigger] rest[i]).len() >= 2 by {
            assert(rest[i] == lists[i]);
        }
        lemma_lines_described(rest);
        assert(position_lists_of(lists).drop_last() =~= position_lists_of(rest));
        assert(position_lists_of(lists).last() == positions_of(lists.last()));
        lemma_places_described(lists.last());
        assert(lists[lists.len() - 1].len() >= 2);
        assert(rest.push(lists.last()) =~= lists);
    }
}

proof fn lemma_rings_described(lists: Seq<Seq<LatLon>>)
    ensures
        rings(position_lists_of(lists)) == lists,
{
    assert forall|i: int| 0 <= i < lists.len() implies #[trigger] rings(position_lists_of(lists))[i]
        == lists[i] by {
        lemma_places_described(lists[i]);
    }
    assert(rings(position_lists_of(lists)) =~= lists);
}

/// A geometry with enough places comes back from the GeoJSON that describes it,
/// longitude first, as the one geometry that it is: every place with its
/// latitude and its longitude, in its order, in its ring. A document that is
/// this geometry, or a feature with it, gives the same.
pub proof fn law_described_geometries_come_back(shape: Shape)
    requires
        has_enough_places(shape),
    ensures
        shapes_of(described(shape)) == seq![shape],
        document_shapes(DocumentModel::Geometry(described(shape))) == seq![shape],
        document_shapes(DocumentModel::Feature(Some(described(shape)))) == seq![shape],
{
    match shape {
        Shape::Point(p) => {
            assert(place_of(position_of(p)) == p);
        },
        Shape::LineString(v) => {
            lemma_places_described(v);
        },
        Shape::Polygon(v) => {
            lemma_rings_described(v);
            lemma_places_described(v[0]);
            assert(position_lists_of(v)[0] == positions_of(v[0]));
        },
        Shape::MultiPoint(v) => {
            lemma_places_described(v);
        },
        Shape::MultiLineString(v) => {
            lemma_lines_described(v);
        },
        Shape::MultiPolygon(v) => {
            assert forall|i: int| 0 <= i < v.len() implies #[trigger] polygons(
                position_tables_of(v),
            )[i] == v[i] by {
                lemma_rings_described(v[i]);
            }
            assert(polygons(position_tables_of(v)) =~= v);
        },
    }
}

/// What has too few places gives nothing: a point without both numbers, a line
/// of fewer than two places, a polygon whose outer ring has fewer than three,
/// several of a kind that are none, a feature without a geometry.
pub proof fn law_short_geometries_give_nothing(
    position: Seq<Double>,
    points: Seq<LatLon>,
    area: Seq<Seq<LatLon>>,
)
    ensures
        position.len() < 2 ==> shapes_of(GeoModel::Point(position)).len() == 0,
        points.len() < 2 ==> shapes_of(described(Shape::LineString(points))).len() == 0,
        area.len() == 0 || area[0].len() < 3 ==> shapes_of(described(Shape::Polygon(area))).len()
            == 0,
        shapes_of(described(Shape::MultiPoint(Seq::empty()))).len() == 0,
        shapes_of(described(Shape::MultiLineString(Seq::empty()))).len() == 0,
        shapes_of(described(Shape::MultiPolygon(Seq::empty()))).len() == 0,
        document_shapes(DocumentModel::Feature(None)).len() == 0,
{
    lemma_places_described(points);
    lemma_places_described(Seq::<LatLon>::empty());
    assert(positions_of(Seq::<LatLon>::empty()) =~= Seq::<Seq<Double>>::empty());
    assert(position_lists_of(Seq::<Seq<LatLon>>::empty()) =~= Seq::<Seq<Seq<Double>>>::empty());
    assert(position_tables_of(Seq::<Seq<Seq<LatLon>>>::empty()) =~= Seq::<
        Seq<Seq<Seq<Double>>>,
    >::empty());
    assert(shapes_of(described(Shape::MultiPoint(Seq::empty()))).len() == 0);
    assert(shapes_of(described(Shape::MultiLineString(Seq::empty()))).len() == 0);
    if area.len() > 0 {
        lemma_places_described(area[0]);
        assert(position_lists_of(area)[0] == positions_of(area[0]));
    }
}

/// Positions that lack one of their two numbers are left out; further numbers
/// after these two change nothing.
pub proof fn law_positions_have_two_numbers(
    before: Seq<Seq<Double>>,
    short: Seq<Double>,
    place: LatLon,
    more: Seq<Double>,
)
    requires
        short.len() < 2,
    ensures
        places(before.push(short)) == places(before),
        places(before.push(position_of(place) + more)) == places(before).push(place),
{
    assert(before.push(short).drop_last() =~= before);
    assert(before.push(position_of(place) + more).drop_last() =~= before);
    assert((position_of(place) + more)[0] == place.lon);
    assert((position_of(place) + more)[1] == place.lat);
}

/// A collection gives what each of its geometries gives, one after the other,
/// and so does a document with several features.
pub proof fn law_collections_are_flattened(
    values: Seq<GeoModel>,
    value: GeoModel,
    features: Seq<Option<GeoModel>>,
    feature: Option<GeoModel>,
)
    ensures
        shapes_of(GeoModel::GeometryCollection(Seq::empty())).len() == 0,
        shapes_of(GeoModel::GeometryCollection(values.push(value))) == shapes_of(
            GeoModel::GeometryCollection(values),
        ) + shapes_of(value),
        document_shapes(DocumentModel::FeatureCollection(Seq::empty())).len() == 0,
        document_shapes(DocumentModel::FeatureCollection(features.push(feature)))
            == document_shapes(DocumentModel::FeatureCollection(features)) + document_shapes(
            DocumentModel::Feature(feature),
        ),
{
    lemma_first_values(values, value, values.len());
    lemma_first_features(features, feature, features.len());
    let all = values.push(value);
    assert(all[values.len() as int] == value);
    assert(shapes_of_first(all, all.len()) == shapes_of_first(all, values.len()) + shapes_of(
        all[all.len() - 1],
    ));
}

proof fn lemma_first_values(values: Seq<GeoModel>, value: GeoModel, n: nat)
    requires
        n <= values.len(),
    ensures
        shapes_of_first(values.push(value), n) == shapes_of_first(values, n),
    decreases n,
{
    if n > 0 {
        lemma_first_values(values, value, (n - 1) as nat);
        assert(values.push(value)[n - 1] == values[n - 1]);
    }
}

proof fn lemma_first_features(features: Seq<Option<GeoModel>>, feature: Option<GeoModel>, n: nat)
    requires
        n <= features.len(),
    ensures
        feature_shapes(features.push(feature), n) == feature_shapes(features, n),
    decreases n,
{
    if n > 0 {
        lemma_first_features(features, feature, (n - 1) as nat);
        assert(features.push(feature)[n - 1] == features[n - 1]);
    }
}

/// A value holds the positions of its lists as they are, and a converted
/// geometry its places.
pub proof fn law_geometry_models_show_lists(
    point: Vec<Double>,
    line: Vec<Vec<Double>>,
    area: Vec<Vec<Vec<Double>>>,
    points: Vec<LatLon>,
    rings_held: Vec<Vec<LatLon>>,
)
    ensures
        GeoValue::Point(point).model() == GeoModel::Point(point@),
        GeoValue::LineString(line).model() matches GeoModel::LineString(v) && v.len() == line@.len()
            && forall|i: int| 0 <= i < v.len() ==> #[trigger] v[i] == line@[i]@,
        GeoValue::MultiPoint(line).model() matches GeoModel::MultiPoint(v) && v.len() == line@.len()
            && forall|i: int| 0 <= i < v.len() ==> #[trigger] v[i] == line@[i]@,
        GeoValue::Polygon(area).model() matches GeoModel::Polygon(v) && v.len() == area@.len()
            && forall|i: int, j: int|
            0 <= i < v.len() && 0 <= j < v[i].len() ==> v[i].len() == area@[i]@.len()
                && #[trigger] v[i][j] == area@[i]@[j]@,
        GeoValue::MultiLineString(area).model() matches GeoModel::MultiLineString(v) && v.len()
            == area@.len() && forall|i: int, j: int|
            0 <= i < v.len() && 0 <= j < v[i].len() ==> v[i].len() == area@[i]@.len()
                && #[trigger] v[i][j] == area@[i]@[j]@,
        GeoJsonGeometry::LineString(points)@ == Shape::LineString(points@),
        GeoJsonGeometry::MultiPoint(points)@ == Shape::MultiPoint(points@),
        GeoJsonGeometry::Polygon(rings_held)@ matches Shape::Polygon(v) && v.len()
            == rings_held@.len() && forall|i: int|
            0 <= i < v.len() ==> #[trigger] v[i] == rings_held@[i]@,
        GeoJsonGeometry::MultiLineString(rings_held)@ matches Shape::MultiLineString(v) && v.len()
            == rings_held@.len() && forall|i: int|
            0 <= i < v.len() ==> #[trigger] v[i] == rings_held@[i]@,
{
}

/// Two places are equal if their latitudes are and their longitudes are; a place
/// with a coordinate that is no number equals none.
pub proof fn law_places_are_equal_on_both_axes(a: LatLon, b: LatLon)
    ensures
        vstd::std_specs::cmp::PartialEqSpec::eq_spec(&a, &b) <==> {
            &&& !a.lat.nan() && !b.lat.nan() && a.lat.value() == b.lat.value()
            &&& !a.lon.nan() && !b.lon.nan() && a.lon.value() == b.lon.value()
        },
{
}

} // verus!
